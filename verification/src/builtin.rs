//! The commands that the shell runs itself.
use vstd::prelude::*;

use crate::alias::{alias_of, AliasMap, AliasView};
use crate::text::{chars_of, join_strings, joined, push_str, str_eq, string_of, strs};

verus! {

/// Additional builtins provided by ish beyond epsh.
pub open spec fn extension_names() -> Seq<Seq<char>> {
    seq![
        "fg"@,
        "z"@,
        "l"@,
        "c"@,
        "w"@,
        "which"@,
        "type"@,
        "copy-scrollback"@,
        "history"@,
        "alias"@,
        "denv"@,
        "ish-dump"@,
    ]
}

/// The builtins of epsh.
pub open spec fn shell_names() -> Seq<Seq<char>> {
    seq![
        ":"@,
        "true"@,
        "false"@,
        "echo"@,
        "printf"@,
        "cd"@,
        "pwd"@,
        "exit"@,
        "return"@,
        "break"@,
        "continue"@,
        "export"@,
        "readonly"@,
        "unset"@,
        "set"@,
        "shift"@,
        "eval"@,
        "."@,
        "source"@,
        "test"@,
        "["@,
        "read"@,
        "local"@,
        "exec"@,
        "command"@,
        "type"@,
        "wait"@,
        "trap"@,
        "kill"@,
        "umask"@,
        "getopts"@,
    ]
}

/// `epsh::builtins::is_builtin` tells whether a name is one of the shell's builtins.
#[verifier::external_body]
pub(crate) fn is_shell_builtin(name: &str) -> (r: bool)
    ensures
        r == shell_names().contains(name@),
{
    epsh::builtins::is_builtin(name)
}

/// `epsh::builtins::BUILTIN_NAMES` lists the names of the shell's builtins.
#[verifier::external_body]
pub(crate) fn shell_builtins() -> (r: Vec<String>)
    ensures
        strs(r@) == shell_names(),
{
    epsh::builtins::BUILTIN_NAMES.iter().map(|name| name.to_string()).collect()
}

fn extension_builtins() -> (r: Vec<String>)
    ensures
        strs(r@) == extension_names(),
{
    let names: [&str; 12] = [
        "fg",
        "z",
        "l",
        "c",
        "w",
        "which",
        "type",
        "copy-scrollback",
        "history",
        "alias",
        "denv",
        "ish-dump",
    ];
    let mut out: Vec<String> = Vec::new();
    let mut i: usize = 0;
    assert(extension_names().len() == 12);
    assert(forall|k: int| 0 <= k < 12 ==> (#[trigger] names@[k])@ == extension_names()[k]);
    while i < 12
        invariant
            i <= 12,
            extension_names().len() == 12,
            names@.len() == 12,
            forall|k: int| 0 <= k < 12 ==> (#[trigger] names@[k])@ == extension_names()[k],
            strs(out@) == extension_names().take(i as int),
        decreases 12 - i,
    {
        let ghost had = strs(out@);
        let c = chars_of(names[i]);
        out.push(string_of(c.as_slice()));
        assert(strs(out@) =~= had.push(extension_names()[i as int]));
        assert(extension_names().take(i + 1) =~= had.push(extension_names()[i as int]));
        i += 1;
    }
    assert(extension_names().take(i as int) =~= extension_names());
    out
}

fn contains_name(v: &Vec<String>, name: &str) -> (r: bool)
    ensures
        r == strs(v@).contains(name@),
{
    let mut i: usize = 0;
    while i < v.len()
        invariant
            i <= v.len(),
            forall|k: int| 0 <= k < i ==> (#[trigger] strs(v@)[k]) != name@,
        decreases v.len() - i,
    {
        assert(strs(v@)[i as int] == v@[i as int]@);
        if str_eq(v[i].as_str(), name) {
            return true;
        }
        i += 1;
    }
    false
}

pub fn is_ish_extension_builtin(name: &str) -> (r: bool)
    ensures
        r == extension_names().contains(name@),
{
    let names = extension_builtins();
    contains_name(&names, name)
}

/// Whether a name is a builtin in either ish or epsh.
pub open spec fn is_builtin_name(name: Seq<char>) -> bool {
    extension_names().contains(name) || shell_names().contains(name)
}

/// Check if a command name is a builtin in either ish or epsh.
pub fn is_builtin(name: &str) -> (r: bool)
    ensures
        r == is_builtin_name(name@),
{
    is_ish_extension_builtin(name) || is_shell_builtin(name)
}

/// All builtin names (ish + epsh), for completion.
pub fn all_builtin_names() -> (r: Vec<String>)
    ensures
        strs(r@) == extension_names() + shell_names(),
{
    let mut out = extension_builtins();
    let more = shell_builtins();
    let ghost first = strs(out@);
    let mut i: usize = 0;
    assert(strs(more@).take(0) =~= Seq::<Seq<char>>::empty());
    assert(first + Seq::<Seq<char>>::empty() =~= first);
    while i < more.len()
        invariant
            i <= more.len(),
            strs(out@) == first + strs(more@).take(i as int),
        decreases more.len() - i,
    {
        let ghost had = strs(out@);
        out.push(more[i].clone());
        assert(strs(out@) =~= had.push(strs(more@)[i as int]));
        assert(first + strs(more@).take(i + 1) =~= had.push(strs(more@)[i as int]));
        i += 1;
    }
    assert(strs(more@).take(i as int) =~= strs(more@));
    out
}

/// What a command of the shell's own leaves: a status, and what it writes to the standard
/// output and to the error output.
pub struct Report {
    pub status: i32,
    pub out: String,
    pub err: String,
}

pub struct ReportView {
    pub status: i32,
    pub out: Seq<char>,
    pub err: Seq<char>,
}

impl View for Report {
    type V = ReportView;

    open spec fn view(&self) -> ReportView {
        ReportView { status: self.status, out: self.out@, err: self.err@ }
    }
}

pub open spec fn success(out: Seq<char>) -> ReportView {
    ReportView { status: 0, out, err: Seq::empty() }
}

pub open spec fn failure(err: Seq<char>) -> ReportView {
    ReportView { status: 1, out: Seq::empty(), err }
}

impl Report {
    pub fn success(out: String) -> (r: Report)
        ensures
            r@ == success(out@),
    {
        let r = Report { status: 0, out, err: String::new() };
        assert(r@.err =~= Seq::empty());
        r
    }

    pub fn failure(err: String) -> (r: Report)
        ensures
            r@ == failure(err@),
    {
        let r = Report { status: 1, out: String::new(), err };
        assert(r@.out =~= Seq::empty());
        r
    }
}

/// The texts one after the other.
pub fn text3(a: &str, b: &str, c: &str) -> (r: String)
    ensures
        r@ == a@ + b@ + c@,
{
    let mut out = chars_of(a);
    push_str(&mut out, b);
    push_str(&mut out, c);
    string_of(out.as_slice())
}

/// What is said of where a command comes from: aliases before builtins, builtins before
/// functions, functions before `$PATH`.
pub open spec fn located(
    args: Seq<Seq<char>>,
    aliases: Seq<AliasView>,
    is_function: bool,
    path: Option<Seq<char>>,
) -> ReportView {
    if args.len() == 0 {
        failure("ish: w: expected command name\n"@)
    } else {
        let name = args[0];
        match alias_of(aliases, name) {
            Some(expansion) => success(
                "alias: "@ + name + " "@ + joined(expansion, " "@) + "\n"@,
            ),
            None => if is_builtin_name(name) {
                success("builtin\n"@)
            } else if is_function {
                success("function\n"@)
            } else {
                match path {
                    Some(p) => success(p + "\n"@),
                    None => failure("ish: w: not found: "@ + name + "\n"@),
                }
            },
        }
    }
}

/// Locate a command through aliases, builtins, functions, or PATH. `is_function` tells whether
/// the first argument is a function of the shell, `path` where `$PATH` holds it.
pub fn locate_command(
    args: &[String],
    aliases: &AliasMap,
    is_function: bool,
    path: &Option<String>,
) -> (r: Report)
    ensures
        r@ == located(
            strs(args@),
            aliases@,
            is_function,
            match path {
                Some(p) => Some(p@),
                None => None,
            },
        ),
{
    if args.len() == 0 {
        let m = chars_of("ish: w: expected command name\n");
        return Report::failure(string_of(m.as_slice()));
    }
    assert(strs(args@)[0] == args@[0]@);
    let name = args[0].as_str();
    if let Some(expansion) = aliases.get(name) {
        let text = join_strings(expansion, " ");
        let start = text3("alias: ", name, " ");
        return Report::success(text3(start.as_str(), text.as_str(), "\n"));
    }
    if is_builtin(name) {
        let m = chars_of("builtin\n");
        return Report::success(string_of(m.as_slice()));
    }
    if is_function {
        let m = chars_of("function\n");
        return Report::success(string_of(m.as_slice()));
    }
    match path {
        Some(p) => {
            let mut out = chars_of(p.as_str());
            push_str(&mut out, "\n");
            Report::success(string_of(out.as_slice()))
        },
        None => Report::failure(text3("ish: w: not found: ", name, "\n")),
    }
}

/// One directory to list: what is written before it, and its path.
pub struct ListStep {
    pub heading: String,
    pub path: String,
}

pub struct StepView {
    pub heading: Seq<char>,
    pub path: Seq<char>,
}

impl View for ListStep {
    type V = StepView;

    open spec fn view(&self) -> StepView {
        StepView { heading: self.heading@, path: self.path@ }
    }
}

pub open spec fn step_views(v: Seq<ListStep>) -> Seq<StepView> {
    Seq::new(v.len(), |i: int| v[i]@)
}

/// The heading of argument `i` of `n`: several directories are labelled, with an empty line
/// between them.
pub open spec fn heading(arg: Seq<char>, i: int, n: int) -> Seq<char> {
    if n <= 1 {
        Seq::empty()
    } else if i == 0 {
        arg + ":\n"@
    } else {
        "\n"@ + arg + ":\n"@
    }
}

/// The directories to list: the current one where none is named.
pub open spec fn list_steps(args: Seq<Seq<char>>) -> Seq<StepView> {
    if args.len() == 0 {
        seq![StepView { heading: Seq::empty(), path: "."@ }]
    } else {
        Seq::new(
            args.len(),
            |i: int| StepView { heading: heading(args[i], i, args.len() as int), path: args[i] },
        )
    }
}

/// List directories using ish's native directory listing.
pub fn list_directory(args: &[String]) -> (r: Vec<ListStep>)
    ensures
        step_views(r@) == list_steps(strs(args@)),
{
    let mut out: Vec<ListStep> = Vec::new();
    let n = args.len();
    if n == 0 {
        let dot = chars_of(".");
        let step = ListStep { heading: String::new(), path: string_of(dot.as_slice()) };
        assert(step@.heading =~= Seq::empty());
        out.push(step);
        assert(step_views(out@) =~= list_steps(strs(args@)));
        return out;
    }
    let mut i: usize = 0;
    while i < n
        invariant
            i <= n,
            n == args.len(),
            n > 0,
            step_views(out@) == list_steps(strs(args@)).take(i as int),
        decreases n - i,
    {
        assert(strs(args@)[i as int] == args@[i as int]@);
        let heading = if n <= 1 {
            String::new()
        } else if i == 0 {
            let mut label = chars_of(args[i].as_str());
            push_str(&mut label, ":\n");
            string_of(label.as_slice())
        } else {
            text3("\n", args[i].as_str(), ":\n")
        };
        assert(n <= 1 ==> heading@ =~= Seq::empty());
        let ghost had = step_views(out@);
        let step = ListStep { heading, path: args[i].clone() };
        let ghost sv = step@;
        out.push(step);
        assert(step_views(out@) =~= had.push(sv));
        assert(list_steps(strs(args@))[i as int] == sv);
        assert(list_steps(strs(args@)).take(i + 1) =~= had.push(sv));
        i += 1;
    }
    assert(list_steps(strs(args@)).take(i as int) =~= list_steps(strs(args@)));
    out
}

/// The status of several listings: that of the last that failed.
pub open spec fn last_failure(statuses: Seq<i32>) -> i32
    decreases statuses.len(),
{
    if statuses.len() == 0 {
        0
    } else if statuses.last() != 0 {
        statuses.last()
    } else {
        last_failure(statuses.drop_last())
    }
}

pub fn list_status(statuses: &[i32]) -> (r: i32)
    ensures
        r == last_failure(statuses@),
{
    let mut i: usize = statuses.len();
    assert(statuses@.take(i as int) =~= statuses@);
    while i > 0
        invariant
            i <= statuses.len(),
            last_failure(statuses@) == last_failure(statuses@.take(i as int)),
        decreases i,
    {
        assert(statuses@.take(i as int).drop_last() =~= statuses@.take(i - 1));
        i -= 1;
        if statuses[i] != 0 {
            return statuses[i];
        }
    }
    0
}

} // verus!
