//! The commands that are handled before a line reaches the shell language.
use vstd::prelude::*;

use crate::alias::{alias_of, alias_views, with_alias, AliasMap, AliasView};
use crate::builtin::{failure, success, text3, Report, ReportView};
use crate::history::{texts, History};
use crate::lex::{lex_words, parse_simple_command_words, raw_words, simple_words, tokens};
use crate::text::{
    chars_of, clone_strings, find, first_word, first_word_of, has_prefix_str, i32_value, is_text,
    join_strings, joined, occurs_at, parse_i32, push_all, push_str, starts_with, str_eq, string_of,
    strs, tail_of, trim_start_of, trimmed_start, words, words_of,
};

verus! {

// -- Dispatch --

/// Who handles a line.
#[derive(Debug, Clone, Copy, PartialEq, Eq, Structural)]
pub enum Dispatch {
    Alias,
    Exit,
    Cd,
    History,
    CopyScrollback,
    Denv,
    Foreground,
    Jump,
    Locate,
    List,
    Clear,
    /// The shell language.
    Shell,
}

/// Who handles a line, by its first word. `cd` and `l` are handled here only where the line is
/// nothing but words.
pub open spec fn handler_of(line: Seq<char>, simple: bool) -> Dispatch {
    let w = first_word(line);
    if w == "alias"@ {
        Dispatch::Alias
    } else if w == "exit"@ {
        Dispatch::Exit
    } else if w == "cd"@ {
        if simple {
            Dispatch::Cd
        } else {
            Dispatch::Shell
        }
    } else if w == "history"@ {
        Dispatch::History
    } else if w == "copy-scrollback"@ {
        Dispatch::CopyScrollback
    } else if w == "denv"@ {
        Dispatch::Denv
    } else if w == "fg"@ {
        Dispatch::Foreground
    } else if w == "z"@ {
        Dispatch::Jump
    } else if w == "w"@ || w == "which"@ || w == "type"@ {
        Dispatch::Locate
    } else if w == "l"@ {
        if simple {
            Dispatch::List
        } else {
            Dispatch::Shell
        }
    } else if w == "c"@ {
        Dispatch::Clear
    } else {
        Dispatch::Shell
    }
}

/// Who handles a line, if it is known whether it is nothing but words.
pub fn handler_for(line: &str, simple: bool) -> (r: Dispatch)
    ensures
        r == handler_of(line@, simple),
{
    let s = chars_of(line);
    let w = first_word_of(&s);
    if is_text(&w, "alias") {
        Dispatch::Alias
    } else if is_text(&w, "exit") {
        Dispatch::Exit
    } else if is_text(&w, "cd") {
        if simple {
            Dispatch::Cd
        } else {
            Dispatch::Shell
        }
    } else if is_text(&w, "history") {
        Dispatch::History
    } else if is_text(&w, "copy-scrollback") {
        Dispatch::CopyScrollback
    } else if is_text(&w, "denv") {
        Dispatch::Denv
    } else if is_text(&w, "fg") {
        Dispatch::Foreground
    } else if is_text(&w, "z") {
        Dispatch::Jump
    } else if is_text(&w, "w") || is_text(&w, "which") || is_text(&w, "type") {
        Dispatch::Locate
    } else if is_text(&w, "l") {
        if simple {
            Dispatch::List
        } else {
            Dispatch::Shell
        }
    } else if is_text(&w, "c") {
        Dispatch::Clear
    } else {
        Dispatch::Shell
    }
}

/// Who handles a line.
pub fn dispatch(line: &str) -> (r: Dispatch)
    ensures
        r == handler_of(line@, simple_words(tokens(line@)) is Some),
{
    let simple = parse_simple_command_words(line).is_some();
    handler_for(line, simple)
}

/// The arguments of a line that cannot be expanded as a simple command: its words after the
/// first.
pub fn plain_arguments(line: &str) -> (r: Vec<String>)
    ensures
        strs(r@) == (if words(line@).len() == 0 {
            Seq::empty()
        } else {
            words(line@).skip(1)
        }),
{
    let mut ws = words_of(line);
    if ws.len() == 0 {
        assert(strs(ws@) =~= Seq::empty());
        return ws;
    }
    let ghost had = ws@;
    ws.remove(0);
    assert(strs(ws@) =~= strs(had).skip(1));
    ws
}

/// Whether a line that is run may read the history, which is then written out first.
pub open spec fn mentions(s: Seq<char>, sub: Seq<char>) -> bool {
    exists|i: int| occurs_at(s, sub, i)
}

/// Whether a line may read the history.
pub open spec fn may_read_history(line: Seq<char>) -> bool {
    mentions(line, "history"@)
}

/// Whether a line that is run may read the history.
pub fn reads_history(line: &str) -> (r: bool)
    ensures
        r == may_read_history(line@),
        r == mentions(line@, "history"@),
{
    let s = chars_of(line);
    let p = chars_of("history");
    find(&s, &p).is_some()
}

// -- cd --

/// What `cd` does.
pub enum CdStep {
    /// Nothing but a complaint.
    Fail(String),
    /// Change to the previous directory, whose path is printed.
    Previous(String),
    /// Change to a directory.
    Go(String),
}

pub enum CdView {
    Fail(Seq<char>),
    Previous(Seq<char>),
    Go(Seq<char>),
}

impl View for CdStep {
    type V = CdView;

    open spec fn view(&self) -> CdView {
        match self {
            CdStep::Fail(m) => CdView::Fail(m@),
            CdStep::Previous(d) => CdView::Previous(d@),
            CdStep::Go(d) => CdView::Go(d@),
        }
    }
}

/// The directory that a target of `cd` names.
pub open spec fn cd_target(target: Seq<char>, home: Seq<char>) -> Seq<char> {
    if target == "~"@ || target.len() == 0 {
        home
    } else if starts_with(target, "~/"@) {
        home + target.skip(1)
    } else {
        target
    }
}

/// The directory that a target of `cd` names.
pub fn cd_directory(target: &str, home: &str) -> (r: String)
    ensures
        r@ == cd_target(target@, home@),
{
    let t = chars_of(target);
    let h = chars_of(home);
    if is_text(&t, "~") || t.len() == 0 {
        return string_of(h.as_slice());
    }
    if has_prefix_str(&t, "~/") {
        let mut out = h;
        proof {
            reveal_strlit("~/");
        }
        let rest = tail_of(&t, 1);
        push_all(&mut out, rest.as_slice());
        return string_of(out.as_slice());
    }
    string_of(t.as_slice())
}

/// What `cd` does with its arguments.
pub open spec fn cd_decided(
    args: Seq<Seq<char>>,
    oldpwd: Option<Seq<char>>,
    home: Seq<char>,
) -> CdView {
    if args.len() > 1 {
        CdView::Fail("ish: cd: too many arguments\n"@)
    } else if args.len() == 1 && args[0] == "-"@ {
        match oldpwd {
            Some(prev) => if prev.len() == 0 {
                CdView::Fail("ish: cd: no previous directory\n"@)
            } else {
                CdView::Previous(prev)
            },
            None => CdView::Fail("ish: cd: no previous directory\n"@),
        }
    } else {
        CdView::Go(
            cd_target(
                if args.len() == 1 {
                    args[0]
                } else {
                    home
                },
                home,
            ),
        )
    }
}

fn owned(text: &str) -> (r: String)
    ensures
        r@ == text@,
{
    let s = chars_of(text);
    string_of(s.as_slice())
}

/// What `cd` does with its arguments.
pub fn cd_step(args: &Vec<String>, oldpwd: &Option<String>, home: &str) -> (r: CdStep)
    ensures
        r@ == cd_decided(
            strs(args@),
            match oldpwd {
                Some(d) => Some(d@),
                None => None,
            },
            home@,
        ),
{
    if args.len() > 1 {
        return CdStep::Fail(owned("ish: cd: too many arguments\n"));
    }
    if args.len() == 1 {
        assert(strs(args@)[0] == args@[0]@);
        if str_eq(args[0].as_str(), "-") {
            if let Some(prev) = oldpwd {
                let p = chars_of(prev.as_str());
                if p.len() > 0 {
                    return CdStep::Previous(string_of(p.as_slice()));
                }
            }
            return CdStep::Fail(owned("ish: cd: no previous directory\n"));
        }
        return CdStep::Go(cd_directory(args[0].as_str(), home));
    }
    CdStep::Go(cd_directory(home, home))
}

// -- Leaving --

/// What a request to leave the shell does.
#[derive(Debug, Clone, Copy, PartialEq, Eq, Structural)]
pub enum ExitStep {
    /// The shell ends with a status.
    Leave(i32),
    /// The suspended job is ended, then the shell.
    EndJobAndLeave,
    /// The shell stays: there is a suspended job, and the next request ends it.
    Warn,
}

/// A suspended job holds the shell back once.
pub open spec fn exit_decided(has_job: bool, warned: bool, code: i32) -> ExitStep {
    if !has_job {
        ExitStep::Leave(code)
    } else if warned {
        ExitStep::EndJobAndLeave
    } else {
        ExitStep::Warn
    }
}

/// The status that an `exit` line names, 0 where it names none.
pub open spec fn exit_code(line: Seq<char>) -> i32 {
    if words(line).len() > 1 {
        match i32_value(words(line)[1]) {
            Some(n) => n,
            None => 0,
        }
    } else {
        0
    }
}

/// Handle the "exit" command typed at the prompt.
pub fn handle_exit_command(line: &str, has_job: bool, warned: bool) -> (r: ExitStep)
    ensures
        r == exit_decided(has_job, warned, exit_code(line@)),
{
    if has_job {
        return if warned {
            ExitStep::EndJobAndLeave
        } else {
            ExitStep::Warn
        };
    }
    let ws = words_of(line);
    if ws.len() > 1 {
        assert(strs(ws@)[1] == ws@[1]@);
        if let Some(n) = parse_i32(ws[1].as_str()) {
            return ExitStep::Leave(n);
        }
    }
    ExitStep::Leave(0)
}

/// Handle Ctrl+D on an empty line.
pub fn handle_exit(has_job: bool, warned: bool) -> (r: ExitStep)
    ensures
        r == exit_decided(has_job, warned, 0),
{
    if !has_job {
        ExitStep::Leave(0)
    } else if warned {
        ExitStep::EndJobAndLeave
    } else {
        ExitStep::Warn
    }
}

/// A second request always leaves, and one without a suspended job does too.
pub proof fn law_second_request_leaves(has_job: bool, code: i32)
    ensures
        exit_decided(has_job, true, code) != ExitStep::Warn,
        exit_decided(false, has_job, code) == ExitStep::Leave(code),
{
}

// -- alias --

/// How an alias is shown.
pub open spec fn alias_shown(a: AliasView) -> Seq<char> {
    "alias "@ + a.name + " "@ + joined(a.expansion, " "@) + "\n"@
}

pub open spec fn aliases_shown(v: Seq<AliasView>) -> Seq<char>
    decreases v.len(),
{
    if v.len() == 0 {
        Seq::empty()
    } else {
        aliases_shown(v.drop_last()) + alias_shown(v.last())
    }
}

/// The aliases after an `alias` command.
pub open spec fn alias_command_sets(ws: Seq<Seq<char>>, v: Seq<AliasView>) -> Seq<AliasView> {
    if ws.len() >= 2 {
        with_alias(v, ws[0], ws.skip(1))
    } else {
        v
    }
}

/// What an `alias` command says: one word asks for an alias, none for all of them.
pub open spec fn alias_command_says(ws: Seq<Seq<char>>, v: Seq<AliasView>) -> ReportView {
    if ws.len() >= 2 {
        success(Seq::empty())
    } else if ws.len() == 1 {
        match alias_of(v, ws[0]) {
            Some(expansion) => success(alias_shown(AliasView { name: ws[0], expansion })),
            None => failure("ish: alias: not found: "@ + ws[0] + "\n"@),
        }
    } else {
        success(aliases_shown(v))
    }
}

fn show_alias(name: &str, expansion: &[String]) -> (r: String)
    ensures
        r@ == alias_shown(AliasView { name: name@, expansion: strs(expansion@) }),
{
    let start = text3("alias ", name, " ");
    let text = join_strings(expansion, " ");
    text3(start.as_str(), text.as_str(), "\n")
}

/// An `alias` command whose words after `alias` are given.
pub fn alias_words(ws: &Vec<String>, aliases: &mut AliasMap) -> (r: Report)
    ensures
        final(aliases)@ == alias_command_sets(strs(ws@), old(aliases)@),
        r@ == alias_command_says(strs(ws@), old(aliases)@),
{
    if ws.len() >= 2 {
        assert(strs(ws@)[0] == ws@[0]@);
        let mut expansion = clone_strings(ws.as_slice());
        let ghost all = expansion@;
        assert(strs(all).len() == strs(ws@).len());
        expansion.remove(0);
        assert(strs(expansion@) =~= strs(all).skip(1));
        aliases.set(ws[0].clone(), expansion);
        let none = String::new();
        assert(none@ =~= Seq::empty());
        return Report::success(none);
    }
    if ws.len() == 1 {
        assert(strs(ws@)[0] == ws@[0]@);
        let name = ws[0].as_str();
        return match aliases.get(name) {
            Some(expansion) => Report::success(show_alias(name, expansion)),
            None => Report::failure(text3("ish: alias: not found: ", name, "\n")),
        };
    }
    let all = aliases.iter();
    let ghost av = alias_views(all@);
    let mut out: Vec<char> = Vec::new();
    let mut i: usize = 0;
    while i < all.len()
        invariant
            i <= all.len(),
            av == alias_views(all@),
            out@ == aliases_shown(av.take(i as int)),
        decreases all.len() - i,
    {
        let line = show_alias(all[i].name.as_str(), all[i].expansion.as_slice());
        push_str(&mut out, line.as_str());
        assert(av[i as int] == all@[i as int]@);
        assert(av.take(i + 1).drop_last() =~= av.take(i as int));
        i += 1;
    }
    assert(av.take(i as int) =~= av);
    Report::success(string_of(out.as_slice()))
}

/// What follows `alias` in a line.
pub open spec fn after_alias(line: Seq<char>) -> Seq<char> {
    let t = trimmed_start(line);
    if starts_with(t, "alias"@) {
        trimmed_start(t.skip("alias"@.len() as int))
    } else {
        Seq::empty()
    }
}

/// The words of an `alias` line after `alias`, with their quoting.
pub fn parse_alias_words(line: &str) -> (r: Vec<String>)
    ensures
        strs(r@) == raw_words(after_alias(line@), tokens(after_alias(line@)), 0),
{
    let s = chars_of(line);
    let t = trim_start_of(&s);
    proof {
        reveal_strlit("alias");
    }
    let rest: Vec<char> = if has_prefix_str(&t, "alias") {
        let more = tail_of(&t, 5);
        trim_start_of(&more)
    } else {
        Vec::new()
    };
    assert(rest@ =~= after_alias(line@));
    let source = string_of(rest.as_slice());
    lex_words(source.as_str())
}

/// Handle the "alias" command typed at the prompt.
pub fn handle_alias(line: &str, aliases: &mut AliasMap) -> (r: Report)
    ensures
        ({
            let rest = after_alias(line@);
            let ws = raw_words(rest, tokens(rest), 0);
            final(aliases)@ == alias_command_sets(ws, old(aliases)@) && r@ == alias_command_says(
                ws,
                old(aliases)@,
            )
        }),
{
    let ws = parse_alias_words(line);
    alias_words(&ws, aliases)
}

// -- history --

/// What a `history` command does.
pub enum HistoryStep {
    /// The commands are printed.
    Print(String),
    Compact,
    Rebuild,
    /// Nothing but a complaint.
    Unknown(String),
}

pub enum HistoryStepView {
    Print(Seq<char>),
    Compact,
    Rebuild,
    Unknown(Seq<char>),
}

impl View for HistoryStep {
    type V = HistoryStepView;

    open spec fn view(&self) -> HistoryStepView {
        match self {
            HistoryStep::Print(t) => HistoryStepView::Print(t@),
            HistoryStep::Compact => HistoryStepView::Compact,
            HistoryStep::Rebuild => HistoryStepView::Rebuild,
            HistoryStep::Unknown(t) => HistoryStepView::Unknown(t@),
        }
    }
}

/// Each text on a line of its own.
pub open spec fn on_lines(v: Seq<Seq<char>>) -> Seq<char>
    decreases v.len(),
{
    if v.len() == 0 {
        Seq::empty()
    } else {
        on_lines(v.drop_last()) + v.last() + "\n"@
    }
}

pub open spec fn history_decided(line: Seq<char>, entries: Seq<Seq<char>>) -> HistoryStepView {
    let ws = words(line);
    if ws.len() < 2 {
        HistoryStepView::Print(on_lines(entries))
    } else if ws[1] == "compact"@ {
        HistoryStepView::Compact
    } else if ws[1] == "rebuild"@ {
        HistoryStepView::Rebuild
    } else {
        HistoryStepView::Unknown("ish: history: unknown subcommand: "@ + ws[1] + "\n"@)
    }
}

/// Handle the "history" command.
pub fn handle_history(line: &str, history: &History) -> (r: HistoryStep)
    requires
        history.wf(),
    ensures
        r@ == history_decided(line@, texts(history@.entries)),
{
    let ws = words_of(line);
    if ws.len() < 2 {
        let n = history.len();
        let ghost tv = texts(history@.entries);
        let mut out: Vec<char> = Vec::new();
        let mut i: usize = 0;
        while i < n
            invariant
                i <= n,
                history.wf(),
                n == history@.entries.len(),
                tv == texts(history@.entries),
                out@ == on_lines(tv.take(i as int)),
            decreases n - i,
        {
            push_str(&mut out, history.get(i));
            push_str(&mut out, "\n");
            assert(tv.take(i + 1).drop_last() =~= tv.take(i as int));
            i += 1;
        }
        assert(tv.take(i as int) =~= tv);
        return HistoryStep::Print(string_of(out.as_slice()));
    }
    assert(strs(ws@)[1] == ws@[1]@);
    let sub = ws[1].as_str();
    if str_eq(sub, "compact") {
        HistoryStep::Compact
    } else if str_eq(sub, "rebuild") {
        HistoryStep::Rebuild
    } else {
        HistoryStep::Unknown(text3("ish: history: unknown subcommand: ", sub, "\n"))
    }
}

// -- The stack of directories --

/// How many directories are remembered.
pub const DIR_STACK_LIMIT: usize = 50;

/// The stack after a change to a directory: the same directory is not pushed twice in a row,
/// and the oldest leaves a stack that is full.
pub open spec fn dir_pushed(stack: Seq<Seq<char>>, pwd: Seq<char>) -> Seq<Seq<char>> {
    if stack.len() > 0 && stack.last() == pwd {
        stack
    } else if stack.len() >= DIR_STACK_LIMIT {
        stack.push(pwd).skip(1)
    } else {
        stack.push(pwd)
    }
}

pub fn push_dir_stack(dir_stack: &mut Vec<String>, pwd: &str)
    ensures
        strs(final(dir_stack)@) == dir_pushed(strs(old(dir_stack)@), pwd@),
{
    let n = dir_stack.len();
    let ghost had = strs(dir_stack@);
    if n > 0 {
        assert(had.last() == dir_stack@[n - 1]@);
        if str_eq(dir_stack[n - 1].as_str(), pwd) {
            return;
        }
    }
    let full = n >= DIR_STACK_LIMIT;
    dir_stack.push(owned(pwd));
    assert(strs(dir_stack@) =~= had.push(pwd@));
    if full {
        let ghost all = dir_stack@;
        dir_stack.remove(0);
        assert(strs(dir_stack@) =~= strs(all).skip(1));
    }
}

/// The stack never holds more than its limit, and the directory just entered is on top.
pub proof fn law_dir_stack_bounded(stack: Seq<Seq<char>>, pwd: Seq<char>)
    requires
        stack.len() <= DIR_STACK_LIMIT,
    ensures
        dir_pushed(stack, pwd).len() <= DIR_STACK_LIMIT,
        dir_pushed(stack, pwd).last() == pwd,
{
}

/// The directories to pick from: the most recent first, without the current one.
pub open spec fn dirs_to_pick(stack: Seq<Seq<char>>, pwd: Seq<char>) -> Seq<Seq<char>>
    decreases stack.len(),
{
    if stack.len() == 0 {
        Seq::empty()
    } else if stack.last() == pwd {
        dirs_to_pick(stack.drop_last(), pwd)
    } else {
        seq![stack.last()] + dirs_to_pick(stack.drop_last(), pwd)
    }
}

pub fn dir_picker_entries(dir_stack: &Vec<String>, pwd: &str) -> (r: Vec<String>)
    ensures
        strs(r@) == dirs_to_pick(strs(dir_stack@), pwd@),
{
    let mut out: Vec<String> = Vec::new();
    let mut i: usize = dir_stack.len();
    let ghost sv = strs(dir_stack@);
    assert(sv.take(i as int) =~= sv);
    assert(strs(out@) + dirs_to_pick(sv, pwd@) =~= dirs_to_pick(sv, pwd@));
    while i > 0
        invariant
            i <= dir_stack.len(),
            sv == strs(dir_stack@),
            dirs_to_pick(sv, pwd@) == strs(out@) + dirs_to_pick(sv.take(i as int), pwd@),
        decreases i,
    {
        assert(sv.take(i as int).drop_last() =~= sv.take(i - 1));
        assert(sv.take(i as int).last() == sv[i - 1]);
        i -= 1;
        if !str_eq(dir_stack[i].as_str(), pwd) {
            let ghost had = strs(out@);
            out.push(dir_stack[i].clone());
            proof {
                assert(strs(out@) =~= had + seq![sv[i as int]]);
                let rest = dirs_to_pick(sv.take(i as int), pwd@);
                assert(had + (seq![sv[i as int]] + rest) =~= (had + seq![sv[i as int]]) + rest);
            }
        }
    }
    assert(sv.take(0) =~= Seq::<Seq<char>>::empty());
    assert(strs(out@) + Seq::empty() =~= strs(out@));
    out
}

} // verus!
