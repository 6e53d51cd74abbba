//! Running command lines: which pipeline runs next, what a command is after its expansion, how
//! its processes are wired, and what their ends mean.
//!
//! The caller expands words, makes processes and waits for them.
use vstd::prelude::*;

use crate::alias::{alias_of, AliasMap, AliasView};
use crate::builtin::{is_builtin, is_builtin_name, text3};
use crate::env_changes::{
    applied, apply_diff, capture_prev, captured, change_views, diff_changes, law_restore_undoes,
    opt_views, set_keys, values_in, EnvChange,
};
use crate::env_files::{pair_views, DiffView, EnvDiff};
pub use crate::job::resume_job;
use crate::expand::{is_name_char, spec_is_name_char};
use crate::parse::{
    unescape, unmarked, Command, CommandLine, Connector, LineView, PipedCommand,
    Pipeline, PipelineView, Redirect, RedirectKind,
};
pub use crate::path::{scan_path, PathCache};
use crate::text::{
    chars_of, clone_strings, find_char, has_char, index_from, join_strings, joined,
    push_str, string_of, strs, substring,
};

verus! {

// -- Assignments before a command --

/// Whether a text can name a variable.
pub open spec fn is_var_name(s: Seq<char>) -> bool {
    &&& s.len() > 0
    &&& !('0' <= s[0] <= '9')
    &&& forall|i: int| 0 <= i < s.len() ==> spec_is_name_char(#[trigger] s[i])
}

/// Where the `=` of an assignment stands, if a word is one.
pub open spec fn assignment_pos(s: Seq<char>) -> Option<int> {
    let k = index_from(s, '=', 0);
    if k < s.len() && is_var_name(s.take(k)) {
        Some(k)
    } else {
        None
    }
}

fn assignment_at(v: &Vec<char>) -> (r: Option<usize>)
    ensures
        match (r, assignment_pos(v@)) {
            (Some(p), Some(q)) => p == q && p < v.len(),
            (None, None) => true,
            _ => false,
        },
{
    let k = find_char(v, '=', 0);
    if k == v.len() || k == 0 || ('0' <= v[0] && v[0] <= '9') {
        assert(k > 0 ==> v@.take(k as int)[0] == v@[0]);
        return None;
    }
    let mut i: usize = 0;
    while i < k
        invariant
            i <= k < v.len(),
            k == index_from(v@, '=', 0),
            forall|j: int| 0 <= j < i ==> spec_is_name_char(#[trigger] v@[j]),
        decreases k - i,
    {
        if !is_name_char(v[i]) {
            assert(v@.take(k as int)[i as int] == v@[i as int]);
            return None;
        }
        i += 1;
    }
    assert forall|j: int| 0 <= j < k implies spec_is_name_char(#[trigger] v@.take(k as int)[j]) by {
        assert(v@.take(k as int)[j] == v@[j]);
    }
    Some(k)
}

/// Whether a word is a `NAME=VALUE` assignment: the position of the `=`. A name is ASCII, so
/// this is a position in bytes as well as in characters.
pub fn var_assignment_pos(s: &str) -> (r: Option<usize>)
    ensures
        match (r, assignment_pos(s@)) {
            (Some(p), Some(q)) => p == q,
            (None, None) => true,
            _ => false,
        },
{
    let v = chars_of(s);
    assignment_at(&v)
}

/// Number of assignments at the start of the words.
pub open spec fn prefix_len(argv: Seq<Seq<char>>, i: int) -> int
    decreases argv.len() - i,
{
    if i < argv.len() && assignment_pos(argv[i]) is Some {
        prefix_len(argv, i + 1)
    } else {
        i
    }
}

pub open spec fn assignment(word: Seq<char>) -> (Seq<char>, Seq<char>) {
    let k = assignment_pos(word)->0;
    (word.take(k), word.skip(k + 1))
}

/// The assignments at the start of the words.
pub open spec fn prefix_env(argv: Seq<Seq<char>>) -> Seq<(Seq<char>, Seq<char>)> {
    Seq::new(prefix_len(argv, 0) as nat, |i: int| assignment(argv[i]))
}

proof fn lemma_prefix_len(argv: Seq<Seq<char>>, i: int)
    requires
        0 <= i <= argv.len(),
    ensures
        i <= prefix_len(argv, i) <= argv.len(),
        forall|j: int|
            i <= j < prefix_len(argv, i) ==> assignment_pos(#[trigger] argv[j]) is Some,
    decreases argv.len() - i,
{
    if i < argv.len() && assignment_pos(argv[i]) is Some {
        lemma_prefix_len(argv, i + 1);
    }
}

/// Takes the assignments from the start of the words.
pub fn split_env_prefix(argv: &mut Vec<String>) -> (r: Vec<(String, String)>)
    ensures
        pair_views(r@) == prefix_env(strs(old(argv)@)),
        strs(final(argv)@) == strs(old(argv)@).skip(prefix_len(strs(old(argv)@), 0)),
{
    let ghost all = strs(argv@);
    let mut env: Vec<(String, String)> = Vec::new();
    let mut n: usize = 0;
    proof {
        lemma_prefix_len(all, 0);
    }
    assert(all.len() == argv@.len());
    while n < argv.len()
        invariant_except_break
            n <= argv.len(),
            all == strs(argv@),
            all.len() == argv@.len(),
            prefix_len(all, 0) == prefix_len(all, n as int),
            pair_views(env@) == Seq::new(n as nat, |i: int| assignment(all[i])),
        ensures
            n <= argv.len(),
            n == prefix_len(all, 0),
            all == strs(argv@),
            pair_views(env@) == Seq::new(n as nat, |i: int| assignment(all[i])),
        decreases argv.len() - n,
    {
        assert(all[n as int] == argv@[n as int]@);
        let v = chars_of(argv[n].as_str());
        match assignment_at(&v) {
            Some(k) => {
                let name = substring(&v, 0, k);
                let value = substring(&v, k + 1, v.len());
                assert(name@ =~= v@.take(k as int));
                assert(value@ =~= v@.skip(k + 1));
                let ghost had = pair_views(env@);
                env.push((name, value));
                assert(pair_views(env@) =~= had.push(assignment(all[n as int])));
                assert(pair_views(env@) =~= Seq::new((n + 1) as nat, |i: int| assignment(all[i])));
            },
            None => {
                break;
            },
        }
        n += 1;
    }
    let mut rest: Vec<String> = Vec::new();
    let mut i: usize = n;
    assert(all.subrange(n as int, n as int) =~= Seq::empty());
    assert(strs(rest@) =~= Seq::empty());
    while i < argv.len()
        invariant
            n <= i <= argv.len(),
            all == strs(argv@),
            strs(rest@) == all.subrange(n as int, i as int),
        decreases argv.len() - i,
    {
        let ghost had = strs(rest@);
        let w = argv[i].clone();
        let ghost wv = w@;
        assert(all[i as int] == wv);
        rest.push(w);
        assert(strs(rest@) =~= had.push(wv));
        assert(all.subrange(n as int, i + 1) =~= had.push(wv));
        i += 1;
    }
    assert(all.subrange(n as int, i as int) =~= all.skip(n as int));
    *argv = rest;
    env
}

/// What is set for the time of a command, and what sets it back.
pub struct TempEnv {
    pub set: Vec<EnvChange>,
    pub undo: Vec<EnvChange>,
}

pub open spec fn prefix_diff(env: Seq<(Seq<char>, Seq<char>)>) -> DiffView {
    DiffView { set: env, unset: Seq::empty() }
}

/// What is set for the time of a command, from the values that the variables have now.
pub fn set_env_temp(env: &Vec<(String, String)>, values: &Vec<Option<String>>) -> (r: TempEnv)
    requires
        values.len() == env.len(),
    ensures
        change_views(r.set@) == diff_changes(prefix_diff(pair_views(env@))),
        change_views(r.undo@) == captured(
            prefix_diff(pair_views(env@)),
            opt_views(values@),
            Seq::empty(),
        ),
{
    let mut pairs: Vec<(String, String)> = Vec::new();
    let mut i: usize = 0;
    while i < env.len()
        invariant
            i <= env.len(),
            pair_views(pairs@) == pair_views(env@).take(i as int),
        decreases env.len() - i,
    {
        let ghost had = pair_views(pairs@);
        pairs.push((env[i].0.clone(), env[i].1.clone()));
        assert(pair_views(pairs@) =~= had.push(pair_views(env@)[i as int]));
        assert(pair_views(env@).take(i + 1) =~= had.push(pair_views(env@)[i as int]));
        i += 1;
    }
    assert(pair_views(env@).take(i as int) =~= pair_views(env@));
    assert(pair_views(pairs@).len() == pairs@.len());
    assert(pair_views(env@).len() == env@.len());
    let diff = EnvDiff { set: pairs, unset: Vec::new() };
    assert(diff@ == prefix_diff(pair_views(env@))) by {
        assert(diff@.unset =~= Seq::empty());
    }
    let none: Vec<Option<String>> = Vec::new();
    assert(opt_views(none@) =~= Seq::empty());
    TempEnv { set: apply_diff(&diff), undo: capture_prev(&diff, values, &none) }
}

/// Assignments before a command are gone after it: every variable has the value that it had.
pub proof fn law_prefix_is_undone(
    env: Map<Seq<char>, Seq<char>>,
    prefix: Seq<(Seq<char>, Seq<char>)>,
)
    ensures
        ({
            let d = prefix_diff(prefix);
            applied(
                applied(env, diff_changes(d)),
                captured(d, values_in(env, set_keys(d)), Seq::empty()),
            ) == env
        }),
{
    let d = prefix_diff(prefix);
    law_restore_undoes(env, d);
    assert(values_in(env, d.unset) =~= Seq::empty());
}

// -- Aliases --

/// Where the command stands: the first word that is no assignment.
pub open spec fn command_index(argv: Seq<Seq<char>>, i: int) -> int
    decreases argv.len() - i,
{
    if i < argv.len() && assignment_pos(unmarked(argv[i])) is Some {
        command_index(argv, i + 1)
    } else {
        i
    }
}

/// The words with an alias in place of the command, once.
pub open spec fn spliced(argv: Seq<Seq<char>>, aliases: Seq<AliasView>) -> Seq<Seq<char>> {
    let i = command_index(argv, 0);
    if i >= argv.len() {
        argv
    } else {
        match alias_of(aliases, unmarked(argv[i])) {
            Some(words) => argv.take(i) + words + argv.skip(i + 1),
            None => argv,
        }
    }
}

fn push_strings(out: &mut Vec<String>, more: &[String], from: usize, to: usize)
    requires
        from <= to <= more.len(),
    ensures
        strs(final(out)@) == strs(old(out)@) + strs(more@).subrange(from as int, to as int),
{
    let ghost front = strs(out@);
    let ghost mv = strs(more@);
    let mut i: usize = from;
    assert(mv.subrange(from as int, from as int) =~= Seq::empty());
    assert(front + mv.subrange(from as int, from as int) =~= front);
    while i < to
        invariant
            from <= i <= to <= more.len(),
            mv == strs(more@),
            strs(out@) == front + mv.subrange(from as int, i as int),
        decreases to - i,
    {
        let ghost had = strs(out@);
        let w = more[i].clone();
        let ghost wv = w@;
        assert(mv[i as int] == wv);
        out.push(w);
        assert(strs(out@) =~= had.push(wv));
        assert(front + mv.subrange(from as int, i + 1) =~= had.push(wv));
        i += 1;
    }
}

/// Puts the expansion of an alias in place of the command. What it expands to is not expanded
/// again.
pub fn splice_alias(argv: &Vec<String>, aliases: &AliasMap) -> (r: Vec<String>)
    ensures
        strs(r@) == spliced(strs(argv@), aliases@),
{
    let ghost all = strs(argv@);
    assert(all.len() == argv@.len());
    let mut i: usize = 0;
    while i < argv.len()
        invariant_except_break
            i <= argv.len(),
            all == strs(argv@),
            all.len() == argv@.len(),
            command_index(all, 0) == command_index(all, i as int),
        ensures
            i <= argv.len(),
            i == command_index(all, 0),
        decreases argv.len() - i,
    {
        assert(all[i as int] == argv@[i as int]@);
        let clean = unescape(argv[i].as_str());
        if var_assignment_pos(clean.as_str()).is_none() {
            break;
        }
        i += 1;
    }
    if i == argv.len() {
        return clone_strings(argv.as_slice());
    }
    assert(all[i as int] == argv@[i as int]@);
    let clean = unescape(argv[i].as_str());
    match aliases.get(clean.as_str()) {
        Some(words) => {
            let mut out: Vec<String> = Vec::new();
            let n = argv.len();
            let m = words.len();
            push_strings(&mut out, argv.as_slice(), 0, i);
            push_strings(&mut out, words, 0, m);
            push_strings(&mut out, argv.as_slice(), i + 1, n);
            assert(strs(words@).len() == words@.len());
            assert(strs(out@) =~= all.take(i as int) + strs(words@) + all.skip(i + 1));
            out
        },
        None => clone_strings(argv.as_slice()),
    }
}

// -- Commands after their expansion --

/// A command whose words are expanded, ready to run.
pub struct ExpandedCommand {
    pub argv: Vec<String>,
    pub redirects: Vec<Redirect>,
    pub pipe_stderr: bool,
    pub env: Vec<(String, String)>,
}

#[verifier::ext_equal]
pub struct ExpandedView {
    pub argv: Seq<Seq<char>>,
    pub redirects: Seq<(RedirectKind, Seq<char>)>,
    pub pipe_stderr: bool,
    pub env: Seq<(Seq<char>, Seq<char>)>,
}

pub open spec fn redirect_views(v: Seq<Redirect>) -> Seq<(RedirectKind, Seq<char>)> {
    Seq::new(v.len(), |i: int| (v[i].kind, v[i].target@))
}

impl View for ExpandedCommand {
    type V = ExpandedView;

    open spec fn view(&self) -> ExpandedView {
        ExpandedView {
            argv: strs(self.argv@),
            redirects: redirect_views(self.redirects@),
            pipe_stderr: self.pipe_stderr,
            env: pair_views(self.env@),
        }
    }
}

pub open spec fn expanded_views(v: Seq<ExpandedCommand>) -> Seq<ExpandedView> {
    Seq::new(v.len(), |i: int| v[i]@)
}

/// A command after its expansion. Assignments without a command are none.
pub open spec fn prepared(
    words: Seq<Seq<char>>,
    redirects: Seq<(RedirectKind, Seq<char>)>,
    pipe_stderr: bool,
) -> Option<ExpandedView> {
    let n = prefix_len(words, 0);
    if n >= words.len() {
        None
    } else {
        Some(
            ExpandedView {
                argv: words.skip(n),
                redirects,
                pipe_stderr,
                env: prefix_env(words),
            },
        )
    }
}

/// Prepares a command from its expanded words and redirections.
pub fn prepare_command(words: Vec<String>, redirects: Vec<Redirect>, pipe_stderr: bool) -> (r:
    Option<ExpandedCommand>)
    ensures
        match (r, prepared(strs(words@), redirect_views(redirects@), pipe_stderr)) {
            (Some(c), Some(d)) => c@ == d,
            (None, None) => true,
            _ => false,
        },
{
    let ghost all = strs(words@);
    proof {
        lemma_prefix_len(all, 0);
    }
    let mut argv = words;
    let env = split_env_prefix(&mut argv);
    assert(strs(argv@).len() == argv@.len());
    if argv.len() == 0 {
        return None;
    }
    Some(ExpandedCommand { argv, redirects, pipe_stderr, env })
}

/// The target of a redirection: its expansions with spaces between, or the target as it was
/// written where its expansion failed.
pub fn expand_redirect(redirect: &Redirect, words: &Option<Vec<String>>) -> (r: Redirect)
    ensures
        r.kind == redirect.kind,
        r.target@ == (match words {
            Some(w) => joined(strs(w@), " "@),
            None => unmarked(redirect.target@),
        }),
{
    let target = match words {
        Some(w) => join_strings(w.as_slice(), " "),
        None => unescape(redirect.target.as_str()),
    };
    Redirect { kind: redirect.kind, target }
}

/// How a pipeline is run.
#[derive(Debug, Clone, Copy, PartialEq, Eq, Structural)]
pub enum RunPlan {
    /// There is nothing to run.
    Nothing,
    /// One builtin, in the shell's own process.
    InProcess,
    /// A process for each command.
    Fork,
}

pub open spec fn run_plan(commands: Seq<ExpandedView>) -> RunPlan {
    if commands.len() == 0 {
        RunPlan::Nothing
    } else if commands.len() == 1 && is_builtin_name(commands[0].argv[0]) {
        RunPlan::InProcess
    } else {
        RunPlan::Fork
    }
}

/// How a pipeline is run.
pub fn plan_pipeline(commands: &Vec<ExpandedCommand>) -> (r: RunPlan)
    requires
        forall|i: int| 0 <= i < commands.len() ==> (#[trigger] commands@[i]).argv.len() > 0,
    ensures
        r == run_plan(expanded_views(commands@)),
{
    if commands.len() == 0 {
        return RunPlan::Nothing;
    }
    assert(commands@[0].argv.len() > 0);
    assert(expanded_views(commands@)[0].argv[0] == commands@[0].argv@[0]@);
    if commands.len() == 1 && is_builtin(commands[0].argv[0].as_str()) {
        RunPlan::InProcess
    } else {
        RunPlan::Fork
    }
}

pub open spec fn assignment_texts(env: Seq<(Seq<char>, Seq<char>)>) -> Seq<Seq<char>> {
    Seq::new(env.len(), |i: int| env[i].0 + "="@ + env[i].1)
}

pub open spec fn command_text(c: ExpandedView) -> Seq<char> {
    joined(assignment_texts(c.env) + c.argv, " "@)
}

pub open spec fn pipeline_text(commands: Seq<ExpandedView>) -> Seq<char> {
    joined(Seq::new(commands.len(), |i: int| command_text(commands[i])), " | "@)
}

fn show_command(c: &ExpandedCommand) -> (r: String)
    ensures
        r@ == command_text(c@),
{
    let mut parts: Vec<String> = Vec::new();
    let ghost envs = assignment_texts(c@.env);
    let mut i: usize = 0;
    while i < c.env.len()
        invariant
            i <= c.env.len(),
            envs == assignment_texts(c@.env),
            strs(parts@) == envs.take(i as int),
        decreases c.env.len() - i,
    {
        let ghost had = strs(parts@);
        let t = text3(c.env[i].0.as_str(), "=", c.env[i].1.as_str());
        let ghost tv = t@;
        assert(c@.env[i as int] == (c.env@[i as int].0@, c.env@[i as int].1@));
        parts.push(t);
        assert(strs(parts@) =~= had.push(tv));
        assert(envs.take(i + 1) =~= had.push(tv));
        i += 1;
    }
    assert(envs.take(i as int) =~= envs);
    let n = c.argv.len();
    push_strings(&mut parts, c.argv.as_slice(), 0, n);
    assert(strs(c.argv@).len() == c.argv@.len());
    assert(strs(c.argv@).subrange(0, n as int) =~= strs(c.argv@));
    join_strings(parts.as_slice(), " ")
}

/// The text of a pipeline that was suspended.
pub fn show_pipeline(commands: &Vec<ExpandedCommand>) -> (r: String)
    ensures
        r@ == pipeline_text(expanded_views(commands@)),
{
    let ghost all = expanded_views(commands@);
    let ghost texts = Seq::new(all.len(), |i: int| command_text(all[i]));
    let mut parts: Vec<String> = Vec::new();
    let mut i: usize = 0;
    while i < commands.len()
        invariant
            i <= commands.len(),
            all == expanded_views(commands@),
            texts == Seq::new(all.len(), |i: int| command_text(all[i])),
            strs(parts@) == texts.take(i as int),
        decreases commands.len() - i,
    {
        let ghost had = strs(parts@);
        let t = show_command(&commands[i]);
        let ghost tv = t@;
        assert(all[i as int] == commands@[i as int]@);
        parts.push(t);
        assert(strs(parts@) =~= had.push(tv));
        assert(texts.take(i + 1) =~= had.push(tv));
        i += 1;
    }
    assert(texts.take(i as int) =~= texts);
    join_strings(parts.as_slice(), " | ")
}

// -- Chains of pipelines --

pub open spec fn segment_views(v: Seq<(Pipeline, Option<Connector>)>) -> LineView {
    Seq::new(v.len(), |i: int| (v[i].0@, v[i].1))
}

/// Whether a pipeline runs behind a connector, from the status before it.
pub open spec fn runs(connector: Option<Connector>, status: i32) -> bool {
    match connector {
        Some(Connector::And) => status == 0,
        Some(Connector::Or) => status != 0,
        _ => true,
    }
}

/// The connector before a pipeline. Before the first stands the one that a resumed chain was
/// left at.
pub open spec fn connector_before(
    line: LineView,
    entry: Option<Connector>,
    i: int,
) -> Option<Connector> {
    if i <= 0 {
        entry
    } else {
        line[i - 1].1
    }
}

/// The next pipeline that runs, from `i` on; the number of pipelines where none does.
pub open spec fn next_index(line: LineView, entry: Option<Connector>, i: int, status: i32) -> int
    decreases line.len() - i,
{
    if i >= line.len() {
        line.len() as int
    } else if runs(connector_before(line, entry, i), status) {
        i
    } else {
        next_index(line, entry, i + 1, status)
    }
}

pub proof fn lemma_next_index(line: LineView, entry: Option<Connector>, i: int, status: i32)
    requires
        0 <= i <= line.len(),
    ensures
        i <= next_index(line, entry, i, status) <= line.len(),
    decreases line.len() - i,
{
    if i < line.len() && !runs(connector_before(line, entry, i), status) {
        lemma_next_index(line, entry, i + 1, status);
    }
}

/// The next pipeline that runs, from `from` on, with the status of the one before it.
pub fn next_segment(
    segments: &Vec<(Pipeline, Option<Connector>)>,
    entry: Option<Connector>,
    from: usize,
    status: i32,
) -> (r: usize)
    requires
        from <= segments.len(),
    ensures
        r == next_index(segment_views(segments@), entry, from as int, status),
        from <= r <= segments.len(),
{
    let ghost line = segment_views(segments@);
    let mut i: usize = from;
    while i < segments.len()
        invariant
            from <= i <= segments.len(),
            line == segment_views(segments@),
            next_index(line, entry, from as int, status) == next_index(
                line,
                entry,
                i as int,
                status,
            ),
        decreases segments.len() - i,
    {
        let before = if i == 0 {
            entry
        } else {
            segments[i - 1].1
        };
        assert(before == connector_before(line, entry, i as int));
        let go = match before {
            Some(Connector::And) => status == 0,
            Some(Connector::Or) => status != 0,
            _ => true,
        };
        if go {
            return i;
        }
        i += 1;
    }
    i
}

/// The status of a command that was suspended.
pub const SUSPENDED: i32 = 148;

/// What comes of a chain from pipeline `i` on, where pipeline `j` ends with status `ends(j)`: the
/// last status, and where the chain stopped, if it was suspended.
pub open spec fn chain_end(
    line: LineView,
    entry: Option<Connector>,
    i: int,
    status: i32,
    ends: spec_fn(int) -> i32,
) -> (i32, Option<int>)
    decreases line.len() - i,
    when 0 <= i <= line.len()
{
    let k = next_index(line, entry, i, status);
    if k >= line.len() {
        (status, None)
    } else if ends(k) == SUSPENDED {
        (SUSPENDED, Some(k))
    } else {
        proof {
            lemma_next_index(line, entry, i, status);
        }
        chain_end(line, entry, k + 1, ends(k), ends)
    }
}

/// What is left of a chain when one of its pipelines is suspended.
pub struct Continuation {
    pub connector: Connector,
    pub segments: Vec<(Pipeline, Option<Connector>)>,
}

#[verifier::ext_equal]
pub struct ContinuationView {
    pub connector: Connector,
    pub segments: LineView,
}

impl View for Continuation {
    type V = ContinuationView;

    open spec fn view(&self) -> ContinuationView {
        ContinuationView {
            connector: self.connector,
            segments: segment_views(self.segments@),
        }
    }
}

pub open spec fn opt_continuation(c: Option<Continuation>) -> Option<ContinuationView> {
    match c {
        Some(d) => Some(d@),
        None => None,
    }
}

/// What is left of a chain behind pipeline `i`.
pub open spec fn left_after(line: LineView, i: int) -> Option<ContinuationView> {
    match line[i].1 {
        Some(connector) => if i + 1 < line.len() {
            Some(ContinuationView { connector, segments: line.skip(i + 1) })
        } else {
            None
        },
        None => None,
    }
}

fn clone_command(c: &Command) -> (r: Command)
    ensures
        r@ == c@,
{
    let argv = clone_strings(c.argv.as_slice());
    let mut redirects: Vec<Redirect> = Vec::new();
    let mut i: usize = 0;
    while i < c.redirects.len()
        invariant
            i <= c.redirects.len(),
            redirect_views(redirects@) == redirect_views(c.redirects@).take(i as int),
        decreases c.redirects.len() - i,
    {
        let ghost had = redirect_views(redirects@);
        let ghost rv = redirect_views(c.redirects@)[i as int];
        redirects.push(
            Redirect { kind: c.redirects[i].kind, target: c.redirects[i].target.clone() },
        );
        assert(redirect_views(redirects@) =~= had.push(rv));
        assert(redirect_views(c.redirects@).take(i + 1) =~= had.push(rv));
        i += 1;
    }
    assert(redirect_views(c.redirects@).take(i as int) =~= redirect_views(c.redirects@));
    let r = Command { argv, redirects };
    assert(r@.redirects =~= redirect_views(redirects@));
    assert(c@.redirects =~= redirect_views(c.redirects@));
    r
}

fn clone_pipeline(p: &Pipeline) -> (r: Pipeline)
    ensures
        r@ == p@,
{
    let mut out = Pipeline { commands: Vec::new() };
    let mut i: usize = 0;
    while i < p.commands.len()
        invariant
            i <= p.commands.len(),
            out@ == p@.take(i as int),
        decreases p.commands.len() - i,
    {
        let ghost had = out@;
        let c = PipedCommand {
            cmd: clone_command(&p.commands[i].cmd),
            pipe_stderr: p.commands[i].pipe_stderr,
        };
        assert(c@ == p@[i as int]);
        let ghost cv = c@;
        out.commands.push(c);
        assert(out@ =~= had.push(cv));
        assert(p@.take(i + 1) =~= had.push(cv));
        i += 1;
    }
    assert(p@.take(i as int) =~= p@);
    out
}

/// What is left of a chain behind the pipeline that was suspended.
pub fn continuation_after(
    segments: &Vec<(Pipeline, Option<Connector>)>,
    at: usize,
) -> (r: Option<Continuation>)
    requires
        at < segments.len(),
    ensures
        opt_continuation(r) == left_after(segment_views(segments@), at as int),
{
    let ghost line = segment_views(segments@);
    match segments[at].1 {
        None => None,
        Some(connector) => {
            if at + 1 >= segments.len() {
                return None;
            }
            let mut rest: Vec<(Pipeline, Option<Connector>)> = Vec::new();
            let mut i: usize = at + 1;
            assert(segment_views(rest@) =~= line.subrange(at + 1, at + 1));
            while i < segments.len()
                invariant
                    at + 1 <= i <= segments.len(),
                    line == segment_views(segments@),
                    segment_views(rest@) == line.subrange(at + 1, i as int),
                decreases segments.len() - i,
            {
                let ghost had = segment_views(rest@);
                let p = clone_pipeline(&segments[i].0);
                let ghost sv = line[i as int];
                rest.push((p, segments[i].1));
                assert(segment_views(rest@) =~= had.push(sv));
                assert(line.subrange(at + 1, i + 1) =~= had.push(sv));
                i += 1;
            }
            assert(line.subrange(at + 1, i as int) =~= line.skip(at + 1));
            Some(Continuation { connector, segments: rest })
        },
    }
}

/// The sign between two commands of a pipeline, from whether the first sends its errors along.
pub open spec fn pipe_sign(pipe_stderr: bool) -> Seq<char> {
    if pipe_stderr {
        " &| "@
    } else {
        " | "@
    }
}

pub open spec fn cleaned(argv: Seq<Seq<char>>) -> Seq<Seq<char>> {
    Seq::new(argv.len(), |i: int| unmarked(argv[i]))
}

/// The commands of a pipeline from `j` on, each but the first behind the sign of the pipe that
/// leads to it.
pub open spec fn commands_text(p: PipelineView, j: int) -> Seq<char>
    decreases p.len() - j,
{
    if j < 0 || j >= p.len() {
        Seq::empty()
    } else {
        (if j > 0 {
            pipe_sign(p[j - 1].pipe_stderr)
        } else {
            Seq::empty()
        }) + joined(cleaned(p[j].cmd.argv), " "@) + commands_text(p, j + 1)
    }
}

pub open spec fn connector_text(c: Option<Connector>) -> Seq<char> {
    match c {
        Some(Connector::And) => " &&"@,
        Some(Connector::Or) => " ||"@,
        Some(Connector::Semi) => ";"@,
        None => Seq::empty(),
    }
}

/// The text of a command line from pipeline `i` on.
pub open spec fn segments_text(line: LineView, i: int) -> Seq<char>
    decreases line.len() - i,
{
    if i < 0 || i >= line.len() {
        Seq::empty()
    } else {
        (if i > 0 {
            " "@
        } else {
            Seq::empty()
        }) + commands_text(line[i].0, 0) + connector_text(line[i].1) + segments_text(line, i + 1)
    }
}

fn push_command_words(out: &mut Vec<char>, argv: &Vec<String>)
    ensures
        final(out)@ == old(out)@ + joined(cleaned(strs(argv@)), " "@),
{
    let ghost all = cleaned(strs(argv@));
    let mut words: Vec<String> = Vec::new();
    let mut i: usize = 0;
    while i < argv.len()
        invariant
            i <= argv.len(),
            all == cleaned(strs(argv@)),
            strs(words@) == all.take(i as int),
        decreases argv.len() - i,
    {
        let ghost had = strs(words@);
        let w = unescape(argv[i].as_str());
        let ghost wv = w@;
        assert(strs(argv@)[i as int] == argv@[i as int]@);
        words.push(w);
        assert(strs(words@) =~= had.push(wv));
        assert(all.take(i + 1) =~= had.push(wv));
        i += 1;
    }
    assert(all.take(i as int) =~= all);
    let text = join_strings(words.as_slice(), " ");
    push_str(out, text.as_str());
}

fn push_pipeline(out: &mut Vec<char>, p: &Pipeline)
    ensures
        final(out)@ == old(out)@ + commands_text(p@, 0),
{
    let ghost goal = out@ + commands_text(p@, 0);
    let mut j: usize = 0;
    while j < p.commands.len()
        invariant
            j <= p.commands.len(),
            out@ + commands_text(p@, j as int) == goal,
        decreases p.commands.len() - j,
    {
        let ghost had = out@;
        assert(p@[j as int] == p.commands@[j as int]@);
        if j > 0 {
            assert(p@[j - 1] == p.commands@[j - 1]@);
            if p.commands[j - 1].pipe_stderr {
                push_str(out, " &| ");
            } else {
                push_str(out, " | ");
            }
        }
        push_command_words(out, &p.commands[j].cmd.argv);
        assert(had + commands_text(p@, j as int) =~= out@ + commands_text(p@, j + 1));
        j += 1;
    }
    assert(out@ + commands_text(p@, j as int) =~= out@);
}

/// The text of a command line, for display.
pub fn format_segments(segments: &Vec<(Pipeline, Option<Connector>)>) -> (r: String)
    ensures
        r@ == segments_text(segment_views(segments@), 0),
{
    let ghost line = segment_views(segments@);
    let ghost goal = segments_text(line, 0);
    let mut out: Vec<char> = Vec::new();
    let mut i: usize = 0;
    assert(out@ + segments_text(line, 0) =~= goal);
    while i < segments.len()
        invariant
            i <= segments.len(),
            line == segment_views(segments@),
            out@ + segments_text(line, i as int) == goal,
        decreases segments.len() - i,
    {
        let ghost had = out@;
        if i > 0 {
            push_str(&mut out, " ");
        }
        push_pipeline(&mut out, &segments[i].0);
        match segments[i].1 {
            Some(Connector::And) => push_str(&mut out, " &&"),
            Some(Connector::Or) => push_str(&mut out, " ||"),
            Some(Connector::Semi) => push_str(&mut out, ";"),
            None => {},
        }
        assert(had + segments_text(line, i as int) =~= out@ + segments_text(line, i + 1));
        i += 1;
    }
    assert(out@ + segments_text(line, i as int) =~= out@);
    string_of(out.as_slice())
}

/// What running a command line asks for next.
pub enum ExecStep {
    /// A pipeline of the line is to be run.
    Run(usize),
    /// The line is done, with a status.
    Done(i32),
    /// A pipeline was suspended: the line's text, and what is left to be run when it is resumed.
    Suspended { cmd: String, continuation: Option<Continuation> },
}

pub enum ExecView {
    Run(int),
    Done(i32),
    Suspended { cmd: Seq<char>, continuation: Option<ContinuationView> },
}

impl View for ExecStep {
    type V = ExecView;

    open spec fn view(&self) -> ExecView {
        match self {
            ExecStep::Run(i) => ExecView::Run(*i as int),
            ExecStep::Done(status) => ExecView::Done(*status),
            ExecStep::Suspended { cmd, continuation } => ExecView::Suspended {
                cmd: cmd@,
                continuation: opt_continuation(*continuation),
            },
        }
    }
}

pub open spec fn entry_connector(entry: Option<(i32, Connector)>) -> Option<Connector> {
    match entry {
        Some((_, c)) => Some(c),
        None => None,
    }
}

pub open spec fn run_or_done(
    line: LineView,
    entry: Option<Connector>,
    from: int,
    status: i32,
) -> ExecView {
    let k = next_index(line, entry, from, status);
    if k < line.len() {
        ExecView::Run(k)
    } else {
        ExecView::Done(status)
    }
}

/// What running a line asks for next, after the pipeline that ran last and its status.
pub open spec fn exec_next(
    line: LineView,
    entry: Option<(i32, Connector)>,
    ran: Option<(int, i32)>,
    prev_status: i32,
) -> ExecView {
    match ran {
        None => run_or_done(
            line,
            entry_connector(entry),
            0,
            match entry {
                Some((status, _)) => status,
                None => prev_status,
            },
        ),
        Some((i, status)) => if status == SUSPENDED {
            ExecView::Suspended { cmd: segments_text(line, 0), continuation: left_after(line, i) }
        } else {
            run_or_done(line, entry_connector(entry), i + 1, status)
        },
    }
}

pub open spec fn ran_view(ran: Option<(usize, i32)>) -> Option<(int, i32)> {
    match ran {
        Some((i, status)) => Some((i as int, status)),
        None => None,
    }
}

/// One step of running a command line. `entry` is the status of a resumed pipeline and the
/// connector behind it, where the line continues a chain; `ran` is the pipeline that ran last and
/// its status. Repeated until it is done, this runs the line as its connectors say.
pub fn execute(
    cmdline: &CommandLine,
    entry: Option<(i32, Connector)>,
    ran: Option<(usize, i32)>,
    prev_status: i32,
) -> (r: ExecStep)
    requires
        ran matches Some(last) ==> last.0 < cmdline.segments.len(),
    ensures
        r@ == exec_next(cmdline@, entry, ran_view(ran), prev_status),
{
    assert(cmdline@ =~= segment_views(cmdline.segments@));
    let connector = match entry {
        Some((_, c)) => Some(c),
        None => None,
    };
    let (from, status) = match ran {
        None => match entry {
            Some((status, _)) => (0, status),
            None => (0, prev_status),
        },
        Some((i, status)) => {
            if status == SUSPENDED {
                return ExecStep::Suspended {
                    cmd: format_segments(&cmdline.segments),
                    continuation: continuation_after(&cmdline.segments, i),
                };
            }
            (i + 1, status)
        },
    };
    let k = next_segment(&cmdline.segments, connector, from, status);
    if k < cmdline.segments.len() {
        ExecStep::Run(k)
    } else {
        ExecStep::Done(status)
    }
}

/// Each step of running a line takes the chain one pipeline further.
pub proof fn law_steps_run_the_chain(
    line: LineView,
    entry: Option<(i32, Connector)>,
    i: int,
    status: i32,
    ends: spec_fn(int) -> i32,
)
    requires
        0 <= i < line.len(),
        status != SUSPENDED,
    ensures
        ({
            let whole = chain_end(line, entry_connector(entry), i + 1, status, ends);
            match exec_next(line, entry, Some((i, status)), status) {
                ExecView::Done(last) => whole == (last, None::<int>),
                ExecView::Run(k) => if ends(k) == SUSPENDED {
                    whole == (SUSPENDED, Some(k))
                } else {
                    whole == chain_end(line, entry_connector(entry), k + 1, ends(k), ends)
                },
                ExecView::Suspended { .. } => false,
            }
        }),
{
    lemma_next_index(line, entry_connector(entry), i + 1, status);
}

proof fn lemma_next_index_shift(
    line: LineView,
    entry: Option<Connector>,
    at: int,
    i: int,
    status: i32,
)
    requires
        0 <= at < line.len(),
        0 <= i <= line.len() - at - 1,
    ensures
        next_index(line, entry, at + 1 + i, status) == at + 1 + next_index(
            line.skip(at + 1),
            line[at].1,
            i,
            status,
        ),
    decreases line.len() - at - 1 - i,
{
    let rest = line.skip(at + 1);
    if i < rest.len() {
        if i > 0 {
            assert(rest[i - 1] == line[at + i]);
        }
        assert(connector_before(rest, line[at].1, i) == connector_before(line, entry, at + 1 + i));
        if !runs(connector_before(rest, line[at].1, i), status) {
            lemma_next_index_shift(line, entry, at, i + 1, status);
        }
    }
}

proof fn lemma_chain_shift(
    line: LineView,
    entry: Option<Connector>,
    at: int,
    i: int,
    status: i32,
    ends: spec_fn(int) -> i32,
)
    requires
        0 <= at < line.len(),
        0 <= i <= line.len() - at - 1,
    ensures
        ({
            let whole = chain_end(line, entry, at + 1 + i, status, ends);
            let rest = chain_end(
                line.skip(at + 1),
                line[at].1,
                i,
                status,
                |j: int| ends(at + 1 + j),
            );
            &&& whole.0 == rest.0
            &&& whole.1 == (match rest.1 {
                Some(k) => Some(at + 1 + k),
                None => None,
            })
        }),
    decreases line.len() - at - 1 - i,
{
    let rest = line.skip(at + 1);
    let after = |j: int| ends(at + 1 + j);
    lemma_next_index_shift(line, entry, at, i, status);
    lemma_next_index(rest, line[at].1, i, status);
    let k = next_index(rest, line[at].1, i, status);
    if k < rest.len() && after(k) != SUSPENDED {
        lemma_chain_shift(line, entry, at, k + 1, after(k), ends);
    }
}

/// Resuming a chain continues it: where pipeline `at` was suspended and ends with `status` after
/// it was resumed, running what is left of the chain gives what the whole chain would have given
/// from there, had the pipeline ended with that status at once.
pub proof fn law_resumed_chain_continues(
    line: LineView,
    entry: Option<Connector>,
    at: int,
    status: i32,
    ends: spec_fn(int) -> i32,
)
    requires
        0 <= at < line.len(),
        left_after(line, at) is Some,
    ensures
        ({
            let left = left_after(line, at)->0;
            let whole = chain_end(line, entry, at + 1, status, ends);
            let rest = chain_end(
                left.segments,
                Some(left.connector),
                0,
                status,
                |j: int| ends(at + 1 + j),
            );
            &&& whole.0 == rest.0
            &&& whole.1 == (match rest.1 {
                Some(k) => Some(at + 1 + k),
                None => None,
            })
        }),
{
    lemma_chain_shift(line, entry, at, 0, status, ends);
}

/// Behind `&&` nothing runs after a failure, and behind `||` nothing after a success.
pub proof fn law_connectors_decide(line: LineView, entry: Option<Connector>, i: int, status: i32)
    requires
        0 <= i < line.len(),
    ensures
        connector_before(line, entry, i) == Some(Connector::And) && status != 0 ==> next_index(
            line,
            entry,
            i,
            status,
        ) != i,
        connector_before(line, entry, i) == Some(Connector::Or) && status == 0 ==> next_index(
            line,
            entry,
            i,
            status,
        ) != i,
        connector_before(line, entry, i) == Some(Connector::Semi) ==> next_index(
            line,
            entry,
            i,
            status,
        ) == i,
{
    lemma_next_index(line, entry, i + 1, status);
}

// -- Processes --

/// How a process ended, or that it was stopped.
#[derive(Debug, Clone, Copy, PartialEq, Eq, Structural)]
pub enum WaitStatus {
    Exited(u8),
    Signaled(u8),
    Stopped,
    Unknown,
}

/// The status of a process that ended.
pub open spec fn exit_status_of(w: WaitStatus) -> i32 {
    match w {
        WaitStatus::Exited(code) => code as i32,
        WaitStatus::Signaled(signal) => (128 + signal) as i32,
        _ => 1,
    }
}

/// The status of a process that ended: its own, or one above 128 for the signal that ended it.
pub fn exit_status(w: WaitStatus) -> (r: i32)
    ensures
        r == exit_status_of(w),
{
    match w {
        WaitStatus::Exited(code) => code as i32,
        WaitStatus::Signaled(signal) => 128 + signal as i32,
        _ => 1,
    }
}

/// The status of a pipeline: that of its last process, unless one was stopped.
pub open spec fn pipeline_end(all: Seq<WaitStatus>) -> i32 {
    if all.contains(WaitStatus::Stopped) {
        SUSPENDED
    } else if all.len() == 0 {
        0
    } else {
        exit_status_of(all.last())
    }
}

/// The status of a pipeline from the ends of its processes.
pub fn pipeline_status(all: &Vec<WaitStatus>) -> (r: i32)
    ensures
        r == pipeline_end(all@),
{
    let mut i: usize = 0;
    while i < all.len()
        invariant
            i <= all.len(),
            forall|k: int| 0 <= k < i ==> all@[k] != WaitStatus::Stopped,
        decreases all.len() - i,
    {
        if all[i] == WaitStatus::Stopped {
            assert(all@.contains(WaitStatus::Stopped));
            return SUSPENDED;
        }
        i += 1;
    }
    if all.len() == 0 {
        0
    } else {
        exit_status(all[all.len() - 1])
    }
}

/// How the standard streams of one process of a pipeline are wired.
#[derive(Debug, Clone, Copy, PartialEq, Eq, Structural)]
pub struct Wiring {
    /// The process leads the pipeline's process group.
    pub leads: bool,
    /// Its input comes from the process before it.
    pub input: bool,
    /// Its output goes to the process behind it.
    pub output: bool,
    /// Its errors go there too.
    pub errors: bool,
}

/// The wiring of process `i` of `n`.
pub open spec fn wiring_of(i: int, n: int, pipe_stderr: bool) -> Wiring {
    Wiring { leads: i == 0, input: i > 0, output: i + 1 < n, errors: i + 1 < n && pipe_stderr }
}

/// The wiring of process `i` of `n`.
pub fn wiring(i: usize, n: usize, pipe_stderr: bool) -> (r: Wiring)
    requires
        i < n,
    ensures
        r == wiring_of(i as int, n as int, pipe_stderr),
        r == (Wiring {
            leads: i == 0,
            input: i > 0,
            output: i + 1 < n,
            errors: i + 1 < n && pipe_stderr,
        }),
{
    let last = i == n - 1;
    Wiring { leads: i == 0, input: i > 0, output: !last, errors: !last && pipe_stderr }
}

/// How the target of a redirection is opened.
#[derive(Debug, Clone, Copy, PartialEq, Eq, Structural)]
pub enum OpenMode {
    Read,
    Truncate,
    Append,
}

/// How a redirection's target is opened, and which streams go to it.
#[derive(Debug, Clone, Copy, PartialEq, Eq, Structural)]
pub struct RedirectPlan {
    pub mode: OpenMode,
    pub stdin: bool,
    pub stdout: bool,
    pub stderr: bool,
}

pub open spec fn redirect_plan(kind: RedirectKind) -> RedirectPlan {
    RedirectPlan {
        mode: match kind {
            RedirectKind::In => OpenMode::Read,
            RedirectKind::Append => OpenMode::Append,
            _ => OpenMode::Truncate,
        },
        stdin: kind == RedirectKind::In,
        stdout: kind == RedirectKind::Out || kind == RedirectKind::Append || kind
            == RedirectKind::All,
        stderr: kind == RedirectKind::Stderr || kind == RedirectKind::All,
    }
}

/// What a redirection does to a process.
pub fn plan_redirect(kind: RedirectKind) -> (r: RedirectPlan)
    ensures
        r == redirect_plan(kind),
{
    match kind {
        RedirectKind::Out => RedirectPlan {
            mode: OpenMode::Truncate,
            stdin: false,
            stdout: true,
            stderr: false,
        },
        RedirectKind::Append => RedirectPlan {
            mode: OpenMode::Append,
            stdin: false,
            stdout: true,
            stderr: false,
        },
        RedirectKind::In => RedirectPlan {
            mode: OpenMode::Read,
            stdin: true,
            stdout: false,
            stderr: false,
        },
        RedirectKind::Stderr => RedirectPlan {
            mode: OpenMode::Truncate,
            stdin: false,
            stdout: false,
            stderr: true,
        },
        RedirectKind::All => RedirectPlan {
            mode: OpenMode::Truncate,
            stdin: false,
            stdout: true,
            stderr: true,
        },
    }
}

/// What a process of a pipeline becomes.
pub enum ChildStep {
    /// A builtin, whose status the process ends with.
    Builtin,
    /// A program.
    Exec,
    /// Nothing: the process says why and ends.
    Fail { status: i32, message: String },
}

pub enum ChildView {
    Builtin,
    Exec,
    Fail { status: i32, message: Seq<char> },
}

impl View for ChildStep {
    type V = ChildView;

    open spec fn view(&self) -> ChildView {
        match self {
            ChildStep::Builtin => ChildView::Builtin,
            ChildStep::Exec => ChildView::Exec,
            ChildStep::Fail { status, message } => ChildView::Fail {
                status: *status,
                message: message@,
            },
        }
    }
}

pub open spec fn child_view(argv: Seq<Seq<char>>) -> ChildView {
    if is_builtin_name(argv[0]) {
        ChildView::Builtin
    } else if argv[0].contains('\0') {
        ChildView::Fail { status: 127, message: "ish: invalid command name\n"@ }
    } else if exists|i: int| 0 <= i < argv.len() && (#[trigger] argv[i]).contains('\0') {
        ChildView::Fail { status: 126, message: "ish: argument contains NUL byte\n"@ }
    } else {
        ChildView::Exec
    }
}

/// What a process of a pipeline becomes. The words of a program end at a NUL, so none may hold
/// one.
pub fn child_step(argv: &Vec<String>) -> (r: ChildStep)
    requires
        argv.len() > 0,
    ensures
        r@ == child_view(strs(argv@)),
{
    let ghost all = strs(argv@);
    assert(all.len() == argv@.len());
    assert(all[0] == argv@[0]@);
    if is_builtin(argv[0].as_str()) {
        return ChildStep::Builtin;
    }
    let name = chars_of(argv[0].as_str());
    if has_char(&name, '\0') {
        return ChildStep::Fail {
            status: 127,
            message: String::from_str("ish: invalid command name\n"),
        };
    }
    let mut i: usize = 0;
    while i < argv.len()
        invariant
            i <= argv.len(),
            all == strs(argv@),
            all.len() == argv@.len(),
            argv.len() > 0,
            !is_builtin_name(all[0]),
            !all[0].contains('\0'),
            forall|k: int| 0 <= k < i ==> !(#[trigger] all[k]).contains('\0'),
        decreases argv.len() - i,
    {
        assert(all[i as int] == argv@[i as int]@);
        let word = chars_of(argv[i].as_str());
        if has_char(&word, '\0') {
            return ChildStep::Fail {
                status: 126,
                message: String::from_str("ish: argument contains NUL byte\n"),
            };
        }
        i += 1;
    }
    ChildStep::Exec
}

/// What is said, and the status, where a program could not be run.
pub open spec fn exec_told(name: Seq<char>, not_found: bool, error: Seq<char>) -> (i32, Seq<char>) {
    (
        if not_found {
            127i32
        } else {
            126i32
        },
        "ish: "@ + name + ": "@ + error + "\n"@,
    )
}

/// What is said, and the status, where a program could not be run.
pub fn exec_failure(name: &str, not_found: bool, error: &str) -> (r: (i32, String))
    ensures
        (r.0, r.1@) == exec_told(name@, not_found, error@),
        r.0 == (if not_found {
            127i32
        } else {
            126i32
        }),
        r.1@ == "ish: "@ + name@ + ": "@ + error@ + "\n"@,
{
    let mut out = chars_of("ish: ");
    push_str(&mut out, name);
    push_str(&mut out, ": ");
    push_str(&mut out, error);
    push_str(&mut out, "\n");
    (
        if not_found {
            127
        } else {
            126
        },
        string_of(out.as_slice()),
    )
}

} // verus!
