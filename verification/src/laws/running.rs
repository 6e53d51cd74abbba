//! How command lines are run.
use vstd::prelude::*;

use crate::alias::{alias_of, AliasView};
use crate::builtin::{is_builtin_name, last_failure, list_steps, located};
use crate::exec::{
    assignment, assignment_pos, child_view, command_index, connector_before, exec_next, is_var_name,
    left_after, next_index, pipeline_end, prefix_env, prefix_len, prepared, redirect_plan, run_plan,
    spliced, wiring_of, ExecView, ExpandedView, OpenMode, RunPlan, WaitStatus,
};
use crate::expand::spec_is_name_char;
use crate::job::{resume_end, resume_start, Job, JobView};
use crate::parse::{Connector, LineView, RedirectKind};
use crate::path::{first_command, has_room, search_paths};
use crate::text::{index_from, lemma_index_from};

verus! {

/// A pipeline runs behind `&&` where the one before it succeeded, behind `||` where it failed,
/// and else always; those that do not run are passed over with the status as it is. So what runs
/// next is the first pipeline that may.
pub proof fn law_next_is_first_that_runs(line: LineView, i: int, status: i32)
    requires
        1 <= i <= line.len(),
    ensures
        ({
            let k = next_index(line, None, i, status);
            &&& i <= k <= line.len()
            &&& forall|j: int|
                i <= j < k ==> (#[trigger] line[j - 1]).1 == Some(Connector::And) && status != 0
                    || line[j - 1].1 == Some(Connector::Or) && status == 0
            &&& k < line.len() ==> {
                ||| line[k - 1].1 == Some(Connector::And) && status == 0
                ||| line[k - 1].1 == Some(Connector::Or) && status != 0
                ||| line[k - 1].1 == Some(Connector::Semi)
                ||| line[k - 1].1 is None
            }
        }),
    decreases line.len() - i,
{
    if i < line.len() && !crate::exec::runs(connector_before(line, None, i), status) {
        law_next_is_first_that_runs(line, i + 1, status);
        let k = next_index(line, None, i, status);
        assert forall|j: int| i <= j < k implies (#[trigger] line[j - 1]).1 == Some(Connector::And)
            && status != 0 || line[j - 1].1 == Some(Connector::Or) && status == 0 by {
            if j == i {
                assert(connector_before(line, None, i) == line[i - 1].1);
            }
        }
    }
}

/// Running a line starts with its first pipeline, and ends with the status of the last that ran;
/// a pipeline that is suspended, which is status 148, stops it there.
pub proof fn law_line_runs(line: LineView, i: int, status: i32, before: i32)
    requires
        line.len() > 0,
        0 <= i < line.len(),
    ensures
        exec_next(line, None, None, before) == ExecView::Run(0),
        i == line.len() - 1 && status != 148 ==> exec_next(line, None, Some((i, status)), before)
            == ExecView::Done(status),
        status == 148 ==> exec_next(line, None, Some((i, status)), before) is Suspended,
        status != 148 && i + 1 < line.len() && line[i].1 == Some(Connector::Semi) ==> exec_next(
            line,
            None,
            Some((i, status)),
            before,
        ) == ExecView::Run(i + 1),
        status == 0 && i + 1 < line.len() && line[i].1 == Some(Connector::And) ==> exec_next(
            line,
            None,
            Some((i, status)),
            before,
        ) == ExecView::Run(i + 1),
        status != 0 && status != 148 && i + 1 < line.len() && line[i].1 == Some(Connector::Or)
            ==> exec_next(line, None, Some((i, status)), before) == ExecView::Run(i + 1),
        status != 0 && status != 148 && i + 2 == line.len() && line[i].1 == Some(Connector::And)
            ==> exec_next(line, None, Some((i, status)), before) == ExecView::Done(status),
        status == 0 && i + 2 == line.len() && line[i].1 == Some(Connector::Or) ==> exec_next(
            line,
            None,
            Some((i, status)),
            before,
        ) == ExecView::Done(0),
{
    reveal_with_fuel(next_index, 3);
}

/// What is left of a line behind a suspended pipeline are the pipelines behind it, with the
/// connector between; nothing is left behind the last.
pub proof fn law_left_after(line: LineView, i: int, c: Connector)
    requires
        0 <= i < line.len(),
    ensures
        i + 1 < line.len() && line[i].1 == Some(c) ==> left_after(line, i) is Some && left_after(
            line,
            i,
        )->0.connector == c && left_after(line, i)->0.segments == line.skip(i + 1),
        i + 1 == line.len() ==> left_after(line, i) is None,
{
}

/// A pipeline ends with the status of its last process: its own, or 128 and the signal that
/// ended it. Where one of its processes is stopped, it is suspended.
pub proof fn law_pipeline_status(all: Seq<WaitStatus>, last: WaitStatus, code: u8)
    ensures
        !all.contains(WaitStatus::Stopped) && last == WaitStatus::Exited(code) ==> pipeline_end(
            all.push(last),
        ) == code,
        !all.contains(WaitStatus::Stopped) && last == WaitStatus::Signaled(code) ==> pipeline_end(
            all.push(last),
        ) == 128 + code,
        all.contains(WaitStatus::Stopped) || last == WaitStatus::Stopped ==> pipeline_end(
            all.push(last),
        ) == 148,
{
    let v = all.push(last);
    if v.contains(WaitStatus::Stopped) {
        let i = choose|i: int| 0 <= i < v.len() && v[i] == WaitStatus::Stopped;
        if i < all.len() {
            assert(all[i] == WaitStatus::Stopped);
        }
    }
    if all.contains(WaitStatus::Stopped) {
        let i = choose|i: int| 0 <= i < all.len() && all[i] == WaitStatus::Stopped;
        assert(v[i] == WaitStatus::Stopped);
    }
    if last == WaitStatus::Stopped {
        assert(v[all.len() as int] == WaitStatus::Stopped);
    }
}

/// The processes of a pipeline form a chain: each takes its input from the one before it, which
/// sends its output there, and its errors only where it was asked to. The first has its own input
/// and leads the group, and the last has its own output.
pub proof fn law_processes_form_chain(i: int, n: int, a: bool, b: bool)
    requires
        0 <= i < n,
    ensures
        i + 1 < n ==> wiring_of(i, n, a).output && wiring_of(i + 1, n, b).input && wiring_of(
            i,
            n,
            a,
        ).errors == a,
        !wiring_of(0, n, a).input,
        !wiring_of(n - 1, n, a).output,
        !wiring_of(n - 1, n, a).errors,
        wiring_of(i, n, a).leads == (i == 0),
{
}

/// `>` and `>>` take the output, `2>` the errors and `&>` both; `<` gives the input. Only `>>`
/// keeps what a file holds, and only `<` reads it.
pub proof fn law_redirections(k: RedirectKind)
    ensures
        redirect_plan(k).stdin <==> k == RedirectKind::In,
        redirect_plan(k).stdout <==> (k == RedirectKind::Out || k == RedirectKind::Append || k
            == RedirectKind::All),
        redirect_plan(k).stderr <==> (k == RedirectKind::Stderr || k == RedirectKind::All),
        redirect_plan(k).mode == OpenMode::Append <==> k == RedirectKind::Append,
        redirect_plan(k).mode == OpenMode::Read <==> k == RedirectKind::In,
{
}

/// A word of the form `NAME=value`.
pub open spec fn is_assignment(word: Seq<char>, name: Seq<char>, value: Seq<char>) -> bool {
    &&& word == name + seq!['='] + value
    &&& name.len() > 0
    &&& !('0' <= name[0] <= '9')
    &&& forall|i: int|
        0 <= i < name.len() ==> ('0' <= (#[trigger] name[i]) <= '9' || 'a' <= name[i] <= 'z' || 'A'
            <= name[i] <= 'Z' || name[i] == '_')
}

proof fn lemma_assignment(word: Seq<char>, name: Seq<char>, value: Seq<char>)
    requires
        is_assignment(word, name, value),
    ensures
        assignment_pos(word) == Some(name.len() as int),
        assignment(word) == (name, value),
{
    let n = name.len() as int;
    lemma_index_from(word, '=', 0);
    let k = index_from(word, '=', 0);
    assert(word[n] == '=');
    if k < n {
        assert(word[k] == name[k]);
        assert('0' <= name[k] <= '9' || 'a' <= name[k] <= 'z' || 'A' <= name[k] <= 'Z' || name[k]
            == '_');
    }
    assert(k == n);
    assert(word.take(n) =~= name);
    assert(word.skip(n + 1) =~= value);
    assert(is_var_name(name)) by {
        assert forall|i: int| 0 <= i < name.len() implies spec_is_name_char(
            #[trigger] name[i],
        ) by {
            assert('0' <= name[i] <= '9' || 'a' <= name[i] <= 'z' || 'A' <= name[i] <= 'Z'
                || name[i] == '_');
        }
    }
}

proof fn lemma_prefix_len(words: Seq<Seq<char>>, i: int, n: int)
    requires
        0 <= i <= n <= words.len(),
        forall|k: int| i <= k < n ==> assignment_pos(#[trigger] words[k]) is Some,
        n < words.len() ==> assignment_pos(words[n]) is None,
    ensures
        prefix_len(words, i) == n,
    decreases n - i,
{
    if i < n {
        assert(assignment_pos(words[i]) is Some);
        lemma_prefix_len(words, i + 1, n);
    }
}

/// Words `NAME=value` at the front of a command set variables for it, and are none of its words;
/// the first word of another form is the command, and what follows are its arguments.
pub proof fn law_assignments_before_command(
    names: Seq<Seq<char>>,
    values: Seq<Seq<char>>,
    words: Seq<Seq<char>>,
    redirects: Seq<(RedirectKind, Seq<char>)>,
    pipe_stderr: bool,
)
    requires
        names.len() == values.len() <= words.len(),
        forall|i: int|
            0 <= i < names.len() ==> is_assignment(#[trigger] words[i], names[i], values[i]),
        names.len() < words.len() ==> !words[names.len() as int].contains('='),
    ensures
        names.len() < words.len() ==> ({
            let r = prepared(words, redirects, pipe_stderr);
            &&& r is Some
            &&& r->0.argv == words.skip(names.len() as int)
            &&& r->0.env.len() == names.len()
            &&& forall|i: int|
                0 <= i < names.len() ==> #[trigger] r->0.env[i] == (names[i], values[i])
            &&& r->0.redirects == redirects
            &&& r->0.pipe_stderr == pipe_stderr
        }),
        names.len() == words.len() ==> prepared(words, redirects, pipe_stderr) is None,
{
    let n = names.len() as int;
    assert forall|k: int| 0 <= k < n implies assignment_pos(#[trigger] words[k]) is Some by {
        lemma_assignment(words[k], names[k], values[k]);
    }
    if n < words.len() {
        lemma_index_from(words[n], '=', 0);
        let k = index_from(words[n], '=', 0);
        if k < words[n].len() {
            assert(words[n].contains(words[n][k]));
        }
    }
    lemma_prefix_len(words, 0, n);
    let env = prefix_env(words);
    assert forall|i: int| 0 <= i < n implies #[trigger] env[i] == (names[i], values[i]) by {
        lemma_assignment(words[i], names[i], values[i]);
    }
}

/// The name of an alias as a command is replaced by the alias's words; its arguments follow them.
/// A command that is no alias stays.
pub proof fn law_alias_replaces_command(
    argv: Seq<Seq<char>>,
    aliases: Seq<AliasView>,
    words: Seq<Seq<char>>,
)
    requires
        argv.len() > 0,
        !crate::parse::unmarked(argv[0]).contains('='),
    ensures
        alias_of(aliases, crate::parse::unmarked(argv[0])) == Some(words) ==> spliced(argv, aliases)
            == words + argv.skip(1),
        alias_of(aliases, crate::parse::unmarked(argv[0])) is None ==> spliced(argv, aliases)
            == argv,
{
    let w = crate::parse::unmarked(argv[0]);
    lemma_index_from(w, '=', 0);
    let k = index_from(w, '=', 0);
    if k < w.len() {
        assert(w.contains(w[k]));
    }
    assert(command_index(argv, 0) == 0);
    assert(argv.take(0) + words + argv.skip(1) =~= words + argv.skip(1));
}

/// A builtin that stands alone runs in the shell itself, so that it can change the shell; in a
/// pipeline, and any program, runs in a process.
pub proof fn law_builtin_alone_runs_in_shell(commands: Seq<ExpandedView>)
    requires
        commands.len() > 0,
    ensures
        run_plan(commands) == RunPlan::InProcess <==> commands.len() == 1 && is_builtin_name(
            commands[0].argv[0],
        ),
        commands.len() > 1 ==> run_plan(commands) == RunPlan::Fork,
        run_plan(Seq::empty()) == RunPlan::Nothing,
{
}

/// A process whose words hold a NUL ends with status 127 where it is the command's name, and with
/// 126 where it is an argument.
pub proof fn law_nul_is_refused(argv: Seq<Seq<char>>, i: int)
    requires
        0 <= i < argv.len(),
        argv[i].contains('\0'),
        !is_builtin_name(argv[0]),
    ensures
        child_view(argv) is Fail,
        i == 0 ==> child_view(argv)->Fail_status == 127,
        i > 0 && !argv[0].contains('\0') ==> child_view(argv)->Fail_status == 126,
{
}

/// A builtin is one of these commands of the shell's own.
pub proof fn law_builtins(name: Seq<char>)
    requires
        name == "cd"@ || name == "exit"@ || name == "fg"@ || name == "set"@ || name == "unset"@
            || name == "alias"@ || name == "l"@ || name == "c"@ || name == "w"@ || name == "which"@
            || name == "type"@ || name == "echo"@ || name == "pwd"@ || name == "true"@ || name
            == "false"@ || name == "copy-scrollback"@ || name == "z"@ || name == "history"@ || name
            == "denv"@,
    ensures
        is_builtin_name(name),
{
    let e = crate::builtin::extension_names();
    let s = crate::builtin::shell_names();
    assert(e[0] == "fg"@ && e[1] == "z"@ && e[2] == "l"@ && e[3] == "c"@ && e[4] == "w"@ && e[5]
        == "which"@ && e[6] == "type"@ && e[7] == "copy-scrollback"@ && e[8] == "history"@ && e[9]
        == "alias"@ && e[10] == "denv"@);
    assert(s[1] == "true"@ && s[2] == "false"@ && s[3] == "echo"@ && s[5] == "cd"@ && s[6]
        == "pwd"@ && s[7] == "exit"@ && s[13] == "unset"@ && s[14] == "set"@);
}

/// What a command is, is told of aliases first, then of builtins, then of functions, then of the
/// files of `$PATH`; a command that is none of these is not found.
pub proof fn law_command_is_located(
    args: Seq<Seq<char>>,
    aliases: Seq<AliasView>,
    is_function: bool,
    path: Option<Seq<char>>,
    w: Seq<char>,
)
    requires
        args.len() > 0,
    ensures
        ({
            let r = located(args, aliases, is_function, path);
            let alias = alias_of(aliases, args[0]);
            let builtin = is_builtin_name(args[0]);
            &&& alias == Some(seq![w]) ==> r.status == 0 && r.err.len() == 0 && r.out == "alias: "@
                + args[0] + seq![' '] + w + seq!['\n']
            &&& alias is None && builtin ==> r.status == 0 && r.err.len() == 0 && r.out
                == "builtin\n"@
            &&& alias is None && !builtin && is_function ==> r.status == 0 && r.err.len() == 0
                && r.out == "function\n"@
            &&& alias is None && !builtin && !is_function && path == Some(w) ==> r.status == 0
                && r.err.len() == 0 && r.out == w + seq!['\n']
            &&& alias is None && !builtin && !is_function && path is None ==> r.status == 1
                && r.out.len() == 0 && r.err.len() > 0
        }),
        located(Seq::empty(), aliases, is_function, path).status == 1,
{
    reveal_strlit(" ");
    reveal_strlit("\n");
    reveal_strlit("ish: w: not found: ");
    assert(" "@ =~= seq![' ']);
    assert("\n"@ =~= seq!['\n']);
    assert(crate::text::joined(seq![w], " "@) == w);
}

/// A command is found at the first place of `$PATH` where a regular file may be run.
pub proof fn law_first_on_path(paths: Seq<Seq<char>>, modes: Seq<Option<u32>>, i: int)
    requires
        0 <= i < paths.len(),
        modes.len() == paths.len(),
        modes[i] is Some,
        modes[i]->0 & 0o170000 == 0o100000,
        modes[i]->0 & 0o111 != 0,
        forall|j: int|
            0 <= j < i ==> (#[trigger] modes[j]) is None || modes[j]->0 & 0o170000 != 0o100000
                || modes[j]->0 & 0o111 == 0,
    ensures
        first_command(paths, modes, 0) == Some(paths[i]),
{
    lemma_first_command(paths, modes, i, 0);
}

proof fn lemma_first_command(paths: Seq<Seq<char>>, modes: Seq<Option<u32>>, i: int, k: int)
    requires
        0 <= k <= i < paths.len(),
        modes.len() == paths.len(),
        modes[i] is Some,
        modes[i]->0 & 0o170000 == 0o100000,
        modes[i]->0 & 0o111 != 0,
        forall|j: int|
            0 <= j < i ==> (#[trigger] modes[j]) is None || modes[j]->0 & 0o170000 != 0o100000
                || modes[j]->0 & 0o111 == 0,
    ensures
        first_command(paths, modes, k) == Some(paths[i]),
    decreases i - k,
{
    if k < i {
        assert(modes[k] is None || modes[k]->0 & 0o170000 != 0o100000 || modes[k]->0 & 0o111 == 0);
        lemma_first_command(paths, modes, i, k + 1);
    }
}

/// A command that stands at no place of `$PATH` is not found.
pub proof fn law_not_on_path(paths: Seq<Seq<char>>, modes: Seq<Option<u32>>, k: int)
    requires
        0 <= k <= paths.len(),
        modes.len() == paths.len(),
        forall|j: int|
            k <= j < modes.len() ==> (#[trigger] modes[j]) is None || modes[j]->0 & 0o170000
                != 0o100000 || modes[j]->0 & 0o111 == 0,
    ensures
        first_command(paths, modes, k) is None,
    decreases paths.len() - k,
{
    if k < paths.len() {
        assert(modes[k] is None || modes[k]->0 & 0o170000 != 0o100000 || modes[k]->0 & 0o111 == 0);
        law_not_on_path(paths, modes, k + 1);
    }
}

/// The places at which a command may stand are those in the directories of `$PATH`, in their
/// order; an empty part names none.
pub proof fn law_search_paths(parts: Seq<Seq<char>>, cmd: Seq<char>, dir: Seq<char>)
    ensures
        dir.len() > 0 && has_room(dir, cmd) ==> search_paths(
            parts.push(dir),
            cmd,
            parts.len() as int + 1,
        ) == search_paths(parts, cmd, parts.len() as int).push(dir + seq!['/'] + cmd),
        dir.len() == 0 ==> search_paths(parts.push(dir), cmd, parts.len() as int + 1)
            == search_paths(parts, cmd, parts.len() as int),
        search_paths(parts, cmd, 0).len() == 0,
{
    reveal_strlit("/");
    assert("/"@ =~= seq!['/']);
    lemma_search_same(parts, parts.push(dir), cmd, parts.len() as int);
}

proof fn lemma_search_same(a: Seq<Seq<char>>, b: Seq<Seq<char>>, cmd: Seq<char>, n: int)
    requires
        0 <= n <= a.len(),
        n <= b.len(),
        forall|i: int| 0 <= i < n ==> a[i] == b[i],
    ensures
        search_paths(a, cmd, n) == search_paths(b, cmd, n),
    decreases n,
{
    if n > 0 {
        lemma_search_same(a, b, cmd, n - 1);
    }
}

/// A suspended job is woken with what it was, and without one nothing is.
pub proof fn law_resuming(job: JobView)
    ensures
        job.pgid != 0 ==> resume_start(Some(job)) is Wake && resume_start(Some(job))->job == job,
        resume_start(None) is Refused && resume_start(None)->status == 1,
{
}

/// A resumed job that ends gives its status and what was left of its line; one that is stopped
/// again is kept.
pub proof fn law_resumed_job_ends(job: Job, code: u8)
    ensures
        resume_end(None, job, WaitStatus::Exited(code)) == (code as i32, job.continuation, None::<Job>),
        resume_end(None, job, WaitStatus::Signaled(code)).0 == 128 + code,
        resume_end(None, job, WaitStatus::Stopped).0 == 148,
        resume_end(None, job, WaitStatus::Stopped).1 is None,
        resume_end(None, job, WaitStatus::Stopped).2 == Some(job),
{
}

/// `l` lists the directories that it is given, in order, or the current one.
pub proof fn law_listed_directories(args: Seq<Seq<char>>, i: int)
    requires
        0 <= i < args.len(),
    ensures
        list_steps(args).len() == args.len(),
        list_steps(args)[i].path == args[i],
        args.len() == 1 ==> list_steps(args)[0].heading.len() == 0,
        args.len() > 1 && i == 0 ==> list_steps(args)[0].heading == args[0] + seq![':', '\n'],
        args.len() > 1 && i > 0 ==> list_steps(args)[i].heading == seq!['\n'] + args[i] + seq![
            ':',
            '\n',
        ],
        list_steps(Seq::empty()).len() == 1,
        list_steps(Seq::empty())[0].path == seq!['.'],
{
    reveal_strlit(".");
    reveal_strlit(":\n");
    reveal_strlit("\n");
    assert("."@ =~= seq!['.']);
    assert(":\n"@ =~= seq![':', '\n']);
    assert("\n"@ =~= seq!['\n']);
}

/// Several listings fail where one of them does, with the status of the last that did.
pub proof fn law_listing_status(s: Seq<i32>, last: i32)
    ensures
        last != 0 ==> last_failure(s.push(last)) == last,
        last == 0 ==> last_failure(s.push(last)) == last_failure(s),
        last_failure(Seq::empty()) == 0,
{
    assert(s.push(last).drop_last() =~= s);
}

} // verus!
