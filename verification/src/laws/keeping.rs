//! What is kept of a session and read back, and what is told where something fails.
use vstd::prelude::*;
use vstd::seq_lib::*;

use crate::alias::{alias_of, law_set_get, AliasView};
use crate::candidates::{listed, DirItem};
use crate::commands::{alias_command_says, aliases_shown};
use crate::complete::{kept, EntryView};
use crate::completing::{alias_names, command_candidates, name_entries};
use crate::config::{aliases_after, line_directive, requests, DirectiveView};
use crate::error::ErrorView;
use crate::exec::{
    cleaned, command_text, commands_text, exec_told, pipeline_text, segments_text, ExpandedView,
    WaitStatus,
};
use crate::external::{
    answered, child_status, foreground_status, spawn_told, stopped_text, ExternalView, SpawnError,
};
use crate::fuzzy::{rank_order, MatchView};
use crate::history::{first_matches, History, HistoryView};
use crate::history_store::{compacted, load_report, saved, CacheFileView};
use crate::laws::recalling::law_matches_are_ranked;
use crate::laws::texts::{is_blank, is_trim, law_trimmed};
use crate::lex::{leading_texts, tokens};
use crate::parse::{Connector, PipelineView};
use crate::session::{paste_refused, pasted, EditorView, StepView};
use crate::sort::{law_sort_permutes, stable_sorted};
use crate::text::{joined, lines, starts_with};
use crate::utf8_bytes::text_of;

verus! {

// -- Pasting --

/// What is pasted at the prompt stands behind what was before the cursor; nothing else of the line
/// changes, and nothing is run.
pub proof fn law_paste_goes_into_line(e: EditorView, text: Seq<char>)
    ensures
        e.mode is Normal ==> ({
            let r = pasted(e, text);
            &&& r.1 is Show
            &&& r.0.mode is Normal
            &&& r.0.prompt.line.before == e.prompt.line.before + text
            &&& r.0.prompt.line.after == e.prompt.line.after
            &&& r.0.prompt.line.kill == e.prompt.line.kill
        }),
        !(e.mode is Normal) ==> pasted(e, text) == (e, StepView::Ignore),
{
}

/// A paste that is too large is not taken: a comment takes the place of the line, so that nothing
/// of it can be run.
pub proof fn law_large_paste_is_refused(e: EditorView)
    ensures
        e.mode is Normal ==> ({
            let r = paste_refused(e);
            &&& r.1 is Show
            &&& r.0.mode is Normal
            &&& r.0.prompt.line.before.len() > 0
            &&& r.0.prompt.line.before[0] == '#'
            &&& r.0.prompt.line.after.len() == 0
        }),
        !(e.mode is Normal) ==> paste_refused(e) == (e, StepView::Ignore),
{
    reveal_strlit("# paste rejected: larger than 1 KiB");
}

// -- Failures --

/// What is told of an error names what it is about.
pub proof fn law_messages(s: Seq<char>)
    ensures
        ErrorView::Msg(s).message() == s,
        ErrorView::GlobNoMatch(s).message() == "no matches for glob: "@ + s,
        ErrorView::CommandNotFound(s).message() == "command not found: "@ + s,
        ErrorView::BadSubstitution(s).message() == "bad substitution: "@ + s,
{
}

/// A program that is not found has the status 127, one that may not be run 126, and both are told
/// by name.
pub proof fn law_start_failures(name: Seq<char>, error: Seq<char>)
    ensures
        spawn_told(name, SpawnError::NotFound) == Some((127i32, name + ": "@ + "not found\n"@)),
        spawn_told(name, SpawnError::PermissionDenied) == Some(
            (126i32, name + ": "@ + "permission denied\n"@),
        ),
        spawn_told(name, SpawnError::Other) is None,
        exec_told(name, true, error).0 == 127,
        exec_told(name, false, error).0 == 126,
        exec_told(name, true, error).1 == "ish: "@ + name + ": "@ + error + "\n"@,
        exec_told(name, false, error).1 == exec_told(name, true, error).1,
{
}

/// The status of a program is its own where it ended, 128 and more where a signal ended it, and
/// none while it is stopped.
pub proof fn law_ends(code: i32, own: u8)
    ensures
        foreground_status(WaitStatus::Exited(own)) == Some(own as i32),
        foreground_status(WaitStatus::Signaled(own)) == Some((128 + own) as i32),
        foreground_status(WaitStatus::Stopped) is None,
        child_status(Some(code)) == code,
        child_status(None) == 128,
{
}

/// `l`, `c` and `history` are answered by the shell, and anything else is a program.
pub proof fn law_answered_by_shell(args: Seq<Seq<char>>)
    requires
        args.len() > 0,
    ensures
        args[0] == "l"@ ==> answered(args) == ExternalView::List(args.skip(1)),
        (answered(args) is List) == (args[0] == "l"@),
        (answered(args) is Clear) == (args[0] == "c"@),
        (answered(args) is History) == (args[0] == "history"@),
{
    reveal_strlit("l");
    reveal_strlit("c");
    reveal_strlit("history");
    assert("l"@[0] == 'l' && "c"@[0] == 'c' && "history"@[0] == 'h');
}

/// What is told of a stopped job is its command and its number.
pub proof fn law_stopped_is_told(cmd: Seq<char>, pgid: Seq<char>)
    ensures
        stopped_text(cmd, pgid) == "ish: stopped: "@ + cmd + " (pgid="@ + pgid + ")\n"@,
{
    assert("ish: stopped: "@ + cmd + (" (pgid="@ + pgid + ")\n"@) =~= "ish: stopped: "@ + cmd
        + " (pgid="@ + pgid + ")\n"@);
}

/// The text of a suspended pipeline is that of its commands with bars between them, and that of a
/// command its assignments and words with blanks between them.
pub proof fn law_pipeline_text(a: ExpandedView, b: ExpandedView, w: Seq<char>, x: Seq<char>)
    requires
        a.env.len() == 0,
        a.argv == seq![w, x],
    ensures
        command_text(a) == w + seq![' '] + x,
        pipeline_text(seq![a, b]) == command_text(a) + seq![' ', '|', ' '] + command_text(b),
        pipeline_text(seq![a]) == command_text(a),
{
    reveal_strlit(" ");
    reveal_strlit(" | ");
    assert(" "@ =~= seq![' ']);
    assert(" | "@ =~= seq![' ', '|', ' ']);
    reveal_with_fuel(joined, 3);
    let ws = crate::exec::assignment_texts(a.env) + a.argv;
    assert(ws =~= seq![w, x]);
    let v = seq![a, b];
    let ts = Seq::new(v.len(), |i: int| command_text(v[i]));
    assert(ts =~= seq![command_text(a), command_text(b)]);
    assert(ts.drop_last() =~= seq![command_text(a)]);
    assert(ws.drop_last() =~= seq![w]);
    let u = seq![a];
    let us = Seq::new(u.len(), |i: int| command_text(u[i]));
    assert(us =~= seq![command_text(a)]);
}

// -- The configuration --

/// An alias of the configuration holds from its line on, and leaves the others.
pub proof fn law_config_aliases(
    base: Seq<AliasView>,
    all: Seq<Seq<char>>,
    path: Seq<char>,
    n: int,
    other: Seq<char>,
)
    requires
        0 < n <= all.len(),
    ensures
        line_directive(all[n - 1], path, n as nat) matches DirectiveView::Alias { name, words }
            ==> alias_of(aliases_after(base, all, path, n), name) == Some(words) && (other != name
            ==> alias_of(aliases_after(base, all, path, n), other) == alias_of(
            aliases_after(base, all, path, n - 1),
            other,
        )),
        !(line_directive(all[n - 1], path, n as nat) is Alias) ==> aliases_after(base, all, path, n)
            == aliases_after(base, all, path, n - 1),
        aliases_after(base, all, path, 0) == base,
{
    let before = aliases_after(base, all, path, n - 1);
    match line_directive(all[n - 1], path, n as nat) {
        DirectiveView::Alias { name, words } => {
            law_set_get(before, name, words, other);
        },
        _ => {},
    }
}

/// Exports and warnings come in the order of their lines, and nothing else is asked for.
pub proof fn law_config_requests(all: Seq<Seq<char>>, path: Seq<char>, n: int)
    requires
        0 < n <= all.len(),
    ensures
        ({
            let d = line_directive(all[n - 1], path, n as nat);
            &&& d is Export || d is Warn ==> requests(all, path, n) == requests(
                all,
                path,
                n - 1,
            ).push(d)
            &&& d is Alias || d is Nothing ==> requests(all, path, n) == requests(all, path, n - 1)
        }),
        requests(all, path, 0).len() == 0,
{
}

/// A line `alias name words` defines the words for the name; without a name or without words it is
/// warned of.
pub proof fn law_alias_directive(
    a: Seq<char>,
    rest: Seq<char>,
    b: Seq<char>,
    path: Seq<char>,
    lineno: nat,
)
    requires
        is_blank(a),
        is_trim(rest),
        is_blank(b),
    ensures
        ({
            let d = line_directive(a + "alias "@ + rest + b, path, lineno);
            let ws = leading_texts(tokens(rest), 0);
            &&& ws.len() >= 2 ==> (d matches DirectiveView::Alias { name, words } && name == ws[0]
                && words == ws.skip(1))
            &&& ws.len() < 2 ==> d is Warn
        }),
{
    reveal_strlit("alias ");
    reveal_strlit("set ");
    let t = "alias "@ + rest;
    assert(t[0] == 'a' && t.last() == rest.last());
    law_trimmed(a, t, b);
    assert(a + t + b =~= a + "alias "@ + rest + b);
    assert(t.subrange(0, 6) =~= "alias "@);
    assert(t.skip(6) =~= rest);
    assert(!starts_with(t, "set "@)) by {
        if starts_with(t, "set "@) {
            assert(t.subrange(0, 4)[0] == 's');
        }
    }
    let e = Seq::<char>::empty();
    law_trimmed(e, rest, e);
    assert(e + rest + e =~= rest);
}

// -- History --

/// A search that asks for a number of matches gets the best ones.
pub proof fn law_best_matches_are_kept(
    v: Seq<MatchView>,
    sorted: Seq<MatchView>,
    limit: int,
    i: int,
    j: int,
)
    requires
        v.len() <= usize::MAX,
        stable_sorted(v, sorted, rank_order()),
        0 < limit < sorted.len(),
        0 <= i < limit <= j < sorted.len(),
    ensures
        ({
            let r = first_matches(sorted, limit);
            &&& r.len() == limit
            &&& r[i].score >= sorted[j].score
            &&& r[i].score == sorted[j].score ==> r[i].idx >= sorted[j].idx
            &&& v.contains(r[i])
        }),
        first_matches(sorted, sorted.len() as int) == sorted,
{
    law_matches_are_ranked(v, sorted, sorted[i], i, j);
    assert(sorted.contains(sorted[i]));
}

/// A search among candidates finds those that match, and keeps the best of their matches.
pub proof fn law_search_among(
    h: &History,
    query: Seq<char>,
    cwd: Option<Seq<char>>,
    candidates: Seq<usize>,
    limit: int,
    matched: Seq<usize>,
    r: Seq<MatchView>,
    k: int,
)
    requires
        h.found_among(query, cwd, candidates, limit, matched, r),
        0 <= limit,
    ensures
        ({
            let all = h@.subset_matches(
                crate::fuzzy::lowercased(query),
                cwd,
                candidates,
                candidates.len() as int,
            );
            &&& limit == 0 ==> r.len() == 0 && matched.len() == 0
            &&& limit > 0 ==> matched.len() == all.len() && (0 <= k < all.len() ==> matched[k]
                == all[k].idx)
            &&& limit > 0 && all.len() <= usize::MAX ==> r.len() <= limit && (all.len() <= limit
                ==> r.len() == all.len())
        }),
{
    let all = h@.subset_matches(
        crate::fuzzy::lowercased(query),
        cwd,
        candidates,
        candidates.len() as int,
    );
    if limit > 0 {
        let a = matched.map_values(|x: usize| x as int);
        let b = all.map_values(|m: MatchView| m.idx);
        assert(a.len() == matched.len() && b.len() == all.len());
        if 0 <= k < all.len() {
            assert(a[k] == matched[k] as int);
            assert(b[k] == all[k].idx);
        }
        if all.len() <= usize::MAX {
            let sorted = choose|sorted: Seq<MatchView>| #[trigger]
                stable_sorted(all, sorted, rank_order()) && r == first_matches(sorted, limit);
            law_sort_permutes(all, sorted, rank_order());
        }
    }
}

/// A history that was not loaded from its cache is not written over it, and one that has lost most
/// of the entries is refused; any other is written.
pub proof fn law_saving(h: HistoryView, existing: Option<Seq<u8>>)
    ensures
        h.cache_dirty ==> saved(h, existing) is Keep,
        !h.cache_dirty && existing is None ==> saved(h, existing) is Write,
        !h.cache_dirty && existing is Some ==> ({
            let had = crate::history_cache::stated_count(existing->0);
            (saved(h, existing) is Refuse) == (2 * (h.entries.len() + 1) <= had && had > 100)
        }),
        !h.cache_dirty && existing is Some ==> !(saved(h, existing) is Keep),
{
}

/// Compacting the history loses no command, and reads the log from its start.
pub proof fn law_compacting_loses_nothing(
    h: HistoryView,
    log: Option<Seq<u8>>,
    now: u64,
    text: Seq<char>,
)
    requires
        crate::history::texts(h.entries).contains(text),
        log matches Some(b) ==> (text_of(b) matches Some(tail) ==> h.entries.len() + lines(
            tail,
        ).len() <= usize::MAX),
    ensures
        crate::history::texts(compacted(h, log, now).entries).contains(text),
{
    if log is Some {
        let b = log->0;
        assert(b.subrange(0, b.len() as int) =~= b);
    }
    crate::history_store::law_catching_up_keeps_commands(
        HistoryView { file_pos: 0, ..h },
        log,
        now,
        text,
    );
}

/// A cache that cannot be understood is told of, and one that can is not.
pub proof fn law_corrupt_cache_is_told(b: Seq<u8>)
    ensures
        crate::history_cache::parsed_cache(b) is None ==> load_report(CacheFileView::Bytes(b)).len()
            > 0,
        crate::history_cache::parsed_cache(b) is Some ==> load_report(CacheFileView::Bytes(b)).len()
            == 0,
        load_report(CacheFileView::Missing).len() == 0,
{
    reveal_strlit("ish: history cache corrupt (");
}

// -- Candidates for a command --

/// A name is a candidate where it starts with what was typed.
pub proof fn law_names_are_offered(names: Seq<Seq<char>>, prefix: Seq<char>, rest: Seq<char>, n: int)
    requires
        0 < n <= names.len(),
    ensures
        names[n - 1] == prefix + rest ==> ({
            let all = name_entries(names, prefix, n);
            &&& all.drop_last() == name_entries(names, prefix, n - 1)
            &&& all.last().name == kept(prefix + rest)
            &&& !all.last().is_dir && !all.last().is_host
        }),
        names[n - 1].len() < prefix.len() || names[n - 1].take(prefix.len() as int) != prefix
            ==> name_entries(names, prefix, n) == name_entries(names, prefix, n - 1),
{
    let h = names[n - 1];
    let before = name_entries(names, prefix, n - 1);
    if h == prefix + rest {
        assert(h.subrange(0, prefix.len() as int) =~= prefix);
        assert(name_entries(names, prefix, n).drop_last() =~= before);
    }
    if h.len() >= prefix.len() {
        assert(h.subrange(0, prefix.len() as int) =~= h.take(prefix.len() as int));
    }
}

/// The candidates for a command are builtins, aliases, the commands of `$PATH` and directories.
pub proof fn law_command_candidates(
    partial: Seq<char>,
    aliases: Seq<AliasView>,
    dirs: Seq<crate::path::PathDir>,
    items: Seq<DirItem>,
    e: EntryView,
)
    ensures
        ({
            let builtins = crate::builtin::extension_names() + crate::builtin::shell_names();
            let all = command_candidates(partial, aliases, dirs, items);
            all.contains(e) == (name_entries(builtins, partial, builtins.len() as int).contains(e)
                || name_entries(alias_names(aliases), partial, aliases.len() as int).contains(e)
                || crate::path::command_matches(partial, dirs, dirs.len() as int).contains(e)
                || listed(
                crate::candidates::dir_part(partial),
                crate::candidates::name_part(partial),
                true,
                items,
            ).contains(e))
        }),
{
    let builtins = crate::builtin::extension_names() + crate::builtin::shell_names();
    let a = name_entries(builtins, partial, builtins.len() as int);
    let b = name_entries(alias_names(aliases), partial, aliases.len() as int);
    let c = crate::path::command_matches(partial, dirs, dirs.len() as int);
    let d = listed(
        crate::candidates::dir_part(partial),
        crate::candidates::name_part(partial),
        true,
        items,
    );
    lemma_contains(a, b, e);
    lemma_contains(a + b, c, e);
    lemma_contains(a + b + c, d, e);
}

proof fn lemma_contains(a: Seq<EntryView>, b: Seq<EntryView>, e: EntryView)
    ensures
        (a + b).contains(e) == (a.contains(e) || b.contains(e)),
{
    let s = a + b;
    if a.contains(e) {
        let i = choose|i: int| 0 <= i < a.len() && a[i] == e;
        assert(s[i] == e);
    }
    if b.contains(e) {
        let i = choose|i: int| 0 <= i < b.len() && b[i] == e;
        assert(s[a.len() + i] == e);
    }
    if s.contains(e) {
        let i = choose|i: int| 0 <= i < s.len() && s[i] == e;
        if i < a.len() {
            assert(a[i] == e);
        } else {
            assert(b[i - a.len()] == e);
        }
    }
}

// -- What is listed --

/// `alias` alone lists every alias on a line of its own, in order.
pub proof fn law_all_aliases_are_listed(v: Seq<AliasView>, name: Seq<char>, w: Seq<char>)
    ensures
        ({
            let a = AliasView { name, expansion: seq![w] };
            &&& aliases_shown(v.push(a)) == aliases_shown(v) + ("alias "@ + name + seq![' '] + w
                + seq!['\n'])
            &&& aliases_shown(Seq::empty()).len() == 0
            &&& alias_command_says(Seq::empty(), v).out == aliases_shown(v)
            &&& alias_command_says(Seq::empty(), v).status == 0
            &&& alias_command_says(Seq::empty(), v).err.len() == 0
        }),
{
    reveal_strlit(" ");
    reveal_strlit("\n");
    assert(" "@ =~= seq![' ']);
    assert("\n"@ =~= seq!['\n']);
    let a = AliasView { name, expansion: seq![w] };
    assert(v.push(a).drop_last() =~= v);
    assert(joined(seq![w], " "@) == w);
}

/// The text of a command line names its connectors behind what they connect, and its pipes between
/// the commands.
pub proof fn law_line_text(p: PipelineView, q: PipelineView, c: Connector)
    ensures
        segments_text(seq![(p, Some(c)), (q, None)], 0) == commands_text(p, 0) + (match c {
            Connector::And => seq![' ', '&', '&', ' '],
            Connector::Or => seq![' ', '|', '|', ' '],
            Connector::Semi => seq![';', ' '],
        }) + commands_text(q, 0),
        p.len() == 2 && !p[0].pipe_stderr ==> commands_text(p, 0) == joined(
            cleaned(p[0].cmd.argv),
            " "@,
        ) + seq![' ', '|', ' '] + joined(cleaned(p[1].cmd.argv), " "@),
        p.len() == 2 && p[0].pipe_stderr ==> commands_text(p, 0) == joined(
            cleaned(p[0].cmd.argv),
            " "@,
        ) + seq![' ', '&', '|', ' '] + joined(cleaned(p[1].cmd.argv), " "@),
{
    reveal_strlit(" ");
    reveal_strlit(" &&");
    reveal_strlit(" ||");
    reveal_strlit(";");
    reveal_strlit(" | ");
    reveal_strlit(" &| ");
    let line = seq![(p, Some(c)), (q, None)];
    let e = Seq::<char>::empty();
    assert(segments_text(line, 2) =~= e);
    assert(line[0] == (p, Some(c)) && line[1] == (q, None::<Connector>));
    assert(segments_text(line, 1) =~= seq![' '] + commands_text(q, 0));
    assert(segments_text(line, 0) =~= commands_text(p, 0) + (match c {
        Connector::And => seq![' ', '&', '&', ' '],
        Connector::Or => seq![' ', '|', '|', ' '],
        Connector::Semi => seq![';', ' '],
    }) + commands_text(q, 0));
    if p.len() == 2 {
        assert(commands_text(p, 2) =~= e);
        let b = joined(cleaned(p[1].cmd.argv), " "@);
        let a = joined(cleaned(p[0].cmd.argv), " "@);
        if p[0].pipe_stderr {
            assert(commands_text(p, 1) =~= seq![' ', '&', '|', ' '] + b);
            assert(commands_text(p, 0) =~= a + seq![' ', '&', '|', ' '] + b);
        } else {
            assert(commands_text(p, 1) =~= seq![' ', '|', ' '] + b);
            assert(commands_text(p, 0) =~= a + seq![' ', '|', ' '] + b);
        }
    }
}

} // verus!
