//! How the history and the environment are written down, and how candidates are put together.
use vstd::prelude::*;
use vstd::seq_lib::*;
use vstd::utf8::*;

use crate::commands::{after_alias, may_read_history};
use crate::complete::{
    deduped, grid_of, kept, law_dedup_leaves_no_equal_neighbours, CompletionState, EntryView,
};
use crate::completing::{all_found, found_bytes, found_entries, group_found, FoundView};
use crate::denv::{eval_text, export_lines, is_directive, sh_quoted, without_semicolons};
use crate::history::{chunk_end, file_lines, last_of_each, lemma_chunk_end, loaded_entry};
use crate::history_cache::{
    encoded, number_at, time_at, time_from_stored, time_to_stored, CachedView, TimeFormat,
};
use crate::history_log::{
    escaped_from, formatted, formatted_with_cwd, parsed_line, record_prefix, record_prefix_v2,
    ParsedView,
};
use crate::index::text_hash;
use crate::input::{EventView, ReaderView};
use crate::laws::texts::{is_blank, lemma_span_is};
use crate::session::relaid;
use crate::sort::strings_sorted;
use crate::text::{decimal, lex_le, occurs_at, spec_is_whitespace};
use crate::utf8_bytes::text_of;

verus! {

// -- The history file --

/// A command is written behind its time and its session, and behind its directory where that is
/// known, with tabs between them.
pub proof fn law_records(time: u64, session: u64, cwd: Seq<char>, command: Seq<char>)
    requires
        forall|i: int|
            0 <= i < cwd.len() ==> (#[trigger] cwd[i]) != '\\' && cwd[i] != '\t' && cwd[i] != '\n'
                && cwd[i] != '\r',
    ensures
        formatted(time, session, command) == ":ish-history:v1\t"@ + decimal(time as nat) + seq!['\t']
            + decimal(session as nat) + seq!['\t'] + command,
        formatted_with_cwd(time, session, cwd, command) == ":ish-history:v2\t"@ + decimal(
            time as nat,
        ) + seq!['\t'] + decimal(session as nat) + seq!['\t'] + cwd + seq!['\t'] + command,
{
    lemma_plain_field(cwd, 0);
    assert(cwd.skip(0) =~= cwd);
    assert(formatted(time, session, command) =~= ":ish-history:v1\t"@ + decimal(time as nat) + seq![
        '\t',
    ] + decimal(session as nat) + seq!['\t'] + command);
    assert(formatted_with_cwd(time, session, cwd, command) =~= ":ish-history:v2\t"@ + decimal(
        time as nat,
    ) + seq!['\t'] + decimal(session as nat) + seq!['\t'] + cwd + seq!['\t'] + command);
}

proof fn lemma_plain_field(s: Seq<char>, i: int)
    requires
        0 <= i <= s.len(),
        forall|k: int|
            0 <= k < s.len() ==> (#[trigger] s[k]) != '\\' && s[k] != '\t' && s[k] != '\n' && s[k]
                != '\r',
    ensures
        escaped_from(s, i) == s.skip(i),
    decreases s.len() - i,
{
    if i < s.len() {
        lemma_plain_field(s, i + 1);
        assert(seq![s[i]] + s.skip(i + 1) =~= s.skip(i));
    } else {
        assert(s.skip(i) =~= Seq::empty());
    }
}

/// A backslash, a tab, a newline and a carriage return of a directory are written with a backslash.
pub proof fn law_field_escapes(s: Seq<char>, i: int)
    requires
        0 <= i < s.len(),
    ensures
        s[i] == '\\' ==> escaped_from(s, i) == seq!['\\', '\\'] + escaped_from(s, i + 1),
        s[i] == '\t' ==> escaped_from(s, i) == seq!['\\', 't'] + escaped_from(s, i + 1),
        s[i] == '\n' ==> escaped_from(s, i) == seq!['\\', 'n'] + escaped_from(s, i + 1),
        s[i] == '\r' ==> escaped_from(s, i) == seq!['\\', 'r'] + escaped_from(s, i + 1),
{
}

/// A line that is no record is a command whose time and directory are not known.
pub proof fn law_plain_lines(line: Seq<char>, now: u64)
    requires
        line.len() > 0,
        line[0] != ':',
    ensures
        parsed_line(line, now) == Some(
            ParsedView { command: line, timestamp: now, session_id: 0, cwd: None },
        ),
        parsed_line(Seq::empty(), now) is None,
{
    reveal_strlit(":ish-history:v1\t");
    reveal_strlit(":ish-history:v2\t");
    if line.len() >= 16 {
        assert(line.subrange(0, 16)[0] == line[0]);
        assert(record_prefix()[0] == ':' && record_prefix_v2()[0] == ':');
    }
}

/// Of the lines of a file with the same command the last is kept; that of the last line comes last.
pub proof fn law_last_line_is_kept(ls: Seq<ParsedView>, n: int, seen: Set<u64>, k: int)
    requires
        0 <= k < n <= ls.len(),
        !seen.contains(text_hash(ls[k].command)),
        forall|j: int| k < j < n ==> text_hash(#[trigger] ls[j].command) != text_hash(ls[k].command),
    ensures
        last_of_each(ls, n, seen).contains(loaded_entry(ls[k])),
        last_of_each(ls, n, seen).len() <= n,
        k == n - 1 ==> last_of_each(ls, n, seen).last() == loaded_entry(ls[k]),
    decreases n,
{
    lemma_lines_bound(ls, n, seen);
    let r = last_of_each(ls, n, seen);
    let h = text_hash(ls[n - 1].command);
    if k == n - 1 {
        assert(r[r.len() - 1] == loaded_entry(ls[k]));
    } else if seen.contains(h) {
        law_last_line_is_kept(ls, n - 1, seen, k);
    } else {
        assert(text_hash(ls[n - 1].command) != text_hash(ls[k].command));
        law_last_line_is_kept(ls, n - 1, seen.insert(h), k);
        let b = last_of_each(ls, n - 1, seen.insert(h));
        let i = choose|i: int| 0 <= i < b.len() && b[i] == loaded_entry(ls[k]);
        assert(r[i] == b[i]);
    }
}

proof fn lemma_lines_bound(ls: Seq<ParsedView>, n: int, seen: Set<u64>)
    requires
        0 <= n <= ls.len(),
    ensures
        last_of_each(ls, n, seen).len() <= n,
    decreases n,
{
    if n > 0 {
        let h = text_hash(ls[n - 1].command);
        lemma_lines_bound(ls, n - 1, seen);
        lemma_lines_bound(ls, n - 1, seen.insert(h));
    }
}

/// An earlier line with the same command is dropped.
pub proof fn law_earlier_line_is_dropped(ls: Seq<ParsedView>, n: int, seen: Set<u64>)
    requires
        0 < n <= ls.len(),
        seen.contains(text_hash(ls[n - 1].command)),
    ensures
        last_of_each(ls, n, seen) == last_of_each(ls, n - 1, seen),
{
}

/// The cache starts with the letters `ISH` and the number of its format.
pub proof fn law_cache_header(v: Seq<CachedView>)
    ensures
        encoded(v).len() >= 4,
        encoded(v).take(4) == seq![73u8, 83u8, 72u8, 5u8],
{
    assert(encoded(v).take(4) =~= seq![73u8, 83u8, 72u8, 5u8]);
}

// -- Lines --

/// A line that holds the word `history` may read the history, and one without an `h` does not.
pub proof fn law_history_is_read(a: Seq<char>, b: Seq<char>)
    ensures
        may_read_history(a + "history"@ + b),
        !a.contains('h') ==> !may_read_history(a),
{
    reveal_strlit("history");
    let s = a + "history"@ + b;
    assert(s.subrange(a.len() as int, (a.len() + "history"@.len()) as int) =~= "history"@);
    assert(occurs_at(s, "history"@, a.len() as int));
    if may_read_history(a) {
        let i = choose|i: int| occurs_at(a, "history"@, i);
        assert(a.subrange(i, i + "history"@.len())[0] == 'h');
        assert(a[i] == 'h');
        assert(a.contains('h'));
    }
}

/// What follows `alias` is what stands behind the word and the blanks after it.
pub proof fn law_after_alias(a: Seq<char>, b: Seq<char>, rest: Seq<char>)
    requires
        is_blank(a),
        is_blank(b),
        rest.len() == 0 || !spec_is_whitespace(rest[0]),
    ensures
        after_alias(a + "alias"@ + b + rest) == rest,
{
    reveal_strlit("alias");
    let t = "alias"@ + (b + rest);
    assert(a + "alias"@ + b + rest =~= a + t);
    assert(t[0] == 'a');
    lemma_span_is(a, t, true);
    assert((a + t).skip(a.len() as int) =~= t);
    assert(t.subrange(0, 5) =~= "alias"@);
    assert(t.skip(5) =~= b + rest);
    lemma_span_is(b, rest, true);
    assert((b + rest).skip(b.len() as int) =~= rest);
}

/// `export NAME=value` and `unset NAME` change a variable, also with a semicolon behind them; a
/// line that starts with anything else does not.
pub proof fn law_directives(k: Seq<char>, v: Seq<char>, line: Seq<char>)
    requires
        v.len() > 0,
        v.last() != ';',
        k.len() > 0,
        k.last() != ';',
        !k.contains('='),
        line.len() > 0,
        line[0] != 'e',
        line[0] != 'u',
    ensures
        is_directive("export "@ + k + seq!['='] + v),
        is_directive("export "@ + k + seq!['='] + v + seq![';']),
        is_directive("unset "@ + k),
        !is_directive("export "@ + k),
        !is_directive(line),
{
    reveal_strlit("export ");
    reveal_strlit("unset ");
    reveal_with_fuel(without_semicolons, 3);
    let a = "export "@ + k + seq!['='] + v;
    assert(a.last() == v.last());
    assert(a.take(a.len() as int) =~= a);
    assert(a.subrange(0, 7) =~= "export "@);
    let r = a.skip(7);
    assert(r[k.len() as int] == '=');
    let b = a + seq![';'];
    assert(b[b.len() - 1] == ';' && b[b.len() - 2] == a.last());
    assert(without_semicolons(b, b.len() as int) == a.len());
    assert(b.take(a.len() as int) =~= a);
    let c = "unset "@ + k;
    assert(c.last() == k.last());
    assert(c.take(c.len() as int) =~= c);
    assert(c.subrange(0, 6) =~= "unset "@);
    assert("export "@[0] == 'e' && "unset "@[0] == 'u');
    if c.len() >= 7 {
        assert(c.subrange(0, 7)[0] == 'u');
    }
    let d = "export "@ + k;
    assert(d.last() == k.last());
    assert(d.take(d.len() as int) =~= d);
    assert(d.subrange(0, 7) =~= "export "@);
    assert(d.skip(7) =~= k);
    let t = line.take(without_semicolons(line, line.len() as int));
    lemma_semicolons(line, line.len() as int);
    if t.len() >= 7 {
        assert(t.subrange(0, 7)[0] == line[0]);
    }
    if t.len() >= 6 {
        assert(t.subrange(0, 6)[0] == line[0]);
    }
    assert(d.subrange(0, 6)[0] == 'e');
}

proof fn lemma_semicolons(s: Seq<char>, n: int)
    requires
        0 <= n <= s.len(),
    ensures
        0 <= without_semicolons(s, n) <= n,
    decreases n,
{
    if n > 0 && s[n - 1] == ';' {
        lemma_semicolons(s, n - 1);
    }
}

/// The script that loads an environment copies the environment, runs the `.envrc`, exports the
/// variables of the `.env` and copies the environment again, in this order.
pub proof fn law_loading_script(
    prelude: Seq<char>,
    before: Seq<char>,
    path: Seq<char>,
    k: Seq<char>,
    v: Seq<char>,
    after: Seq<char>,
)
    ensures
        eval_text(prelude, before, Some(path), seq![(k, v)], after) == prelude + seq!['\n']
            + "env -0 > "@ + sh_quoted(before) + seq!['\n'] + (". "@ + sh_quoted(path) + seq!['\n'])
            + ("export "@ + k + seq!['='] + sh_quoted(v) + seq!['\n']) + ("env -0 > "@ + sh_quoted(
            after,
        ) + seq!['\n']),
{
    let e = Seq::<char>::empty();
    let one = seq![(k, v)];
    assert(export_lines(one, 1) =~= e);
    assert(one[0] == (k, v));
    assert(export_lines(one, 0) =~= "export "@ + k + seq!['='] + sh_quoted(v) + seq!['\n']);
}

/// Texts that are sorted are the same texts, each before those that come later in the order of
/// their characters.
pub proof fn law_texts_are_sorted(
    v: Seq<Seq<char>>,
    r: Seq<Seq<char>>,
    t: Seq<char>,
    i: int,
    j: int,
)
    requires
        strings_sorted(v, r),
        0 <= i < j < r.len(),
    ensures
        lex_le(r[i], r[j]),
        r.contains(t) == v.contains(t),
        r.len() == v.len(),
{
    broadcast use group_to_multiset_ensures;

    assert(r.to_multiset().count(t) == v.to_multiset().count(t));
    assert(r.to_multiset().len() == v.to_multiset().len());
}

// -- Candidates --

/// A candidate of an abbreviated path is named with the directory that it was found in.
pub proof fn law_found_with_directory(
    dir: Seq<char>,
    entries: Seq<EntryView>,
    start: int,
    k: int,
    i: int,
)
    requires
        0 <= i < k,
    ensures
        group_found(dir, entries, start, k).len() == k,
        ({
            let f = group_found(dir, entries, start, k)[i];
            let e = entries[start + i];
            &&& f.name == dir + e.name
            &&& f.is_dir == e.is_dir
            &&& f.is_link == e.is_link
            &&& f.is_exec == e.is_exec
        }),
    decreases k,
{
    let b = group_found(dir, entries, start, k - 1);
    lemma_group_len(dir, entries, start, k - 1);
    if i < k - 1 {
        law_found_with_directory(dir, entries, start, k - 1, i);
        assert(group_found(dir, entries, start, k)[i] == b[i]);
    }
}

proof fn lemma_group_len(dir: Seq<char>, entries: Seq<EntryView>, start: int, k: int)
    requires
        0 <= k,
    ensures
        group_found(dir, entries, start, k).len() == k,
    decreases k,
{
    if k > 0 {
        lemma_group_len(dir, entries, start, k - 1);
    }
}

/// The candidates of an abbreviated path are those of all its directories, in order, each with the
/// marks that it was found with.
pub proof fn law_found_in_all_directories(
    groups: Seq<(Seq<char>, int, int)>,
    entries: Seq<EntryView>,
    root: Seq<char>,
    dir: Seq<char>,
    n: int,
    v: Seq<FoundView>,
)
    requires
        0 < n <= groups.len(),
        groups[n - 1].0 == root + dir,
        v.len() > 0,
        found_bytes(v, v.len() - 1) <= u32::MAX,
    ensures
        all_found(groups, entries, root, n) == all_found(groups, entries, root, n - 1)
            + group_found(dir, entries, groups[n - 1].1, groups[n - 1].2),
        ({
            let r = found_entries(v, v.len() as int);
            let e = r.last();
            let f = v.last();
            &&& e.name == kept(f.name)
            &&& e.is_dir == f.is_dir && e.is_link == f.is_link && e.is_exec == f.is_exec
            &&& !e.is_host
            &&& r.drop_last() == found_entries(v, v.len() - 1)
        }),
{
    let g = root + dir;
    assert(g.subrange(0, root.len() as int) =~= root);
    assert(g.skip(root.len() as int) =~= dir);
    let r = found_entries(v, v.len() as int);
    assert(r.drop_last() =~= found_entries(v, v.len() - 1));
}

proof fn lemma_deduped(s: Seq<EntryView>, i: int)
    requires
        0 <= i < s.len(),
    ensures
        exists|k: int|
            0 <= k < deduped(s).len() && (#[trigger] deduped(s)[k]).name == s[i].name,
        forall|k: int| 0 <= k < deduped(s).len() ==> s.contains(#[trigger] deduped(s)[k]),
    decreases s.len(),
{
    let u = s.drop_last();
    let t = deduped(u);
    let r = deduped(s);
    law_dedup_leaves_no_equal_neighbours(s);
    if u.len() > 0 {
        lemma_deduped(u, if i < u.len() {
            i
        } else {
            0
        });
    } else {
        assert(t =~= Seq::empty());
    }
    if i < s.len() - 1 {
        let k = choose|k: int| 0 <= k < t.len() && (#[trigger] t[k]).name == u[i].name;
        assert(r[k] == t[k]);
    } else {
        assert(r[r.len() - 1].name == s.last().name);
    }
    assert forall|k: int| 0 <= k < r.len() implies s.contains(#[trigger] r[k]) by {
        if k < t.len() {
            assert(r[k] == t[k]);
            assert(u.contains(t[k]));
            let j = choose|j: int| 0 <= j < u.len() && u[j] == t[k];
            assert(s[j] == t[k]);
        } else {
            assert(r[k] == s[s.len() - 1]);
        }
    }
}

/// Each name that is found is offered, and nothing that was not found.
pub proof fn law_each_name_is_offered(s: Seq<EntryView>, i: int, k: int)
    requires
        0 <= i < s.len(),
        0 <= k < deduped(s).len(),
    ensures
        exists|j: int|
            0 <= j < deduped(s).len() && (#[trigger] deduped(s)[j]).name == s[i].name,
        s.contains(deduped(s)[k]),
        k > 0 ==> deduped(s)[k].name != deduped(s)[k - 1].name,
{
    lemma_deduped(s, i);
    law_dedup_leaves_no_equal_neighbours(s);
}

/// On a terminal of another width the grid holds the same candidates, in the columns that fit, with
/// the same one selected.
pub proof fn law_grid_follows_width(state: CompletionState, cols: u16)
    requires
        grid_of(state.comp.entries@, cols as int).0 <= usize::MAX,
        0 <= grid_of(state.comp.entries@, cols as int).0,
        0 <= grid_of(state.comp.entries@, cols as int).1 <= usize::MAX,
    ensures
        ({
            let r = relaid(state, cols);
            &&& r.comp == state.comp
            &&& r.selected == state.selected
            &&& r.dir_prefix == state.dir_prefix
            &&& r.in_quote == state.in_quote
            &&& (r.cols as int, r.rows as int) == grid_of(state.comp.entries@, cols as int)
            &&& r.rows > 0 ==> r.scroll < r.rows
            &&& r.scroll <= state.scroll
        }),
{
}

/// At the end of the input a paste that was too large is refused.
pub proof fn law_input_ends(v: ReaderView)
    ensures
        v.skipping() ==> v.ended().1 == Some(EventView::PasteRejected) && !v.ended().0.skipping(),
        !v.skipping() ==> v.ended() == v.timed_out(),
{
}

proof fn lemma_chunk_is(line: Seq<u8>, rest: Seq<u8>, i: int)
    requires
        0 <= i <= line.len(),
        !line.contains(10u8),
    ensures
        chunk_end(line + seq![10u8] + rest, i) == line.len(),
    decreases line.len() - i,
{
    let s = line + seq![10u8] + rest;
    if i < line.len() {
        assert(s[i] == line[i]);
        assert(line.contains(line[i]));
        lemma_chunk_is(line, rest, i + 1);
    } else {
        assert(s[i] == 10u8);
    }
}

proof fn lemma_chunk_shift(a: Seq<u8>, b: Seq<u8>, i: int)
    requires
        0 <= i <= b.len(),
    ensures
        chunk_end(a + b, a.len() + i) == a.len() + chunk_end(b, i),
    decreases b.len() - i,
{
    let s = a + b;
    if i < b.len() {
        assert(s[a.len() + i] == b[i]);
        if b[i] != 10 {
            lemma_chunk_shift(a, b, i + 1);
        }
    }
}

proof fn lemma_file_shift(a: Seq<u8>, b: Seq<u8>, i: int, now: u64)
    requires
        0 <= i <= b.len(),
    ensures
        file_lines(a + b, a.len() + i, now) == file_lines(b, i, now),
    decreases b.len() - i,
{
    let s = a + b;
    let e = chunk_end(b, i);
    lemma_chunk_end(b, i);
    lemma_chunk_shift(a, b, i);
    assert(s.subrange(a.len() + i, a.len() + e) =~= b.subrange(i, e));
    if e < b.len() {
        lemma_file_shift(a, b, e + 1, now);
    }
}

/// The history file is read line by line: what a line says comes before what the lines behind it
/// say, and a line that is no text says nothing.
pub proof fn law_file_is_read_by_lines(line: Seq<u8>, rest: Seq<u8>, now: u64)
    requires
        !line.contains(10u8),
    ensures
        ({
            let all = file_lines(line + seq![10u8] + rest, 0, now);
            let behind = file_lines(rest, 0, now);
            &&& text_of(line) matches Some(t) ==> (parsed_line(t, now) matches Some(p) ==> all
                == seq![p] + behind)
            &&& text_of(line) matches Some(t) ==> (parsed_line(t, now) is None ==> all == behind)
            &&& text_of(line) is None ==> all == behind
        }),
{
    let s = line + seq![10u8] + rest;
    let n = line.len() as int;
    lemma_chunk_is(line, rest, 0);
    assert(s.subrange(0, n) =~= line);
    let a = line + seq![10u8];
    lemma_file_shift(a, rest, 0, now);
    assert(a + rest =~= s);
    let behind = file_lines(rest, 0, now);
    assert(Seq::<ParsedView>::empty() + behind =~= behind);
}

/// Times are kept as milliseconds since the start of 1998; older files hold seconds since then, or
/// since the start of 1970, or no times.
pub proof fn law_stored_times(data: Seq<u8>, start: int, i: int, t: u64)
    requires
        0 <= number_at(data, start + i * 4, 4) < 0x1_0000_0000,
    ensures
        t >= 883612800000 ==> time_to_stored(t) == t - 883612800000,
        t <= u64::MAX - 883612800000 ==> time_from_stored(t) == t + 883612800000,
        time_at(data, TimeFormat::Seconds, start, i) == number_at(data, start + i * 4, 4) * 1000
            + 883612800000,
        time_at(data, TimeFormat::UnixSeconds, start, i) == number_at(data, start + i * 4, 4) * 1000,
        time_at(data, TimeFormat::Millis, start, i) == time_from_stored(
            number_at(data, start + i * 8, 8) as u64,
        ),
        time_at(data, TimeFormat::Absent, start, i) == 0,
{
}

} // verus!
