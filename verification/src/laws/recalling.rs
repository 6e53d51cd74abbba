//! What is remembered of commands and directories, and how it is found again.
use vstd::prelude::*;
use vstd::seq_lib::*;
use vstd::utf8::encode_utf8;

use crate::finder::{collected, depth_order, files_at, name_matches, picker_results, WalkView};
use crate::frecency::{
    first_existing, matches_query, matching, place_of, score_first, scores, visited, z_goes,
    CandidateView,
};
use crate::fuzzy::{classified, folded, rank_order, stands_at, substring_from, MatchView};
use crate::history::{command_line, without, HistoryEntryView, HistoryView};
use crate::laws::texts::{is_blank, is_trim, law_trimmed};
use crate::sort::{law_sort_permutes, stable_sorted};
use crate::text::{byte_len, icase_at, icase_contains, lex_le, lower_byte, trimmed};

verus! {

// -- Adding to the history --

proof fn lemma_without_members(v: Seq<HistoryEntryView>, text: Seq<char>, e: HistoryEntryView)
    ensures
        without(v, text).contains(e) <==> v.contains(e) && e.text != text,
    decreases v.len(),
{
    let w = without(v, text);
    if v.len() > 0 {
        let u = v.drop_last();
        lemma_without_members(u, text, e);
        let x = without(u, text);
        if w.contains(e) {
            let k = choose|k: int| 0 <= k < w.len() && w[k] == e;
            if k < x.len() {
                assert(x[k] == e);
                assert(x.contains(e));
                let j = choose|j: int| 0 <= j < u.len() && u[j] == e;
                assert(v[j] == e);
            } else {
                assert(v[v.len() - 1] == e);
            }
        }
        if v.contains(e) && e.text != text {
            let k = choose|k: int| 0 <= k < v.len() && v[k] == e;
            if k < u.len() {
                assert(u[k] == e);
                assert(x.contains(e));
                let j = choose|j: int| 0 <= j < x.len() && x[j] == e;
                assert(w[j] == e);
            } else {
                assert(w.last() == e);
            }
        }
    }
}

/// A command is added as it was entered, without the white space around it, with the time, the
/// session and the directory; every entry of another command stays, and those of the same
/// command are gone.
pub proof fn law_command_is_added(
    v: HistoryView,
    a: Seq<char>,
    line: Seq<char>,
    b: Seq<char>,
    cwd: Option<Seq<char>>,
    now: u64,
    e: HistoryEntryView,
)
    requires
        is_blank(a),
        is_blank(b),
        is_trim(line),
        !line.contains('\n'),
        byte_len(line) <= 65535,
    ensures
        ({
            let w = v.added(a + line + b, cwd, now);
            let last = w.entries.last();
            let others = w.entries.drop_last();
            &&& w.entries.len() > 0
            &&& last.text == line
            &&& last.timestamp == now
            &&& last.session_id == v.session_id
            &&& last.cwd == cwd
            &&& last.local
            &&& others.contains(e) <==> v.entries.contains(e) && e.text != line
            &&& w.session_cutoff == v.session_cutoff
            &&& w.file_pos == v.file_pos
        }),
{
    law_trimmed(a, line, b);
    let s = Seq::new(
        line.len(),
        |i: int|
            if line[i] == '\n' {
                ' '
            } else {
                line[i]
            },
    );
    assert(s =~= line) by {
        assert forall|i: int| 0 <= i < line.len() implies s[i] == line[i] by {
            assert(line.contains(line[i]));
        }
    }
    let x = Seq::<char>::empty();
    law_trimmed(x, line, x);
    assert(x + line + x =~= line);
    assert(command_line(a + line + b) == line);
    crate::history::law_short_command_kept(line);
    lemma_without_members(v.entries, line, e);
    let w = v.added(a + line + b, cwd, now);
    assert(w.entries.drop_last() =~= without(v.entries, line));
}

proof fn lemma_spaced(a: Seq<char>, b: Seq<char>)
    requires
        !a.contains('\n'),
        !b.contains('\n'),
    ensures
        ({
            let s = a + seq!['\n'] + b;
            Seq::new(
                s.len(),
                |i: int|
                    if s[i] == '\n' {
                        ' '
                    } else {
                        s[i]
                    },
            ) =~= a + seq![' '] + b
        }),
{
    let s = a + seq!['\n'] + b;
    let t = a + seq![' '] + b;
    assert forall|i: int| 0 <= i < s.len() implies #[trigger] t[i] == (if s[i] == '\n' {
        ' '
    } else {
        s[i]
    }) by {
        if i < a.len() {
            assert(s[i] == a[i]);
            assert(a.contains(a[i]));
        } else if i > a.len() {
            assert(s[i] == b[i - a.len() - 1]);
            assert(b.contains(b[i - a.len() - 1]));
        }
    }
}

/// The lines of a command are joined with spaces in the history, which keeps one line for each.
pub proof fn law_newlines_become_spaces(a: Seq<char>, b: Seq<char>)
    requires
        is_trim(a),
        is_trim(b),
        !a.contains('\n'),
        !b.contains('\n'),
    ensures
        command_line(a + seq!['\n'] + b) == a + seq![' '] + b,
{
    let s = a + seq!['\n'] + b;
    let x = Seq::<char>::empty();
    assert(is_trim(s)) by {
        assert(s[0] == a[0] && s.last() == b.last());
    }
    assert(trimmed(s) == s) by {
        law_trimmed(x, s, x);
        assert(x + s + x =~= s);
    }
    lemma_spaced(a, b);
    let t = a + seq![' '] + b;
    assert(is_trim(t)) by {
        assert(t[0] == a[0] && t.last() == b.last());
    }
    assert(trimmed(t) == t) by {
        law_trimmed(x, t, x);
        assert(x + t + x =~= t);
    }
}

// -- Searching the history --

/// A character behind which a word starts.
pub open spec fn starts_word(c: char) -> bool {
    c == '/' || c == '-' || c == '_' || c == '.' || c == ' ' || c == '\t'
}

/// `q` stands at `i` of the lower case of a text.
pub open spec fn found_at(q: Seq<char>, text: Seq<char>, i: int) -> bool {
    0 <= i && i + q.len() <= text.len() && folded(text).subrange(i, i + q.len()) == q
}

pub open spec fn found_at_word(q: Seq<char>, text: Seq<char>, i: int) -> bool {
    found_at(q, text, i) && (i == 0 || starts_word(text[i - 1]))
}

proof fn lemma_substring(q: Seq<char>, text: Seq<char>, boundary: bool, i: int)
    requires
        0 <= i,
    ensures
        match substring_from(q, folded(text), text, boundary, i) {
            Some(k) => i <= k && found_at(q, text, k) && (boundary ==> found_at_word(q, text, k))
                && forall|j: int|
                i <= j < k ==> !(#[trigger] found_at(q, text, j) && (boundary ==> found_at_word(
                    q,
                    text,
                    j,
                ))),
            None => forall|j: int|
                i <= j ==> !(#[trigger] found_at(q, text, j) && (boundary ==> found_at_word(
                    q,
                    text,
                    j,
                ))),
        },
    decreases text.len() + 1 - i,
{
    let t = folded(text);
    assert(stands_at(q, t, i) == found_at(q, text, i));
    if i + q.len() > t.len() {
    } else if stands_at(q, t, i) && (boundary && i > 0 ==> crate::fuzzy::spec_is_word_boundary(
        text[i - 1],
    )) {
        assert(found_at(q, text, i));
    } else {
        lemma_substring(q, text, boundary, i + 1);
        assert(!(found_at(q, text, i) && (boundary ==> found_at_word(q, text, i))));
    }
}

/// How well a command matches: best where it starts with the query, then where a word of it does,
/// then where the query stands anywhere in it, and last where only its characters do, in order.
pub proof fn law_match_tiers(q: Seq<char>, text: Seq<char>, idx: int, i: int)
    requires
        q.len() > 0,
    ensures
        found_at(q, text, 0) ==> classified(q, text, idx) is Some && classified(
            q,
            text,
            idx,
        )->0.score == 3,
        !found_at(q, text, 0) && found_at_word(q, text, i) ==> classified(q, text, idx) is Some
            && classified(q, text, idx)->0.score == 2,
        found_at(q, text, i) && (forall|j: int| !#[trigger] found_at_word(q, text, j))
            ==> classified(q, text, idx) is Some && classified(q, text, idx)->0.score == 1,
        (forall|j: int| !#[trigger] found_at(q, text, j)) && classified(q, text, idx) is Some
            ==> classified(q, text, idx)->0.score == 0,
        classified(q, text, idx) is Some ==> classified(q, text, idx)->0.idx == idx,
{
    lemma_substring(q, text, true, 0);
    lemma_substring(q, text, false, 0);
    assert(stands_at(q, folded(text), 0) == found_at(q, text, 0));
    if found_at(q, text, 0) {
        assert(found_at_word(q, text, 0));
    }
    if found_at_word(q, text, i) {
        assert(found_at(q, text, i));
    }
    let s = substring_from(q, folded(text), text, true, 0);
    if s is Some {
        assert(found_at_word(q, text, s->0));
        assert(found_at(q, text, s->0));
    }
    let r = substring_from(q, folded(text), text, false, 0);
    if r is Some {
        assert(found_at(q, text, r->0));
    }
}

/// The characters that a match marks are those of the query, at the front where the command
/// starts with it.
pub proof fn law_marked_characters(q: Seq<char>, text: Seq<char>, idx: int, k: int)
    requires
        0 < q.len() <= 32,
        found_at(q, text, 0),
        0 <= k < q.len(),
    ensures
        classified(q, text, idx) is Some,
        classified(q, text, idx)->0.count == q.len(),
        classified(q, text, idx)->0.positions[k] == k,
{
    assert(stands_at(q, folded(text), 0));
}

/// A command of the directory that is searched for, or of one above it, comes before any other.
pub proof fn law_directory_weighs_most(
    v: HistoryView,
    q: Seq<char>,
    cwd: Option<Seq<char>>,
    i: int,
    j: int,
)
    requires
        q.len() > 0,
        v.match_of(q, cwd, i) is Some,
        v.match_of(q, cwd, j) is Some,
        cwd is Some,
        v.entries[i].cwd is Some,
        crate::dirs::within(cwd->0, v.entries[i].cwd->0),
        v.entries[j].cwd is None || !crate::dirs::within(cwd->0, v.entries[j].cwd->0),
    ensures
        v.match_of(q, cwd, i)->0.score > v.match_of(q, cwd, j)->0.score,
{
}

/// Better matches come first, and the later of two commands that match as well.
pub proof fn law_matches_are_ranked(
    v: Seq<MatchView>,
    r: Seq<MatchView>,
    m: MatchView,
    i: int,
    j: int,
)
    requires
        v.len() <= usize::MAX,
        stable_sorted(v, r, rank_order()),
        0 <= i < j < r.len(),
    ensures
        r[i].score >= r[j].score,
        r[i].score == r[j].score ==> r[i].idx >= r[j].idx,
        r.len() == v.len(),
        r.contains(m) == v.contains(m),
{
    law_sort_permutes(v, r, rank_order());
    broadcast use group_to_multiset_ensures;

    assert(r.to_multiset().count(m) == v.to_multiset().count(m));
}

/// Entry `i` is shown in this session, and this is its match.
pub open spec fn shown_match(
    v: HistoryView,
    q: Seq<char>,
    cwd: Option<Seq<char>>,
    i: int,
    m: MatchView,
) -> bool {
    &&& v.entries[i].local || v.entries[i].timestamp <= v.session_cutoff
    &&& v.match_of(q, cwd, i) == Some(m)
}

/// Every command of the session that matches is among the matches, and nothing else.
pub proof fn law_matches_are_visible(
    v: HistoryView,
    q: Seq<char>,
    cwd: Option<Seq<char>>,
    n: int,
    m: MatchView,
)
    requires
        0 <= n <= v.entries.len(),
    ensures
        v.matches_of(q, cwd, n).contains(m) <==> exists|i: int|
            0 <= i < n && #[trigger] shown_match(v, q, cwd, i, m),
    decreases n,
{
    let r = v.matches_of(q, cwd, n);
    if n > 0 {
        law_matches_are_visible(v, q, cwd, n - 1, m);
        let rest = v.matches_of(q, cwd, n - 1);
        if r.contains(m) {
            let k = choose|k: int| 0 <= k < r.len() && r[k] == m;
            let d = r.len() - rest.len();
            if k >= d {
                assert(rest[k - d] == m);
                assert(rest.contains(m));
            } else {
                assert(shown_match(v, q, cwd, n - 1, m));
            }
        }
        if exists|i: int|
            0 <= i < n && #[trigger] shown_match(v, q, cwd, i, m) {
            let i = choose|i: int|
                0 <= i < n && #[trigger] shown_match(v, q, cwd, i, m);
            if i == n - 1 {
                assert(r[0] == m);
            } else {
                assert(rest.contains(m));
                let k = choose|k: int| 0 <= k < rest.len() && rest[k] == m;
                assert(r[k + (r.len() - rest.len())] == m);
            }
        }
    }
}

// -- Directories --

/// The sum of the weights of the visits of a directory among the first `n` commands: the first
/// command weighs 1, and each one more than the one before it.
pub open spec fn visits(
    entries: Seq<Seq<char>>,
    home: Seq<char>,
    path: Seq<char>,
    n: int,
) -> int
    decreases n,
{
    if n <= 0 {
        0
    } else {
        visits(entries, home, path, n - 1) + if visited(entries[n - 1], home) == Some(path) {
            n
        } else {
            0
        }
    }
}

proof fn lemma_place(v: Seq<CandidateView>, path: Seq<char>, i: int)
    requires
        0 <= i,
    ensures
        match place_of(v, path, i) {
            Some(k) => i <= k < v.len() && v[k].path == path && forall|j: int|
                i <= j < k ==> (#[trigger] v[j]).path != path,
            None => forall|j: int| i <= j < v.len() ==> (#[trigger] v[j]).path != path,
        },
    decreases v.len() - i,
{
    if i < v.len() && v[i].path != path {
        lemma_place(v, path, i + 1);
    }
}

/// A directory is in a list at `k`.
pub open spec fn lists_at(s: Seq<CandidateView>, path: Seq<char>, k: int) -> bool {
    0 <= k < s.len() && s[k].path == path
}

/// Every directory that was visited is listed once, with the sum of the weights of its visits, and
/// no other is.
pub proof fn law_scores(entries: Seq<Seq<char>>, home: Seq<char>, path: Seq<char>, n: int)
    requires
        0 <= n <= entries.len(),
    ensures
        ({
            let s = scores(entries, home, n);
            let sum = visits(entries, home, path, n);
            &&& sum >= 0
            &&& sum > 0 ==> exists|k: int| lists_at(s, path, k)
            &&& forall|k: int| lists_at(s, path, k) ==> sum > 0 && s[k].score == sum
            &&& forall|j: int, k: int|
                #![trigger lists_at(s, path, j), lists_at(s, path, k)]
                lists_at(s, path, j) && lists_at(s, path, k) ==> j == k
        }),
    decreases n,
{
    if n > 0 {
        law_scores(entries, home, path, n - 1);
        let before = scores(entries, home, n - 1);
        let s = scores(entries, home, n);
        match visited(entries[n - 1], home) {
            Some(p) => {
                lemma_place(before, p, 0);
                match place_of(before, p, 0) {
                    Some(i) => {
                        assert(forall|k: int|
                            #[trigger] lists_at(s, path, k) == lists_at(before, path, k));
                        if path == p {
                            assert(lists_at(before, path, i));
                            assert(lists_at(s, path, i));
                        } else if visits(entries, home, path, n) > 0 {
                            let k = choose|k: int| lists_at(before, path, k);
                            assert(lists_at(s, path, k));
                        }
                        assert forall|k: int| lists_at(s, path, k) implies visits(
                            entries,
                            home,
                            path,
                            n,
                        ) > 0 && s[k].score == visits(entries, home, path, n) by {
                            assert(lists_at(before, path, k));
                        }
                    },
                    None => {
                        let last = before.len() as int;
                        assert(s == before.push(CandidateView { path: p, score: n }));
                        assert(forall|k: int|
                            k != last ==> #[trigger] lists_at(s, path, k) == lists_at(
                                before,
                                path,
                                k,
                            ));
                        if path == p {
                            assert(forall|k: int| !lists_at(before, path, k)) by {
                                assert forall|k: int| !lists_at(before, path, k) by {
                                    if lists_at(before, path, k) {
                                        assert(before[k].path != p);
                                    }
                                }
                            }
                            assert(lists_at(s, path, last));
                        } else if visits(entries, home, path, n) > 0 {
                            let k = choose|k: int| lists_at(before, path, k);
                            assert(lists_at(s, path, k));
                        }
                        assert forall|k: int| lists_at(s, path, k) implies visits(
                            entries,
                            home,
                            path,
                            n,
                        ) > 0 && s[k].score == visits(entries, home, path, n) by {
                            if k != last {
                                assert(lists_at(before, path, k));
                            }
                        }
                    },
                }
            },
            None => {},
        }
    }
}

/// `z` goes home without an argument, and to a directory that it is given; else to the first match
/// that exists.
pub proof fn law_z(
    args: Seq<Seq<char>>,
    home: Seq<char>,
    v: Seq<CandidateView>,
    there: Seq<bool>,
    i: int,
)
    requires
        args.len() > 0,
        0 <= i < v.len(),
        there.len() == v.len(),
        there[i],
        forall|j: int| 0 <= j < i ==> !#[trigger] there[j],
    ensures
        z_goes(Seq::empty(), false, home) == Some(home),
        z_goes(args, true, home) == Some(args[0]),
        z_goes(args, false, home) is None,
        first_existing(v, there, 0) == Some(v[i].path),
{
    lemma_first_existing(v, there, i, 0);
}

proof fn lemma_first_existing(v: Seq<CandidateView>, there: Seq<bool>, i: int, k: int)
    requires
        0 <= k <= i < v.len(),
        there.len() == v.len(),
        there[i],
        forall|j: int| 0 <= j < i ==> !#[trigger] there[j],
    ensures
        first_existing(v, there, k) == Some(v[i].path),
    decreases i - k,
{
    if k < i {
        assert(!there[k]);
        lemma_first_existing(v, there, i, k + 1);
    }
}

/// A directory matches a query where the query stands in its path, whatever the case of its
/// letters; all that match are found, the highest score first.
pub proof fn law_directories_match(
    v: Seq<CandidateView>,
    query: Seq<char>,
    r: Seq<CandidateView>,
    c: CandidateView,
    i: int,
    j: int,
)
    requires
        v.len() <= usize::MAX,
        stable_sorted(matching(v, query, v.len() as int), r, score_first()),
        0 <= i < j < r.len(),
    ensures
        r[i].score >= r[j].score,
        r.contains(c) <==> v.contains(c) && icase_contains(
            encode_utf8(c.path),
            encode_utf8(query),
        ),
{
    let m = matching(v, query, v.len() as int);
    lemma_matching(v, query, v.len() as int, c);
    law_sort_permutes(m, r, score_first());
    broadcast use group_to_multiset_ensures;

    assert(r.to_multiset().count(c) == m.to_multiset().count(c));
    assert(v.take(v.len() as int) =~= v);
}

proof fn lemma_matching(v: Seq<CandidateView>, query: Seq<char>, n: int, c: CandidateView)
    requires
        0 <= n <= v.len(),
    ensures
        matching(v, query, n).len() <= n,
        matching(v, query, n).contains(c) <==> v.take(n).contains(c) && matches_query(
            c.path,
            query,
        ),
    decreases n,
{
    let r = matching(v, query, n);
    if n > 0 {
        lemma_matching(v, query, n - 1, c);
        let b = matching(v, query, n - 1);
        if r.contains(c) {
            let k = choose|k: int| 0 <= k < r.len() && r[k] == c;
            if k < b.len() {
                assert(b[k] == c);
                assert(b.contains(c));
                let u = v.take(n - 1);
                let j = choose|j: int| 0 <= j < u.len() && u[j] == c;
                assert(v.take(n)[j] == c);
            } else {
                assert(v.take(n)[n - 1] == c);
            }
        }
        if v.take(n).contains(c) && matches_query(c.path, query) {
            let w = v.take(n);
            let k = choose|k: int| 0 <= k < w.len() && w[k] == c;
            if k < n - 1 {
                assert(v.take(n - 1)[k] == c);
                assert(b.contains(c));
                let j = choose|j: int| 0 <= j < b.len() && b[j] == c;
                assert(r[j] == c);
            } else {
                assert(r.last() == c);
            }
        }
    }
}

/// A text stands in another whatever the case of its letters: each byte is the same, or both are
/// the same letter.
pub proof fn law_case_does_not_matter(hay: Seq<u8>, needle: Seq<u8>, i: int, a: u8, b: u8)
    requires
        0 <= i,
        i + needle.len() <= hay.len(),
        hay.subrange(i, i + needle.len()) == needle,
    ensures
        icase_contains(hay, needle),
        'A' as u8 <= a <= 'Z' as u8 && b == a + 32 ==> icase_contains(seq![a], seq![b])
            && icase_contains(seq![b], seq![a]),
        a != b && !('A' as u8 <= a <= 'Z' as u8) && !('A' as u8 <= b <= 'Z' as u8)
            ==> !icase_contains(seq![a], seq![b]),
        needle.len() > hay.len() ==> !icase_contains(hay, needle),
{
    assert(icase_at(hay, needle, i)) by {
        assert forall|k: int| 0 <= k < needle.len() implies lower_byte(#[trigger] hay[i + k])
            == lower_byte(needle[k]) by {
            assert(hay.subrange(i, i + needle.len())[k] == hay[i + k]);
        }
    }
    if 'A' as u8 <= a <= 'Z' as u8 && b == a + 32 {
        assert(icase_at(seq![a], seq![b], 0));
        assert(icase_at(seq![b], seq![a], 0));
    }
    if a != b && !('A' as u8 <= a <= 'Z' as u8) && !('A' as u8 <= b <= 'Z' as u8) {
        if icase_contains(seq![a], seq![b]) {
            let k = choose|k: int| icase_at(seq![a], seq![b], k);
            assert(k == 0);
            assert(lower_byte(seq![a][k + 0]) == lower_byte(seq![b][0]));
        }
    }
}

// -- Files --

proof fn lemma_collected(v: Seq<WalkView>, pattern: Seq<char>, cap: int, i: int, k: int)
    requires
        0 <= i,
        v.len() <= usize::MAX,
        cap >= v.len(),
        0 <= k < v.len(),
    ensures
        collected(v, pattern, cap, i).contains(k as usize) <==> i <= k && v[k].depth != 0
            && name_matches(v[k], pattern),
        collected(v, pattern, cap, i).len() <= v.len() - i || i > v.len(),
    decreases v.len() - i,
{
    let r = collected(v, pattern, cap, i);
    if i < v.len() {
        if v[i].depth != 0 && name_matches(v[i], pattern) {
            lemma_collected_rest(v, pattern, cap - 1, i + 1, k);
            let rest = collected(v, pattern, cap - 1, i + 1);
            if r.contains(k as usize) {
                let j = choose|j: int| 0 <= j < r.len() && r[j] == k as usize;
                if j > 0 {
                    assert(rest[j - 1] == k as usize);
                    assert(rest.contains(k as usize));
                }
            }
            if i == k {
                assert(r[0] == k as usize);
            } else if rest.contains(k as usize) {
                let j = choose|j: int| 0 <= j < rest.len() && rest[j] == k as usize;
                assert(r[j + 1] == k as usize);
            }
        } else {
            lemma_collected(v, pattern, cap, i + 1, k);
        }
    }
}

proof fn lemma_collected_rest(v: Seq<WalkView>, pattern: Seq<char>, cap: int, i: int, k: int)
    requires
        0 < i,
        v.len() <= usize::MAX,
        cap >= v.len() - i,
        0 <= k < v.len(),
    ensures
        collected(v, pattern, cap, i).contains(k as usize) <==> i <= k && v[k].depth != 0
            && name_matches(v[k], pattern),
        collected(v, pattern, cap, i).len() <= v.len() - i || i > v.len(),
    decreases v.len() - i,
{
    let r = collected(v, pattern, cap, i);
    if i < v.len() {
        let next = if v[i].depth != 0 && name_matches(v[i], pattern) {
            cap - 1
        } else {
            cap
        };
        lemma_collected_rest(v, pattern, next, i + 1, k);
        let rest = collected(v, pattern, next, i + 1);
        if v[i].depth != 0 && name_matches(v[i], pattern) {
            if r.contains(k as usize) {
                let j = choose|j: int| 0 <= j < r.len() && r[j] == k as usize;
                if j > 0 {
                    assert(rest[j - 1] == k as usize);
                    assert(rest.contains(k as usize));
                }
            }
            if i == k {
                assert(r[0] == k as usize);
            } else if rest.contains(k as usize) {
                let j = choose|j: int| 0 <= j < rest.len() && rest[j] == k as usize;
                assert(r[j + 1] == k as usize);
            }
        }
    }
}

/// Every file that was met whose name holds the query is a result, and nothing else is; the
/// results stand by depth, and by path where they are as deep.
pub proof fn law_files_are_found(
    v: Seq<WalkView>,
    query: Seq<char>,
    r: Seq<usize>,
    k: int,
    i: int,
    j: int,
)
    requires
        v.len() <= usize::MAX,
        picker_results(v, query, r),
        0 <= k < v.len(),
        0 <= i < j < r.len(),
    ensures
        v[k].depth != 0 && icase_contains(
            encode_utf8(crate::candidates::name_part(v[k].path)),
            encode_utf8(query),
        ) ==> files_at(v, r).contains(v[k]),
        v[r[i] as int].depth <= v[r[j] as int].depth,
        v[r[i] as int].depth == v[r[j] as int].depth ==> lex_le(
            v[r[i] as int].path,
            v[r[j] as int].path,
        ),
{
    let c = collected(v, query, usize::MAX as int, 0);
    lemma_collected(v, query, usize::MAX as int, 0, k);
    let f = files_at(v, c);
    let g = files_at(v, r);
    law_sort_permutes(f, g, depth_order());
    broadcast use group_to_multiset_ensures;

    if c.contains(k as usize) {
        let m = choose|m: int| 0 <= m < c.len() && c[m] == k as usize;
        assert(f[m] == v[k]);
        assert(f.contains(v[k]));
        assert(g.to_multiset().count(v[k]) == f.to_multiset().count(v[k]));
        assert(g.contains(v[k]));
    }
    assert(g[i] == v[r[i] as int] && g[j] == v[r[j] as int]);
}

} // verus!
