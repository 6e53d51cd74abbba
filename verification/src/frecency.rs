//! Jumping to directories that are visited often and of late (`z`). Scores come from the history
//! alone.
//!
//! The caller tells which directories exist and goes there.
use vstd::prelude::*;
use vstd::utf8::encode_utf8;

use crate::history::{texts, History};
use crate::rewrite::{argument_end, argument_len};
use crate::sort::{
    arranged, lemma_members, lemma_sorted_by_keys, lemma_sorted_members, order_of, stable_sorted,
    Ranked,
};
use crate::text::{
    chars_of, contains_icase, has_prefix_str, head_of, icase_contains, is_text, push_str,
    starts_with, str_eq, string_of, tail_of, trim_of, trim_start_of, trimmed, trimmed_start,
};

verus! {

// -- What was visited --

/// The directory that a `cd` or `z` line goes to: its first argument.
pub open spec fn cd_target(entry: Seq<char>) -> Option<Seq<char>> {
    let t = trimmed(entry);
    let rest = if starts_with(t, "cd "@) {
        Some(t.skip("cd "@.len() as int))
    } else if starts_with(t, "z "@) {
        Some(t.skip("z "@.len() as int))
    } else {
        None
    };
    match rest {
        None => None,
        Some(r) => {
            let a = trimmed_start(r);
            if argument_len(a) == 0 {
                None
            } else {
                Some(a.take(argument_len(a)))
            }
        },
    }
}

fn target_of(entry: &str) -> (r: Option<Vec<char>>)
    ensures
        (match r {
            Some(v) => Some(v@),
            None => None,
        }) == cd_target(entry@),
{
    let v = chars_of(entry);
    let t = trim_of(&v);
    let rest = if has_prefix_str(&t, "cd ") {
        let n = chars_of("cd ").len();
        tail_of(&t, n)
    } else if has_prefix_str(&t, "z ") {
        let n = chars_of("z ").len();
        tail_of(&t, n)
    } else {
        return None;
    };
    let a = trim_start_of(&rest);
    let n = argument_end(&a);
    if n == 0 {
        None
    } else {
        Some(head_of(&a, n))
    }
}

/// The directory that a `cd` or `z` line goes to.
pub fn extract_cd_target(entry: &str) -> (r: Option<String>)
    ensures
        (match r {
            Some(s) => Some(s@),
            None => None,
        }) == cd_target(entry@),
{
    match target_of(entry) {
        Some(v) => Some(string_of(v.as_slice())),
        None => None,
    }
}

/// The directory that an entry of the history visited. What starts with a dash names none.
pub open spec fn visited(entry: Seq<char>, home: Seq<char>) -> Option<Seq<char>> {
    match cd_target(entry) {
        None => None,
        Some(dir) => if dir[0] == '-' {
            None
        } else if starts_with(dir, "~/"@) {
            Some(home + "/"@ + dir.skip("~/"@.len() as int))
        } else if dir == "~"@ {
            Some(home)
        } else {
            Some(dir)
        },
    }
}

proof fn lemma_target_not_empty(entry: Seq<char>)
    ensures
        cd_target(entry) is Some ==> cd_target(entry)->0.len() > 0,
{
    let t = trimmed(entry);
    let a = trimmed_start(t.skip("cd "@.len() as int));
    let b = trimmed_start(t.skip("z "@.len() as int));
    lemma_argument_len(a);
    lemma_argument_len(b);
}

proof fn lemma_argument_len(s: Seq<char>)
    ensures
        0 <= argument_len(s) <= s.len(),
    decreases s.len(),
{
    if s.len() > 0 && !crate::rewrite::ends_argument(s[0]) {
        lemma_argument_len(s.drop_first());
    }
}

fn visited_dir(entry: &str, home: &str) -> (r: Option<String>)
    ensures
        (match r {
            Some(s) => Some(s@),
            None => None,
        }) == visited(entry@, home@),
{
    proof {
        lemma_target_not_empty(entry@);
    }
    match target_of(entry) {
        None => None,
        Some(dir) => {
            if dir[0] == '-' {
                None
            } else if has_prefix_str(&dir, "~/") {
                let n = chars_of("~/").len();
                let rest = tail_of(&dir, n);
                let mut out = chars_of(home);
                push_str(&mut out, "/");
                crate::text::push_all(&mut out, rest.as_slice());
                Some(string_of(out.as_slice()))
            } else if is_text(&dir, "~") {
                Some(string_of(chars_of(home).as_slice()))
            } else {
                Some(string_of(dir.as_slice()))
            }
        },
    }
}

// -- Scores --

/// A directory and its score.
pub struct Candidate {
    pub path: String,
    pub score: u128,
}

#[verifier::ext_equal]
pub struct CandidateView {
    pub path: Seq<char>,
    pub score: int,
}

impl View for Candidate {
    type V = CandidateView;

    open spec fn view(&self) -> CandidateView {
        CandidateView { path: self.path@, score: self.score as int }
    }
}

pub open spec fn candidate_views(v: Seq<Candidate>) -> Seq<CandidateView> {
    Seq::new(v.len(), |i: int| v[i]@)
}

/// Where a directory stands in the list, from `i` on.
pub open spec fn place_of(v: Seq<CandidateView>, path: Seq<char>, i: int) -> Option<int>
    decreases v.len() - i,
{
    if i >= v.len() {
        None
    } else if v[i].path == path {
        Some(i)
    } else {
        place_of(v, path, i + 1)
    }
}

/// The list with a visit added to it.
pub open spec fn with_visit(v: Seq<CandidateView>, path: Seq<char>, weight: int) -> Seq<
    CandidateView,
> {
    match place_of(v, path, 0) {
        Some(i) => v.update(i, CandidateView { path, score: v[i].score + weight }),
        None => v.push(CandidateView { path, score: weight }),
    }
}

/// The directories that the first `n` entries of the history visited, each with the sum of the
/// weights of its visits. Later visits weigh more.
pub open spec fn scores(entries: Seq<Seq<char>>, home: Seq<char>, n: int) -> Seq<CandidateView>
    decreases n,
{
    if n <= 0 {
        Seq::empty()
    } else {
        let before = scores(entries, home, n - 1);
        match visited(entries[n - 1], home) {
            Some(path) => with_visit(before, path, n),
            None => before,
        }
    }
}

fn find_place(v: &Vec<Candidate>, path: &str) -> (r: Option<usize>)
    ensures
        (match r {
            Some(i) => Some(i as int),
            None => None,
        }) == place_of(candidate_views(v@), path@, 0),
        r is Some ==> r->0 < v.len() && v@[r->0 as int].path@ == path@,
{
    let ghost cv = candidate_views(v@);
    let mut i: usize = 0;
    while i < v.len()
        invariant
            i <= v.len(),
            cv == candidate_views(v@),
            place_of(cv, path@, 0) == place_of(cv, path@, i as int),
        decreases v.len() - i,
    {
        assert(cv[i as int] == v@[i as int]@);
        if str_eq(v[i].path.as_str(), path) {
            return Some(i);
        }
        i += 1;
    }
    None
}

fn score_history(history: &History, home: &str) -> (r: Vec<Candidate>)
    ensures
        candidate_views(r@) == scores(
            texts(history@.entries),
            home@,
            history@.entries.len() as int,
        ),
{
    let n = history.len();
    let ghost all = texts(history@.entries);
    let mut out: Vec<Candidate> = Vec::new();
    let mut i: usize = 0;
    assert(candidate_views(out@) =~= Seq::empty());
    while i < n
        invariant
            i <= n == history@.entries.len(),
            all == texts(history@.entries),
            candidate_views(out@) == scores(all, home@, i as int),
            forall|k: int|
                0 <= k < out.len() ==> (#[trigger] out@[k]).score <= i * 0xffff_ffff_ffff_ffff,
        decreases n - i,
    {
        let entry = history.get(i);
        assert(all[i as int] == entry@);
        match visited_dir(entry, home) {
            Some(path) => {
                let ghost had = candidate_views(out@);
                let weight: u128 = i as u128 + 1;
                match find_place(&out, path.as_str()) {
                    Some(k) => {
                        assert(out@[k as int].score <= i * 0xffff_ffff_ffff_ffff);
                        let score = out[k].score + weight;
                        let ghost pv = path@;
                        out.set(k, Candidate { path, score });
                        assert(candidate_views(out@) =~= had.update(
                            k as int,
                            CandidateView { path: pv, score: had[k as int].score + weight },
                        ));
                    },
                    None => {
                        let ghost pv = path@;
                        out.push(Candidate { path, score: weight });
                        assert(candidate_views(out@) =~= had.push(
                            CandidateView { path: pv, score: weight as int },
                        ));
                    },
                }
            },
            None => {},
        }
        i += 1;
    }
    out
}

// -- Matches --

/// Whether a directory matches a query: the query stands in its path, whatever the case of ASCII
/// letters.
pub open spec fn matches_query(path: Seq<char>, query: Seq<char>) -> bool {
    icase_contains(encode_utf8(path), encode_utf8(query))
}

/// The directories among the first `n` that match a query.
pub open spec fn matching(v: Seq<CandidateView>, query: Seq<char>, n: int) -> Seq<CandidateView>
    decreases n,
{
    if n <= 0 {
        Seq::empty()
    } else if matches_query(v[n - 1].path, query) {
        matching(v, query, n - 1).push(v[n - 1])
    } else {
        matching(v, query, n - 1)
    }
}

/// Higher scores come first.
pub open spec fn score_first() -> spec_fn(CandidateView, CandidateView) -> bool {
    |a: CandidateView, b: CandidateView| a.score >= b.score
}

struct Descending(u128);

impl Ranked for Descending {
    closed spec fn at_most(&self, other: &Self) -> bool {
        self.0 >= other.0
    }

    proof fn at_most_total(a: &Self, b: &Self) {
    }

    proof fn at_most_transitive(a: &Self, b: &Self, c: &Self) {
    }

    fn is_at_most(&self, other: &Self) -> (r: bool) {
        self.0 >= other.0
    }
}

fn by_score(v: &Vec<Candidate>) -> (r: Vec<Candidate>)
    ensures
        stable_sorted(candidate_views(v@), candidate_views(r@), score_first()),
{
    let n = v.len();
    let mut keys: Vec<Descending> = Vec::new();
    let mut i: usize = 0;
    while i < n
        invariant
            i <= n == v.len(),
            keys.len() == i,
            forall|k: int| 0 <= k < i ==> (#[trigger] keys@[k]).0 == v@[k].score,
        decreases n - i,
    {
        keys.push(Descending(v[i].score));
        i += 1;
    }
    let o = order_of(&keys);
    let ghost cv = candidate_views(v@);
    proof {
        lemma_members(o@, 0, n as int);
        assert forall|i: int, j: int|
            #![trigger keys@[i], keys@[j]]
            0 <= i < cv.len() && 0 <= j < cv.len() implies keys@[i].at_most(&keys@[j])
            == score_first()(cv[i], cv[j]) by {
            assert(cv[i] == v@[i]@ && cv[j] == v@[j]@);
        }
        lemma_sorted_by_keys(keys@, cv, o@, score_first());
    }
    let mut out: Vec<Candidate> = Vec::new();
    let mut j: usize = 0;
    while j < o.len()
        invariant
            j <= o.len(),
            out.len() == j,
            forall|a: int| 0 <= a < o.len() ==> (#[trigger] o@[a]) < v.len(),
            forall|a: int| 0 <= a < j ==> (#[trigger] out@[a])@ == v@[o@[a] as int]@,
        decreases o.len() - j,
    {
        let c = &v[o[j]];
        out.push(Candidate { path: c.path.clone(), score: c.score });
        j += 1;
    }
    assert(candidate_views(out@) =~= arranged(cv, o@));
    out
}

/// The directories of the history that match a query, the highest score first, equal ones in the
/// order of their first visit.
pub fn candidates(query: &str, history: &History, home: &str) -> (r: Vec<Candidate>)
    ensures
        ({
            let all = scores(texts(history@.entries), home@, history@.entries.len() as int);
            stable_sorted(
                matching(all, query@, all.len() as int),
                candidate_views(r@),
                score_first(),
            )
        }),
{
    let all = score_history(history, home);
    let ghost av = candidate_views(all@);
    assert(av.len() == all@.len());
    let mut found: Vec<Candidate> = Vec::new();
    let mut i: usize = 0;
    assert(candidate_views(found@) =~= Seq::empty());
    while i < all.len()
        invariant
            i <= all.len(),
            av == candidate_views(all@),
            candidate_views(found@) == matching(av, query@, i as int),
        decreases all.len() - i,
    {
        assert(av[i as int] == all@[i as int]@);
        if contains_icase(all[i].path.as_str().as_bytes(), query.as_bytes()) {
            let ghost had = candidate_views(found@);
            found.push(Candidate { path: all[i].path.clone(), score: all[i].score });
            assert(candidate_views(found@) =~= had.push(av[i as int]));
        }
        i += 1;
    }
    by_score(&found)
}

// -- Steps --

/// What `z` does.
pub enum ZStep {
    /// It goes to a directory.
    Go(String),
    /// It goes to the first of some directories that exists.
    Choose(Vec<Candidate>),
}

/// The directory that `z` goes to without looking at the history.
pub open spec fn z_goes(args: Seq<Seq<char>>, is_dir: bool, home: Seq<char>) -> Option<Seq<char>> {
    if args.len() == 0 {
        Some(home)
    } else if is_dir {
        Some(args[0])
    } else {
        None
    }
}

/// What `z` does. Without an argument it goes home, with a directory there, else to the best
/// match of the history. `is_dir` tells whether the first argument is a directory.
pub fn builtin_z(args: &[String], is_dir: bool, history: &History, home: &str) -> (r: ZStep)
    requires
        args.len() > 0 && !is_dir && args@[0]@.len() == 0 ==> scores(
            texts(history@.entries),
            home@,
            history@.entries.len() as int,
        ).len() == 0,
    ensures
        (match r {
            ZStep::Go(dir) => Some(dir@),
            ZStep::Choose(_) => None,
        }) == z_goes(crate::text::strs(args@), is_dir, home@),
        match r {
            ZStep::Go(dir) => if args@.len() == 0 {
                dir@ == home@
            } else {
                is_dir && dir@ == args@[0]@
            },
            ZStep::Choose(found) => {
                let all = scores(texts(history@.entries), home@, history@.entries.len() as int);
                &&& args@.len() > 0
                &&& !is_dir
                &&& stable_sorted(
                    matching(all, args@[0]@, all.len() as int),
                    candidate_views(found@),
                    score_first(),
                )
            },
        },
{
    if args.len() == 0 {
        return ZStep::Go(string_of(chars_of(home).as_slice()));
    }
    if is_dir {
        return ZStep::Go(args[0].clone());
    }
    ZStep::Choose(candidates(args[0].as_str(), history, home))
}

/// The first candidate that exists.
pub open spec fn first_existing(v: Seq<CandidateView>, exists_at: Seq<bool>, i: int) -> Option<
    Seq<char>,
>
    decreases v.len() - i,
{
    if i >= v.len() {
        None
    } else if exists_at[i] {
        Some(v[i].path)
    } else {
        first_existing(v, exists_at, i + 1)
    }
}

/// The directory that `z` goes to, from which of the candidates exist.
pub fn z_target(found: &Vec<Candidate>, exists_at: &Vec<bool>) -> (r: Option<String>)
    requires
        exists_at.len() == found.len(),
    ensures
        (match r {
            Some(s) => Some(s@),
            None => None,
        }) == first_existing(candidate_views(found@), exists_at@, 0),
{
    let ghost v = candidate_views(found@);
    let mut i: usize = 0;
    while i < found.len()
        invariant
            i <= found.len(),
            exists_at.len() == found.len(),
            v == candidate_views(found@),
            first_existing(v, exists_at@, 0) == first_existing(v, exists_at@, i as int),
        decreases found.len() - i,
    {
        assert(v[i as int] == found@[i as int]@);
        if exists_at[i] {
            return Some(found[i].path.clone());
        }
        i += 1;
    }
    None
}

/// What is said where nothing matches.
pub fn no_match(query: &str) -> (r: String)
    ensures
        r@ == "ish: z: no match for '"@ + query@ + "'\n"@,
{
    let mut out = chars_of("ish: z: no match for '");
    push_str(&mut out, query);
    push_str(&mut out, "'\n");
    string_of(out.as_slice())
}

// -- Laws --

proof fn lemma_matching(v: Seq<CandidateView>, query: Seq<char>, n: int)
    requires
        0 <= n <= v.len(),
    ensures
        matching(v, query, n).len() <= n,
        forall|i: int|
            0 <= i < matching(v, query, n).len() ==> matches_query(
                (#[trigger] matching(v, query, n)[i]).path,
                query,
            ),
    decreases n,
{
    if n > 0 {
        lemma_matching(v, query, n - 1);
        let before = matching(v, query, n - 1);
        let all = matching(v, query, n);
        assert forall|i: int| 0 <= i < all.len() implies matches_query(
            (#[trigger] all[i]).path,
            query,
        ) by {
            if i < before.len() {
                assert(all[i] == before[i]);
            }
        }
    }
}

proof fn lemma_scores_len(entries: Seq<Seq<char>>, home: Seq<char>, n: int)
    requires
        0 <= n,
    ensures
        scores(entries, home, n).len() <= n,
    decreases n,
{
    if n > 0 {
        lemma_scores_len(entries, home, n - 1);
        if let Some(path) = visited(entries[n - 1], home) {
            lemma_place_of(scores(entries, home, n - 1), path, 0);
        }
    }
}

/// Wherever `z` goes by a query, the query stands in the path.
pub proof fn law_candidates_match(
    entries: Seq<Seq<char>>,
    home: Seq<char>,
    query: Seq<char>,
    found: Seq<CandidateView>,
    i: int,
)
    requires
        0 <= i < found.len(),
        entries.len() <= usize::MAX,
        stable_sorted(
            matching(
                scores(entries, home, entries.len() as int),
                query,
                scores(entries, home, entries.len() as int).len() as int,
            ),
            found,
            score_first(),
        ),
    ensures
        matches_query(found[i].path, query),
{
    let all = scores(entries, home, entries.len() as int);
    let m = matching(all, query, all.len() as int);
    lemma_matching(all, query, all.len() as int);
    lemma_scores_len(entries, home, entries.len() as int);
    lemma_sorted_members(m, found, score_first());
    assert(m.contains(found[i]));
    let k = choose|k: int| 0 <= k < m.len() && m[k] == found[i];
    assert(matches_query(m[k].path, query));
}

/// One more visit to a directory raises its score, and leaves those of the others.
pub proof fn law_visit_raises_score(v: Seq<CandidateView>, path: Seq<char>, weight: int, i: int)
    requires
        weight > 0,
        0 <= i < v.len(),
    ensures
        ({
            let w = with_visit(v, path, weight);
            &&& w[i].path == v[i].path
            &&& w[i].score == v[i].score || w[i].score == v[i].score + weight
            &&& v[i].path != path ==> w[i].score == v[i].score
            &&& place_of(v, path, 0) == Some(i) ==> w[i].score == v[i].score + weight
        }),
{
    lemma_place_of(v, path, 0);
}

proof fn lemma_place_of(v: Seq<CandidateView>, path: Seq<char>, i: int)
    requires
        0 <= i <= v.len(),
    ensures
        match place_of(v, path, i) {
            Some(k) => i <= k < v.len() && v[k].path == path,
            None => true,
        },
    decreases v.len() - i,
{
    if i < v.len() && v[i].path != path {
        lemma_place_of(v, path, i + 1);
    }
}

} // verus!
