//! The file finder: which of the files below a directory match a pattern, the shallowest first.
//!
//! The caller walks the directory and hands over what it meets.
use vstd::prelude::*;
use vstd::utf8::*;

use crate::candidates::{name_part, split_path};
use crate::sort::{arranged, lemma_members, lemma_sorted_by_keys, order_of, stable_sorted, Ranked};
pub use crate::text::contains_icase;
use crate::text::{
    chars_le, chars_of, icase_contains, lemma_lex_total, lemma_lex_transitive, lex_le,
};

verus! {

/// A file met on a walk: how far below the start it stands (the start itself is at 0), and its
/// path below the start.
#[verifier::ext_equal]
pub struct WalkView {
    pub depth: int,
    pub path: Seq<char>,
}

pub open spec fn walk_views(v: Seq<(usize, String)>) -> Seq<WalkView> {
    Seq::new(v.len(), |i: int| WalkView { depth: v[i].0 as int, path: v[i].1@ })
}

/// Whether the name of a file holds the pattern, up to the case of ASCII letters.
pub open spec fn name_matches(e: WalkView, pattern: Seq<char>) -> bool {
    icase_contains(encode_utf8(name_part(e.path)), encode_utf8(pattern))
}

/// Shallow files first, in the order of their paths where they stand equally deep.
pub open spec fn depth_order() -> spec_fn(WalkView, WalkView) -> bool {
    |a: WalkView, b: WalkView| a.depth < b.depth || a.depth == b.depth && lex_le(a.path, b.path)
}

/// How many matches are collected for a number of results: more than are asked for, as the
/// shallow ones may come late.
pub open spec fn scan_cap(limit: int) -> int {
    let n = limit * 5;
    if n > usize::MAX {
        usize::MAX as int
    } else if n > 1000 {
        n
    } else {
        1000
    }
}

/// The places of the first `cap` files from `i` on that match, without the start of the walk.
pub open spec fn collected(v: Seq<WalkView>, pattern: Seq<char>, cap: int, i: int) -> Seq<usize>
    decreases v.len() - i,
{
    if i < 0 || i >= v.len() || cap <= 0 {
        Seq::empty()
    } else if v[i].depth != 0 && name_matches(v[i], pattern) {
        seq![i as usize] + collected(v, pattern, cap - 1, i + 1)
    } else {
        collected(v, pattern, cap, i + 1)
    }
}

/// The files at the given places.
pub open spec fn files_at(v: Seq<WalkView>, places: Seq<usize>) -> Seq<WalkView> {
    Seq::new(places.len(), |k: int| v[places[k] as int])
}

struct DepthKey {
    depth: usize,
    path: Vec<char>,
}

impl Ranked for DepthKey {
    closed spec fn at_most(&self, other: &Self) -> bool {
        self.depth < other.depth || self.depth == other.depth && lex_le(self.path@, other.path@)
    }

    proof fn at_most_total(a: &Self, b: &Self) {
        lemma_lex_total(a.path@, b.path@);
    }

    proof fn at_most_transitive(a: &Self, b: &Self, c: &Self) {
        if a.depth == b.depth && b.depth == c.depth {
            lemma_lex_transitive(a.path@, b.path@, c.path@);
        }
    }

    fn is_at_most(&self, other: &Self) -> (r: bool) {
        self.depth < other.depth || (self.depth == other.depth && chars_le(
            &self.path,
            &other.path,
        ))
    }
}

fn is_name_match(path: &str, pattern: &str) -> (r: bool)
    ensures
        forall|depth: int| r == #[trigger] name_matches(WalkView { depth, path: path@ }, pattern@),
{
    contains_icase(split_path(path).1.as_bytes(), pattern.as_bytes())
}

proof fn lemma_collected(v: Seq<WalkView>, pattern: Seq<char>, cap: int, i: int)
    requires
        0 <= i <= v.len() <= usize::MAX,
    ensures
        forall|k: int|
            0 <= k < collected(v, pattern, cap, i).len() ==> i <= (#[trigger] collected(
                v,
                pattern,
                cap,
                i,
            )[k]) < v.len(),
    decreases v.len() - i,
{
    if i < v.len() && cap > 0 {
        if v[i].depth != 0 && name_matches(v[i], pattern) {
            lemma_collected(v, pattern, cap - 1, i + 1);
            let rest = collected(v, pattern, cap - 1, i + 1);
            let all = collected(v, pattern, cap, i);
            assert forall|k: int| 0 <= k < all.len() implies i <= (#[trigger] all[k]) < v.len() by {
                if k > 0 {
                    assert(all[k] == rest[k - 1]);
                }
            }
        } else {
            lemma_collected(v, pattern, cap, i + 1);
            let all = collected(v, pattern, cap, i);
            assert(all == collected(v, pattern, cap, i + 1));
            assert forall|k: int| 0 <= k < all.len() implies i <= (#[trigger] all[k]) < v.len() by {
            }
        }
    } else {
        assert(collected(v, pattern, cap, i).len() == 0);
    }
}

fn collect(entries: &Vec<(usize, String)>, pattern: &str, cap: usize) -> (r: Vec<usize>)
    ensures
        r@ == collected(walk_views(entries@), pattern@, cap as int, 0),
        forall|k: int| 0 <= k < r.len() ==> (#[trigger] r@[k]) < entries.len(),
{
    let n = entries.len();
    let ghost wv = walk_views(entries@);
    let ghost goal = collected(wv, pattern@, cap as int, 0);
    proof {
        lemma_collected(wv, pattern@, cap as int, 0);
    }
    let mut out: Vec<usize> = Vec::new();
    let mut i: usize = 0;
    assert(out@ + goal =~= goal);
    while i < n && out.len() < cap
        invariant
            i <= n,
            n == entries.len(),
            wv == walk_views(entries@),
            out.len() <= cap,
            goal == out@ + collected(wv, pattern@, cap - out.len(), i as int),
        decreases n - i,
    {
        let path = entries[i].1.as_str();
        assert(wv[i as int] == WalkView { depth: entries@[i as int].0 as int, path: path@ });
        if entries[i].0 != 0 && is_name_match(path, pattern) {
            let ghost had = out@;
            out.push(i);
            let ghost rest = collected(wv, pattern@, cap - out.len(), i + 1);
            assert(had + (seq![i] + rest) =~= out@ + rest);
        }
        i += 1;
    }
    assert(out@ + Seq::<usize>::empty() =~= out@);
    out
}

/// Sorts places by depth and path.
fn by_depth(entries: &Vec<(usize, String)>, places: &Vec<usize>) -> (r: Vec<usize>)
    requires
        forall|k: int| 0 <= k < places.len() ==> (#[trigger] places@[k]) < entries.len(),
    ensures
        stable_sorted(
            files_at(walk_views(entries@), places@),
            files_at(walk_views(entries@), r@),
            depth_order(),
        ),
        r.len() == places.len(),
        forall|k: int| 0 <= k < r.len() ==> (#[trigger] r@[k]) < entries.len(),
{
    let ghost wv = walk_views(entries@);
    let ghost fv = files_at(wv, places@);
    let mut keys: Vec<DepthKey> = Vec::new();
    let mut i: usize = 0;
    while i < places.len()
        invariant
            i <= places.len(),
            keys.len() == i,
            wv == walk_views(entries@),
            fv == files_at(wv, places@),
            forall|k: int| 0 <= k < places.len() ==> (#[trigger] places@[k]) < entries.len(),
            forall|k: int|
                0 <= k < i ==> (#[trigger] keys@[k]).depth == fv[k].depth && keys@[k].path@
                    == fv[k].path,
        decreases places.len() - i,
    {
        let e = &entries[places[i]];
        assert(fv[i as int] == wv[places@[i as int] as int]);
        keys.push(DepthKey { depth: e.0, path: chars_of(e.1.as_str()) });
        i += 1;
    }
    let n = places.len();
    let o = order_of(&keys);
    proof {
        lemma_members(o@, 0, n as int);
        lemma_sorted_by_keys(keys@, fv, o@, depth_order());
    }
    let mut out: Vec<usize> = Vec::new();
    let mut k: usize = 0;
    while k < o.len()
        invariant
            k <= o.len(),
            o.len() == n,
            n == places.len(),
            forall|a: int| 0 <= a < o.len() ==> (#[trigger] o@[a]) < n,
            forall|a: int| 0 <= a < places.len() ==> (#[trigger] places@[a]) < entries.len(),
            out.len() == k,
            forall|a: int|
                0 <= a < k ==> (#[trigger] out@[a]) == places@[o@[a] as int] && out@[a]
                    < entries.len(),
        decreases o.len() - k,
    {
        out.push(places[o[k]]);
        k += 1;
    }
    assert(files_at(wv, out@) =~= arranged(fv, o@));
    out
}

/// The first `limit` paths of sorted files.
pub open spec fn first_paths(v: Seq<WalkView>, limit: int) -> Seq<Seq<char>> {
    Seq::new(
        (if v.len() <= limit {
            v.len() as int
        } else {
            limit
        }) as nat,
        |i: int| v[i].path,
    )
}

/// Search for files whose name contains `pattern` (case-insensitive substring).
///
/// - `entries`: what a walk met, in its order
/// - `pattern`: substring to match against filenames
/// - `limit`: maximum number of results to return
///
/// Results are sorted by depth (shallowest first) so shallow matches appear
/// before deep ones. This prevents a deep directory like `target/debug/deps/`
/// from flooding results before showing nearby files.
pub fn find(entries: &Vec<(usize, String)>, pattern: &str, limit: usize) -> (r: Vec<String>)
    ensures
        exists|sorted: Seq<WalkView>|
            {
                &&& #[trigger] stable_sorted(
                    files_at(
                        walk_views(entries@),
                        collected(walk_views(entries@), pattern@, scan_cap(limit as int), 0),
                    ),
                    sorted,
                    depth_order(),
                )
                &&& crate::text::strs(r@) == first_paths(sorted, limit as int)
            },
{
    let five: usize = if limit > usize::MAX / 5 {
        usize::MAX
    } else {
        limit * 5
    };
    let cap: usize = if five > 1000 {
        five
    } else {
        1000
    };
    assert(cap == scan_cap(limit as int));
    let places = collect(entries, pattern, cap);
    let order = by_depth(entries, &places);
    let ghost sorted = files_at(walk_views(entries@), order@);
    let mut out: Vec<String> = Vec::new();
    let mut i: usize = 0;
    while i < order.len() && i < limit
        invariant
            i <= order.len(),
            i <= limit,
            out.len() == i,
            sorted == files_at(walk_views(entries@), order@),
            forall|k: int| 0 <= k < order.len() ==> (#[trigger] order@[k]) < entries.len(),
            forall|k: int| 0 <= k < i ==> (#[trigger] out@[k])@ == sorted[k].path,
        decreases order.len() - i,
    {
        out.push(entries[order[i]].1.clone());
        i += 1;
    }
    assert(crate::text::strs(out@) =~= first_paths(sorted, limit as int));
    out
}

/// No more results than asked for, and no result stands deeper than one after it.
pub proof fn law_results_bounded(v: Seq<WalkView>, sorted: Seq<WalkView>, limit: int, i: int, j: int)
    requires
        stable_sorted(v, sorted, depth_order()),
        0 <= limit,
        0 <= i < j < sorted.len(),
    ensures
        first_paths(sorted, limit).len() <= limit,
        sorted[i].depth <= sorted[j].depth,
{
}

// -- The picker --

/// The results of the picker: the files whose name holds the query, as places among all files
/// met so far.
pub open spec fn picker_results(v: Seq<WalkView>, query: Seq<char>, r: Seq<usize>) -> bool {
    stable_sorted(
        files_at(v, collected(v, query, usize::MAX as int, 0)),
        files_at(v, r),
        depth_order(),
    )
}

/// The selection kept within the results.
pub open spec fn kept_selection(selected: int, n: int) -> int {
    if selected < n {
        selected
    } else {
        0
    }
}

/// Filters the files met so far by the query. The selection stays where it is within the
/// results.
pub fn filter_entries(
    query: &str,
    all_entries: &Vec<(usize, String)>,
    filtered: &mut Vec<usize>,
    selected: &mut usize,
)
    ensures
        picker_results(walk_views(all_entries@), query@, final(filtered)@),
        *final(selected) == kept_selection(*old(selected) as int, final(filtered)@.len() as int),
        forall|k: int|
            0 <= k < final(filtered)@.len() ==> (#[trigger] final(filtered)@[k])
                < all_entries.len(),
{
    let places = collect(all_entries, query, usize::MAX);
    *filtered = by_depth(all_entries, &places);
    if *selected >= filtered.len() {
        *selected = 0;
    }
}

} // verus!
