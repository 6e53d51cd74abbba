//! A stable merge sort that yields the order of the elements as a list of indices.
use vstd::prelude::*;
use vstd::multiset::*;
use vstd::seq_lib::*;

use crate::text::{chars_le, chars_of, lemma_lex_total, lemma_lex_transitive, lex_le, strs};

verus! {

/// A type with a total preorder.
pub trait Ranked {
    spec fn at_most(&self, other: &Self) -> bool;

    proof fn at_most_total(a: &Self, b: &Self)
        ensures
            a.at_most(b) || b.at_most(a),
    ;

    proof fn at_most_transitive(a: &Self, b: &Self, c: &Self)
        requires
            a.at_most(b),
            b.at_most(c),
        ensures
            a.at_most(c),
    ;

    fn is_at_most(&self, other: &Self) -> (r: bool)
        ensures
            r == self.at_most(other),
    ;
}

/// The element at `i` comes before the element at `j`: it is smaller, or neither is and it
/// stood before it.
pub open spec fn precedes<T: Ranked>(v: Seq<T>, i: int, j: int) -> bool {
    v[i].at_most(&v[j]) && (v[j].at_most(&v[i]) ==> i < j)
}

/// The indices `r` list elements of `v` in ascending order, equal ones as they stood.
pub open spec fn ascending<T: Ranked>(v: Seq<T>, r: Seq<usize>) -> bool {
    forall|a: int, b: int|
        #![trigger r[a], r[b]]
        0 <= a < b < r.len() ==> precedes(v, r[a] as int, r[b] as int)
}

/// The numbers from `lo` up to but not including `hi`.
pub open spec fn range(lo: int, hi: int) -> Seq<usize> {
    Seq::new((hi - lo) as nat, |k: int| (lo + k) as usize)
}

/// `r` lists the indices of `v` in the order of a stable sort.
pub open spec fn is_order<T: Ranked>(v: Seq<T>, r: Seq<usize>) -> bool {
    &&& r.to_multiset() == range(0, v.len() as int).to_multiset()
    &&& ascending(v, r)
}

proof fn lemma_precedes_transitive<T: Ranked>(v: Seq<T>, i: int, j: int, k: int)
    requires
        precedes(v, i, j),
        precedes(v, j, k),
    ensures
        precedes(v, i, k),
{
    T::at_most_transitive(&v[i], &v[j], &v[k]);
    if v[k].at_most(&v[i]) {
        T::at_most_transitive(&v[k], &v[i], &v[j]);
        T::at_most_transitive(&v[j], &v[k], &v[i]);
    }
}

/// Every index in a list with the same multiset is in the range.
pub proof fn lemma_members(r: Seq<usize>, lo: int, hi: int)
    requires
        0 <= lo <= hi <= usize::MAX,
        r.to_multiset() == range(lo, hi).to_multiset(),
    ensures
        r.len() == hi - lo,
        forall|a: int| 0 <= a < r.len() ==> lo <= #[trigger] r[a] < hi,
{
    broadcast use group_to_multiset_ensures;

    assert(r.len() == r.to_multiset().len());
    assert(range(lo, hi).len() == range(lo, hi).to_multiset().len());
    assert forall|a: int| 0 <= a < r.len() implies lo <= #[trigger] r[a] < hi by {
        assert(r.contains(r[a]));
        assert(r.to_multiset().count(r[a]) > 0);
        assert(range(lo, hi).contains(r[a]));
    }
}

/// The order of the elements from `lo` to `hi`.
fn order_range<T: Ranked>(v: &Vec<T>, lo: usize, hi: usize) -> (r: Vec<usize>)
    requires
        lo <= hi <= v.len(),
    ensures
        r@.to_multiset() == range(lo as int, hi as int).to_multiset(),
        ascending(v@, r@),
    decreases hi - lo,
{
    if hi - lo <= 1 {
        let mut r: Vec<usize> = Vec::new();
        if lo < hi {
            r.push(lo);
        }
        assert(r@ =~= range(lo as int, hi as int));
        return r;
    }
    let mid = lo + (hi - lo) / 2;
    let a = order_range(v, lo, mid);
    let b = order_range(v, mid, hi);
    proof {
        lemma_members(a@, lo as int, mid as int);
        lemma_members(b@, mid as int, hi as int);
    }
    let r = merge(v, &a, &b, mid);
    proof {
        lemma_multiset_commutative(
            range(lo as int, mid as int),
            range(mid as int, hi as int),
        );
        assert(range(lo as int, mid as int) + range(mid as int, hi as int) =~= range(
            lo as int,
            hi as int,
        ));
    }
    r
}

/// Merges two ascending lists, the first of smaller indices than the second.
fn merge<T: Ranked>(v: &Vec<T>, a: &Vec<usize>, b: &Vec<usize>, mid: usize) -> (r: Vec<usize>)
    requires
        ascending(v@, a@),
        ascending(v@, b@),
        forall|i: int| 0 <= i < a.len() ==> (#[trigger] a@[i]) < mid,
        forall|i: int| 0 <= i < b.len() ==> mid <= (#[trigger] b@[i]) < v.len(),
        mid <= v.len(),
    ensures
        ascending(v@, r@),
        r@.to_multiset() == a@.to_multiset().add(b@.to_multiset()),
{
    let mut r: Vec<usize> = Vec::new();
    let mut i: usize = 0;
    let mut j: usize = 0;
    proof {
        assert(a@.take(0) =~= Seq::<usize>::empty());
        assert(b@.take(0) =~= Seq::<usize>::empty());
        broadcast use group_to_multiset_ensures;

        assert(r@.to_multiset() =~= a@.take(0).to_multiset().add(b@.take(0).to_multiset()));
    }
    while i < a.len() || j < b.len()
        invariant
            i <= a.len(),
            j <= b.len(),
            mid <= v.len(),
            ascending(v@, a@),
            ascending(v@, b@),
            forall|k: int| 0 <= k < a.len() ==> (#[trigger] a@[k]) < mid,
            forall|k: int| 0 <= k < b.len() ==> mid <= (#[trigger] b@[k]) < v.len(),
            ascending(v@, r@),
            forall|p: int, k: int|
                #![trigger r@[p], a@[k]]
                0 <= p < r.len() && i <= k < a.len() ==> precedes(v@, r@[p] as int, a@[k] as int),
            forall|p: int, k: int|
                #![trigger r@[p], b@[k]]
                0 <= p < r.len() && j <= k < b.len() ==> precedes(v@, r@[p] as int, b@[k] as int),
            r@.to_multiset() == a@.take(i as int).to_multiset().add(
                b@.take(j as int).to_multiset(),
            ),
        decreases a.len() - i + b.len() - j,
    {
        let take_a = if i >= a.len() {
            false
        } else if j >= b.len() {
            true
        } else {
            v[a[i]].is_at_most(&v[b[j]])
        };
        broadcast use group_to_multiset_ensures;

        let ghost had = r@;
        if take_a {
            let x = a[i];
            r.push(x);
            proof {
                assert(a@.take(i + 1) =~= a@.take(i as int).push(x));
                assert(r@.to_multiset() =~= a@.take(i + 1).to_multiset().add(
                    b@.take(j as int).to_multiset(),
                ));
                assert forall|k: int| j <= k < b.len() implies precedes(
                    v@,
                    x as int,
                    (#[trigger] b@[k]) as int,
                ) by {
                    if k > j {
                        assert(precedes(v@, x as int, b@[j as int] as int));
                        lemma_precedes_transitive(
                            v@,
                            x as int,
                            b@[j as int] as int,
                            b@[k] as int,
                        );
                    }
                }
            }
            i += 1;
        } else {
            let x = b[j];
            r.push(x);
            proof {
                assert(b@.take(j + 1) =~= b@.take(j as int).push(x));
                assert(r@.to_multiset() =~= a@.take(i as int).to_multiset().add(
                    b@.take(j + 1).to_multiset(),
                ));
                if i < a.len() {
                    T::at_most_total(&v@[a@[i as int] as int], &v@[x as int]);
                }
                assert forall|k: int| i <= k < a.len() implies precedes(
                    v@,
                    x as int,
                    (#[trigger] a@[k]) as int,
                ) by {
                    if k > i {
                        assert(precedes(v@, x as int, a@[i as int] as int));
                        lemma_precedes_transitive(
                            v@,
                            x as int,
                            a@[i as int] as int,
                            a@[k] as int,
                        );
                    }
                }
            }
            j += 1;
        }
    }
    assert(a@.take(i as int) =~= a@);
    assert(b@.take(j as int) =~= b@);
    r
}

/// The indices of `v` in ascending order of their elements, equal ones as they stood.
pub fn order_of<T: Ranked>(v: &Vec<T>) -> (r: Vec<usize>)
    ensures
        is_order(v@, r@),
{
    order_range(v, 0, v.len())
}

/// The elements of `v` in the order `o`.
pub open spec fn arranged<A>(v: Seq<A>, o: Seq<usize>) -> Seq<A> {
    Seq::new(o.len(), |k: int| v[o[k] as int])
}

/// A list of all indices arranges all elements.
pub proof fn lemma_arranged<A>(v: Seq<A>, o: Seq<usize>)
    requires
        v.len() <= usize::MAX,
        o.to_multiset() == range(0, v.len() as int).to_multiset(),
    ensures
        arranged(v, o).to_multiset() == v.to_multiset(),
        arranged(v, o).len() == v.len(),
    decreases v.len(),
{
    broadcast use group_to_multiset_ensures;

    let n = v.len() as int;
    lemma_members(o, 0, n);
    if n == 0 {
        assert(arranged(v, o) =~= v);
    } else {
        let all = range(0, n);
        let last = (n - 1) as usize;
        assert(all[n - 1] == last);
        assert(all.contains(last));
        assert(all.to_multiset().count(last) > 0);
        assert(o.contains(last));
        let p = choose|p: int| 0 <= p < o.len() && o[p] == last;
        let rest = o.remove(p);
        assert(all.remove(n - 1) =~= range(0, n - 1));
        assert(rest.to_multiset() =~= range(0, n - 1).to_multiset());
        let w = v.drop_last();
        lemma_arranged(w, rest);
        lemma_members(rest, 0, n - 1);
        let whole = arranged(v, o);
        assert(whole[p] == v.last());
        assert(whole.remove(p) =~= arranged(w, rest)) by {
            assert forall|k: int| 0 <= k < rest.len() implies #[trigger] whole.remove(p)[k]
                == arranged(w, rest)[k] by {
                assert(rest[k] < n - 1);
                if k < p {
                    assert(whole.remove(p)[k] == whole[k]);
                } else {
                    assert(whole.remove(p)[k] == whole[k + 1]);
                }
            }
        }
        assert(v.remove(n - 1) =~= w);
        assert(whole.contains(v.last()));
        assert(v.contains(v.last()));
        assert(whole.to_multiset() =~= whole.remove(p).to_multiset().insert(v.last()));
        assert(v.to_multiset() =~= w.to_multiset().insert(v.last()));
    }
}

/// `r` holds the elements of `v` in the order `le`, equal ones as they stood in `v`.
pub open spec fn stable_sorted<A>(v: Seq<A>, r: Seq<A>, le: spec_fn(A, A) -> bool) -> bool {
    exists|o: Seq<usize>|
        {
            &&& o.to_multiset() == range(0, v.len() as int).to_multiset()
            &&& r == #[trigger] arranged(v, o)
            &&& forall|a: int, b: int|
                #![trigger r[a], r[b]]
                0 <= a < b < r.len() ==> le(r[a], r[b]) && (le(r[b], r[a]) ==> o[a] < o[b])
        }
}

/// Two lists of the same indices pick the same elements.
proof fn lemma_arranged_multiset<A>(v: Seq<A>, a: Seq<usize>, b: Seq<usize>)
    requires
        a.to_multiset() == b.to_multiset(),
    ensures
        arranged(v, a).to_multiset() == arranged(v, b).to_multiset(),
    decreases a.len(),
{
    broadcast use group_to_multiset_ensures;

    assert(a.len() == a.to_multiset().len());
    assert(b.len() == b.to_multiset().len());
    if a.len() > 0 {
        let x = a.last();
        assert(a.to_multiset().count(x) > 0) by {
            assert(a.contains(x));
        }
        assert(b.contains(x));
        let k = choose|k: int| 0 <= k < b.len() && b[k] == x;
        let rest = b.remove(k);
        let n = (a.len() - 1) as int;
        assert(a.remove(n) =~= a.drop_last());
        assert(a.drop_last().to_multiset() =~= a.to_multiset().remove(x));
        assert(rest.to_multiset() =~= b.to_multiset().remove(x));
        lemma_arranged_multiset(v, a.drop_last(), rest);
        assert(arranged(v, a).remove(n) =~= arranged(v, a.drop_last()));
        assert(arranged(v, b).remove(k) =~= arranged(v, rest));
        assert(arranged(v, a).to_multiset() =~= arranged(v, b).to_multiset()) by {
            let y = v[x as int];
            assert(arranged(v, a)[n] == y);
            assert(arranged(v, b)[k] == y);
            assert(arranged(v, a).contains(y) && arranged(v, b).contains(y));
            assert(arranged(v, a).to_multiset() =~= arranged(v, a.drop_last()).to_multiset().insert(
                y,
            ));
            assert(arranged(v, b).to_multiset() =~= arranged(v, rest).to_multiset().insert(y));
        }
    } else {
        assert(arranged(v, a) =~= arranged(v, b));
    }
}

/// Sorting keeps each element as often as it is there.
pub proof fn lemma_sorted_multiset<A>(v: Seq<A>, r: Seq<A>, le: spec_fn(A, A) -> bool)
    requires
        v.len() <= usize::MAX,
        stable_sorted(v, r, le),
    ensures
        r.to_multiset() == v.to_multiset(),
{
    let o = choose|o: Seq<usize>|
        {
            &&& o.to_multiset() == range(0, v.len() as int).to_multiset()
            &&& r == #[trigger] arranged(v, o)
            &&& forall|a: int, b: int|
                #![trigger r[a], r[b]]
                0 <= a < b < r.len() ==> le(r[a], r[b]) && (le(r[b], r[a]) ==> o[a] < o[b])
        };
    lemma_arranged_multiset(v, o, range(0, v.len() as int));
    assert(arranged(v, range(0, v.len() as int)) =~= v);
}

/// Arranging elements in the order of their keys sorts them by the relation that the keys
/// stand for.
pub proof fn lemma_sorted_by_keys<A, T: Ranked>(
    keys: Seq<T>,
    v: Seq<A>,
    o: Seq<usize>,
    le: spec_fn(A, A) -> bool,
)
    requires
        keys.len() == v.len() <= usize::MAX,
        is_order(keys, o),
        forall|i: int, j: int|
            #![trigger keys[i], keys[j]]
            0 <= i < v.len() && 0 <= j < v.len() ==> keys[i].at_most(&keys[j]) == le(v[i], v[j]),
    ensures
        stable_sorted(v, arranged(v, o), le),
        arranged(v, o).len() == v.len(),
{
    lemma_members(o, 0, v.len() as int);
    let r = arranged(v, o);
    assert forall|a: int, b: int|
        #![trigger r[a], r[b]]
        0 <= a < b < r.len() implies le(r[a], r[b]) && (le(r[b], r[a]) ==> o[a] < o[b]) by {
        assert(precedes(keys, o[a] as int, o[b] as int));
        assert(0 <= o[a] < v.len() && 0 <= o[b] < v.len());
        let x = keys[o[a] as int];
        let y = keys[o[b] as int];
    }
}

/// A sorted list holds the same elements.
pub proof fn law_sort_permutes<A>(v: Seq<A>, r: Seq<A>, le: spec_fn(A, A) -> bool)
    requires
        v.len() <= usize::MAX,
        stable_sorted(v, r, le),
    ensures
        r.to_multiset() == v.to_multiset(),
        r.len() == v.len(),
{
    let o = choose|o: Seq<usize>|
        {
            &&& o.to_multiset() == range(0, v.len() as int).to_multiset()
            &&& r == #[trigger] arranged(v, o)
            &&& forall|a: int, b: int|
                #![trigger r[a], r[b]]
                0 <= a < b < r.len() ==> le(r[a], r[b]) && (le(r[b], r[a]) ==> o[a] < o[b])
        };
    lemma_arranged(v, o);
}

/// Every element of a sorted list is one of the list.
pub proof fn lemma_sorted_members<A>(v: Seq<A>, r: Seq<A>, le: spec_fn(A, A) -> bool)
    requires
        v.len() <= usize::MAX,
        stable_sorted(v, r, le),
    ensures
        r.len() == v.len(),
        forall|k: int| 0 <= k < r.len() ==> v.contains(#[trigger] r[k]),
{
    let o = choose|o: Seq<usize>|
        {
            &&& o.to_multiset() == range(0, v.len() as int).to_multiset()
            &&& r == #[trigger] arranged(v, o)
            &&& forall|a: int, b: int|
                #![trigger r[a], r[b]]
                0 <= a < b < r.len() ==> le(r[a], r[b]) && (le(r[b], r[a]) ==> o[a] < o[b])
        };
    lemma_members(o, 0, v.len() as int);
    lemma_arranged(v, o);
    assert forall|k: int| 0 <= k < r.len() implies v.contains(#[trigger] r[k]) by {
        assert(o[k] < v.len());
        assert(r[k] == v[o[k] as int]);
    }
}

impl Ranked for String {
    open spec fn at_most(&self, other: &Self) -> bool {
        lex_le(self@, other@)
    }

    proof fn at_most_total(a: &Self, b: &Self) {
        lemma_lex_total(a@, b@);
    }

    proof fn at_most_transitive(a: &Self, b: &Self, c: &Self) {
        lemma_lex_transitive(a@, b@, c@);
    }

    fn is_at_most(&self, other: &Self) -> (r: bool) {
        let a = chars_of(self.as_str());
        let b = chars_of(other.as_str());
        chars_le(&a, &b)
    }
}

/// `r` holds the strings of `v` in ascending order.
pub open spec fn strings_sorted(v: Seq<Seq<char>>, r: Seq<Seq<char>>) -> bool {
    &&& r.to_multiset() == v.to_multiset()
    &&& forall|i: int, j: int|
        #![trigger r[i], r[j]]
        0 <= i < j < r.len() ==> lex_le(r[i], r[j])
}

/// The strings of `v` in ascending order.
pub fn sorted_strings(v: &Vec<String>) -> (r: Vec<String>)
    ensures
        strings_sorted(strs(v@), strs(r@)),
{
    let n = v.len();
    let o = order_of(v);
    let mut out: Vec<String> = Vec::new();
    let mut i: usize = 0;
    proof {
        lemma_members(o@, 0, n as int);
    }
    while i < o.len()
        invariant
            i <= o.len(),
            out.len() == i,
            forall|a: int| 0 <= a < o.len() ==> (#[trigger] o@[a]) < v.len(),
            forall|a: int| 0 <= a < i ==> (#[trigger] out@[a])@ == v@[o@[a] as int]@,
        decreases o.len() - i,
    {
        out.push(v[o[i]].clone());
        i += 1;
    }
    proof {
        lemma_arranged(strs(v@), o@);
        assert(strs(out@) =~= arranged(strs(v@), o@));
        assert forall|a: int, b: int|
            #![trigger strs(out@)[a], strs(out@)[b]]
            0 <= a < b < out.len() implies lex_le(strs(out@)[a], strs(out@)[b]) by {
            assert(precedes(v@, o@[a] as int, o@[b] as int));
        }
    }
    out
}

} // verus!
