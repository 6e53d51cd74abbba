//! The index from the hash of a command to its place in the history.
use fxhash::{FxHashMap, FxHashSet};
use std::hash::{DefaultHasher, Hasher};
use vstd::prelude::*;
use vstd::std_specs::hash::DefaultHasherAdditionalSpecFns;
use vstd::utf8::*;


verus! {

/// `fxhash::FxHasher`, the hasher of the index and of the set of hashes seen.
#[verifier::external_type_specification]
#[verifier::external_body]
pub struct ExFxHasher(fxhash::FxHasher);

/// `std::hash::BuildHasherDefault`, which makes such hashers.
#[verifier::external_type_specification]
#[verifier::external_body]
#[verifier::reject_recursive_types(H)]
pub struct ExBuildHasherDefault<H>(std::hash::BuildHasherDefault<H>);

pub open spec fn no_places() -> Map<u64, usize> {
    Map::empty()
}

/// `FxHashMap::default` makes an empty map.
#[verifier::external_body]
pub(crate) fn new_index() -> (r: FxHashMap<u64, usize>)
    ensures
        r@ == no_places(),
{
    FxHashMap::default()
}

/// `FxHashMap::insert` maps the key to the value and leaves other keys as they were.
#[verifier::external_body]
pub(crate) fn index_insert(m: &mut FxHashMap<u64, usize>, key: u64, value: usize)
    ensures
        final(m)@ == old(m)@.insert(key, value),
{
    m.insert(key, value);
}

/// `FxHashMap::get` returns the value that the key is mapped to, if it is.
#[verifier::external_body]
pub(crate) fn index_get(m: &FxHashMap<u64, usize>, key: u64) -> (r: Option<usize>)
    ensures
        r == (if m@.contains_key(key) {
            Some(m@[key])
        } else {
            None
        }),
{
    m.get(&key).copied()
}

pub open spec fn no_hashes() -> Set<u64> {
    Set::empty()
}

/// `FxHashSet::default` makes an empty set.
#[verifier::external_body]
pub(crate) fn new_seen() -> (r: FxHashSet<u64>)
    ensures
        r@ == no_hashes(),
{
    FxHashSet::default()
}

/// `FxHashSet::insert` adds the value and returns whether it was not in the set before.
#[verifier::external_body]
pub(crate) fn seen_insert(s: &mut FxHashSet<u64>, value: u64) -> (r: bool)
    ensures
        final(s)@ == old(s)@.insert(value),
        r == !old(s)@.contains(value),
{
    s.insert(value)
}

/// The hash of a command: what the default hasher makes of its bytes.
pub open spec fn text_hash(s: Seq<char>) -> u64 {
    DefaultHasher::spec_finish(seq![encode_utf8(s)])
}

pub fn hash_str(s: &str) -> (r: u64)
    ensures
        r == text_hash(s@),
{
    let mut h = DefaultHasher::new();
    h.write(s.as_bytes());
    assert(h@ =~= seq![encode_utf8(s@)]);
    h.finish()
}

/// The index of the first `n` commands: each hash leads to the last command that has it.
pub open spec fn index_of(entries: Seq<Seq<char>>, n: int) -> Map<u64, usize>
    decreases n,
{
    if n <= 0 {
        no_places()
    } else {
        index_of(entries, n - 1).insert(text_hash(entries[n - 1]), (n - 1) as usize)
    }
}

/// Equal commands at the same places have equal indices.
pub proof fn lemma_index_prefix(a: Seq<Seq<char>>, b: Seq<Seq<char>>, n: int)
    requires
        0 <= n <= a.len(),
        n <= b.len(),
        forall|i: int| 0 <= i < n ==> a[i] == b[i],
    ensures
        index_of(a, n) == index_of(b, n),
    decreases n,
{
    if n > 0 {
        lemma_index_prefix(a, b, n - 1);
    }
}

/// The index leads to a command with the hash, and to one for every command.
pub proof fn lemma_index_of(entries: Seq<Seq<char>>, n: int)
    requires
        0 <= n <= entries.len() <= usize::MAX,
    ensures
        forall|h: u64| #[trigger]
            index_of(entries, n).contains_key(h) ==> index_of(entries, n)[h] < n && text_hash(
                entries[index_of(entries, n)[h] as int],
            ) == h,
        forall|i: int|
            0 <= i < n ==> index_of(entries, n).contains_key(text_hash(#[trigger] entries[i])),
    decreases n,
{
    if n > 0 {
        lemma_index_of(entries, n - 1);
        assert forall|h: u64| #[trigger] index_of(entries, n).contains_key(h) implies index_of(
            entries,
            n,
        )[h] < n && text_hash(entries[index_of(entries, n)[h] as int]) == h by {
            if h != text_hash(entries[n - 1]) {
                assert(index_of(entries, n - 1).contains_key(h));
            }
        }
    }
}

} // verus!
