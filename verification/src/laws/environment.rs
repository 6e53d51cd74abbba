//! What is read of an environment, and what loading it leaves set.
use vstd::prelude::*;
use vstd::seq_lib::*;
use vstd::utf8::*;

use crate::env_changes::{
    applied, diff_changes, env_of, holds_key, key_index, law_diff_reaches, strictly_sorted,
};
use crate::env_files::{
    diff_from, entry_end, entry_variable, key_order, lemma_entry_end, variables_from, DiffView,
};
use crate::sort::{law_sort_permutes, stable_sorted};
use crate::text::{index_from, lemma_index_from, lex_le};

verus! {

/// The bytes from `i` up to `e` are an entry of what `env -0` wrote: they stand between zero
/// bytes or the ends and hold none.
pub open spec fn is_entry(data: Seq<u8>, i: int, e: int) -> bool {
    &&& 0 <= i <= e <= data.len()
    &&& i == 0 || data[i - 1] == 0
    &&& e == data.len() || data[e] == 0
    &&& forall|k: int| i <= k < e ==> data[k] != 0
}

/// An entry reads `NAME=value`, as valid UTF-8.
pub open spec fn entry_reads(
    data: Seq<u8>,
    i: int,
    e: int,
    name: Seq<char>,
    value: Seq<char>,
) -> bool {
    &&& is_entry(data, i, e)
    &&& data.subrange(i, e) == encode_utf8(name + seq!['='] + value)
    &&& !name.contains('=')
}

/// One of the entries reads `NAME=value`.
pub open spec fn some_entry_reads(data: Seq<u8>, name: Seq<char>, value: Seq<char>) -> bool {
    exists|i: int, e: int| #[trigger] entry_reads(data, i, e, name, value)
}

proof fn lemma_entry_end_is(data: Seq<u8>, i: int)
    requires
        0 <= i <= data.len(),
    ensures
        i <= entry_end(data, i) <= data.len(),
        forall|k: int| i <= k < entry_end(data, i) ==> data[k] != 0,
        entry_end(data, i) < data.len() ==> data[entry_end(data, i)] == 0,
    decreases data.len() - i,
{
    if i < data.len() && data[i] != 0 {
        lemma_entry_end_is(data, i + 1);
    }
}

/// What an entry's variable is.
proof fn lemma_entry_variable(data: Seq<u8>, i: int, e: int, p: (Seq<char>, Seq<char>))
    requires
        is_entry(data, i, e),
        p.0 != "_"@ && p.0 != "SHLVL"@ && p.0 != "PWD"@ && p.0 != "OLDPWD"@,
    ensures
        entry_variable(data.subrange(i, e)) == Some(p) <==> entry_reads(data, i, e, p.0, p.1),
{
    let b = data.subrange(i, e);
    let t = p.0 + seq!['='] + p.1;
    if entry_reads(data, i, e, p.0, p.1) {
        encode_utf8_valid_utf8(t);
        encode_utf8_decode_utf8(t);
        lemma_index_from(t, '=', 0);
        let n = p.0.len() as int;
        assert(t[n] == '=');
        let eq = index_from(t, '=', 0);
        if eq < n {
            assert(t[eq] == p.0[eq]);
            assert(p.0.contains(p.0[eq]));
        }
        assert(eq == n);
        assert(t.take(n) =~= p.0);
        assert(t.skip(n + 1) =~= p.1);
        if b.len() == 0 {
            assert(b =~= encode_utf8(Seq::empty()));
            encode_utf8_decode_utf8(Seq::empty());
            assert(t.len() == 0);
        }
    }
    if entry_variable(b) == Some(p) {
        let u = decode_utf8(b);
        decode_utf8_encode_utf8(b);
        lemma_index_from(u, '=', 0);
        let eq = index_from(u, '=', 0);
        assert(u =~= t);
        if p.0.contains('=') {
            let k = choose|k: int| 0 <= k < p.0.len() && p.0[k] == '=';
            assert(u[k] == '=');
        }
    }
}

proof fn lemma_variable_is_not_internal(b: Seq<u8>)
    ensures
        entry_variable(b) matches Some(p) ==> p.0 != "_"@ && p.0 != "SHLVL"@ && p.0 != "PWD"@
            && p.0 != "OLDPWD"@,
{
}

proof fn lemma_variables_from(data: Seq<u8>, i: int, p: (Seq<char>, Seq<char>))
    requires
        0 <= i <= data.len(),
        i == 0 || data[i - 1] == 0,
        p.0 != "_"@ && p.0 != "SHLVL"@ && p.0 != "PWD"@ && p.0 != "OLDPWD"@,
    ensures
        variables_from(data, i).contains(p) ==> exists|j: int, e: int|
            j >= i && #[trigger] entry_reads(data, j, e, p.0, p.1),
        forall|j: int, e: int|
            j >= i && #[trigger] entry_reads(data, j, e, p.0, p.1) ==> variables_from(
                data,
                i,
            ).contains(p),
    decreases data.len() - i,
{
    let e = entry_end(data, i);
    lemma_entry_end_is(data, i);
    lemma_entry_variable(data, i, e, p);
    let here = match entry_variable(data.subrange(i, e)) {
        Some(q) => seq![q],
        None => Seq::empty(),
    };
    let all = variables_from(data, i);
    if e < data.len() {
        lemma_variables_from(data, e + 1, p);
        let rest = variables_from(data, e + 1);
        assert(all == here + rest);
        if all.contains(p) {
            let k = choose|k: int| 0 <= k < all.len() && all[k] == p;
            if k < here.len() {
                assert(here[k] == p);
                assert(entry_reads(data, i, e, p.0, p.1));
            } else {
                assert(rest[k - here.len()] == p);
                assert(rest.contains(p));
            }
        }
        assert forall|j: int, f: int| j >= i && #[trigger] entry_reads(
            data,
            j,
            f,
            p.0,
            p.1,
        ) implies all.contains(p) by {
            if j == i {
                assert(f == e) by {
                    if f < e {
                        assert(data[f] != 0);
                    }
                    if e < f {
                        assert(data[e] != 0);
                    }
                }
                assert(all[0] == p);
            } else {
                if j <= e {
                    assert(data[j - 1] != 0);
                }
                assert(rest.contains(p));
                let k = choose|k: int| 0 <= k < rest.len() && rest[k] == p;
                assert(all[k + here.len()] == p);
            }
        }
    } else {
        assert(all == here);
        if all.contains(p) {
            assert(here[0] == p);
            assert(entry_reads(data, i, e, p.0, p.1));
        }
        assert forall|j: int, f: int| j >= i && #[trigger] entry_reads(
            data,
            j,
            f,
            p.0,
            p.1,
        ) implies all.contains(p) by {
            if j > i {
                assert(data[j - 1] != 0);
            }
            if f < e {
                assert(data[f] != 0);
            }
            assert(all[0] == p);
        }
    }
}

proof fn lemma_no_internal(data: Seq<u8>, i: int)
    requires
        0 <= i <= data.len(),
    ensures
        variables_from(data, i).len() <= data.len() - i,
        forall|k: int|
            0 <= k < variables_from(data, i).len() ==> {
                let name = (#[trigger] variables_from(data, i)[k]).0;
                name != "_"@ && name != "SHLVL"@ && name != "PWD"@ && name != "OLDPWD"@
            },
    decreases data.len() - i,
{
    lemma_entry_end(data, i);
    let e = entry_end(data, i);
    lemma_variable_is_not_internal(data.subrange(i, e));
    assert(entry_variable(data.subrange(i, e)) is Some ==> e > i);
    if e < data.len() {
        lemma_no_internal(data, e + 1);
        let all = variables_from(data, i);
        let rest = variables_from(data, e + 1);
        let n = all.len() - rest.len();
        assert forall|k: int| 0 <= k < all.len() implies {
            let name = (#[trigger] all[k]).0;
            name != "_"@ && name != "SHLVL"@ && name != "PWD"@ && name != "OLDPWD"@
        } by {
            if k >= n {
                assert(all[k] == rest[k - n]);
            }
        }
    }
}

/// The variables that are read are exactly those of the entries `NAME=value`, but for `_`,
/// `SHLVL`, `PWD` and `OLDPWD`, which a shell changes on its own; they stand in the order of their
/// names.
pub proof fn law_every_variable_is_read(
    data: Seq<u8>,
    r: Seq<(Seq<char>, Seq<char>)>,
    name: Seq<char>,
    value: Seq<char>,
)
    requires
        data.len() <= usize::MAX,
        stable_sorted(variables_from(data, 0), r, key_order()),
    ensures
        r.contains((name, value)) <==> some_entry_reads(data, name, value) && name != "_"@ && name
            != "SHLVL"@ && name != "PWD"@ && name != "OLDPWD"@,
        forall|a: int, b: int|
            0 <= a < b < r.len() ==> lex_le((#[trigger] r[a]).0, (#[trigger] r[b]).0),
{
    let v = variables_from(data, 0);
    let p = (name, value);
    lemma_no_internal(data, 0);
    law_sort_permutes(v, r, key_order());
    broadcast use group_to_multiset_ensures;

    assert(r.to_multiset().count(p) == v.to_multiset().count(p));
    assert(r.contains(p) <==> v.contains(p));
    if !(name == "_"@ || name == "SHLVL"@ || name == "PWD"@ || name == "OLDPWD"@) {
        lemma_variables_from(data, 0, p);
        if some_entry_reads(data, name, value) {
            let (i, e) = choose|i: int, e: int| #[trigger] entry_reads(data, i, e, name, value);
            assert(entry_reads(data, i, e, p.0, p.1));
            assert(i >= 0);
        }
        if v.contains(p) {
            let (i, e) = choose|i: int, e: int|
                i >= 0 && #[trigger] entry_reads(data, i, e, p.0, p.1);
            assert(entry_reads(data, i, e, name, value));
        }
    } else if v.contains(p) {
        let k = choose|k: int| 0 <= k < v.len() && v[k] == p;
        assert(v[k].0 == name);
    }
}

/// No two variables of a list have the same name.
pub open spec fn names_differ(r: Seq<(Seq<char>, Seq<char>)>) -> bool {
    forall|a: int, b: int| 0 <= a < b < r.len() ==> (#[trigger] r[a]).0 != (#[trigger] r[b]).0
}

/// After the environment that one run of `env -0` wrote is loaded over that of another, every
/// variable of the new one has the value that it has there, and no other variable is left.
pub proof fn law_loading_reaches_environment(
    before: Seq<u8>,
    after: Seq<u8>,
    a: Seq<(Seq<char>, Seq<char>)>,
    b: Seq<(Seq<char>, Seq<char>)>,
    name: Seq<char>,
    value: Seq<char>,
)
    requires
        before.len() <= usize::MAX,
        after.len() <= usize::MAX,
        stable_sorted(variables_from(before, 0), a, key_order()),
        stable_sorted(variables_from(after, 0), b, key_order()),
        names_differ(a),
        names_differ(b),
    ensures
        ({
            let env = applied(env_of(a), diff_changes(diff_from(a, b, 0, 0, DiffView::empty())));
            (env.contains_key(name) && env[name] == value) <==> some_entry_reads(after, name, value)
                && name != "_"@ && name != "SHLVL"@ && name != "PWD"@ && name != "OLDPWD"@
        }),
{
    law_every_variable_is_read(before, a, name, value);
    law_every_variable_is_read(after, b, name, value);
    assert(strictly_sorted(a));
    assert(strictly_sorted(b));
    law_diff_reaches(a, b);
    let env = env_of(b);
    let p = (name, value);
    if b.contains(p) {
        let i = choose|i: int| 0 <= i < b.len() && b[i] == p;
        assert(b[i].0 == name);
        assert(holds_key(b, name, 0));
        let k = key_index(b, name);
        assert(b[k].0 == name);
        assert(k == i) by {
            if k < i {
                assert(b[k].0 != b[i].0);
            }
            if i < k {
                assert(b[i].0 != b[k].0);
            }
        }
    }
    if env.contains_key(name) && env[name] == value {
        let k = key_index(b, name);
        assert(b[k].0 == name);
        assert(b[k] == p);
    }
}

} // verus!
