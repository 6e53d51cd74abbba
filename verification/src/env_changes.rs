//! Changes of environment variables: what a difference does, and what undoes it.
use vstd::prelude::*;

use crate::env_files::{diff_from, DiffView, EnvDiff};
use crate::text::{lemma_lex_antisymmetric, lemma_lex_total, lex_le, strs};

verus! {

/// A single change of an environment variable.
pub enum EnvChange {
    Assign(String, String),
    Unset(String),
}

pub enum ChangeView {
    Assign(Seq<char>, Seq<char>),
    Unset(Seq<char>),
}

impl View for EnvChange {
    type V = ChangeView;

    open spec fn view(&self) -> ChangeView {
        match self {
            EnvChange::Assign(k, v) => ChangeView::Assign(k@, v@),
            EnvChange::Unset(k) => ChangeView::Unset(k@),
        }
    }
}

pub open spec fn change_views(v: Seq<EnvChange>) -> Seq<ChangeView> {
    Seq::new(v.len(), |i: int| v[i]@)
}

impl ChangeView {
    pub open spec fn key(self) -> Seq<char> {
        match self {
            ChangeView::Assign(k, _) => k,
            ChangeView::Unset(k) => k,
        }
    }
}

/// The variables after a change.
pub open spec fn changed(env: Map<Seq<char>, Seq<char>>, c: ChangeView) -> Map<
    Seq<char>,
    Seq<char>,
> {
    match c {
        ChangeView::Assign(k, v) => env.insert(k, v),
        ChangeView::Unset(k) => env.remove(k),
    }
}

/// The variables after changes one after the other.
pub open spec fn applied(env: Map<Seq<char>, Seq<char>>, cs: Seq<ChangeView>) -> Map<
    Seq<char>,
    Seq<char>,
>
    decreases cs.len(),
{
    if cs.len() == 0 {
        env
    } else {
        changed(applied(env, cs.drop_last()), cs.last())
    }
}

/// The value of a variable, where it is set.
pub open spec fn value_in(env: Map<Seq<char>, Seq<char>>, k: Seq<char>) -> Option<Seq<char>> {
    if env.contains_key(k) {
        Some(env[k])
    } else {
        None
    }
}

proof fn lemma_same_values(a: Map<Seq<char>, Seq<char>>, b: Map<Seq<char>, Seq<char>>)
    requires
        forall|k: Seq<char>| #[trigger] value_in(a, k) == value_in(b, k),
    ensures
        a == b,
{
    assert forall|k: Seq<char>| #[trigger] a.dom().contains(k) == b.dom().contains(k) by {
        assert(value_in(a, k) == value_in(b, k));
    }
    assert forall|k: Seq<char>| #[trigger] a.dom().contains(k) implies a[k] == b[k] by {
        assert(value_in(a, k) == value_in(b, k));
    }
    assert(a.dom() =~= b.dom());
    assert(a =~= b);
}

/// The last change of a variable.
pub open spec fn last_change(cs: Seq<ChangeView>, k: Seq<char>) -> Option<ChangeView>
    decreases cs.len(),
{
    if cs.len() == 0 {
        None
    } else if cs.last().key() == k {
        Some(cs.last())
    } else {
        last_change(cs.drop_last(), k)
    }
}

pub proof fn lemma_applied(env: Map<Seq<char>, Seq<char>>, cs: Seq<ChangeView>, k: Seq<char>)
    ensures
        value_in(applied(env, cs), k) == (match last_change(cs, k) {
            None => value_in(env, k),
            Some(ChangeView::Assign(_, v)) => Some(v),
            Some(ChangeView::Unset(_)) => None,
        }),
    decreases cs.len(),
{
    if cs.len() > 0 {
        lemma_applied(env, cs.drop_last(), k);
    }
}

proof fn lemma_last_change(cs: Seq<ChangeView>, k: Seq<char>)
    ensures
        match last_change(cs, k) {
            Some(c) => cs.contains(c) && c.key() == k,
            None => forall|i: int| 0 <= i < cs.len() ==> (#[trigger] cs[i]).key() != k,
        },
    decreases cs.len(),
{
    if cs.len() > 0 {
        lemma_last_change(cs.drop_last(), k);
        assert(cs[cs.len() - 1] == cs.last());
        if cs.last().key() != k {
            if last_change(cs, k) is Some {
                let c = last_change(cs, k)->0;
                let i = choose|i: int| 0 <= i < cs.drop_last().len() && cs.drop_last()[i] == c;
                assert(cs[i] == c);
            } else {
                assert forall|i: int| 0 <= i < cs.len() implies (#[trigger] cs[i]).key() != k by {
                    if i < cs.len() - 1 {
                        assert(cs.drop_last()[i] == cs[i]);
                    }
                }
            }
        }
    }
}

/// The changes that a difference stands for: first what is set, then what is removed.
pub open spec fn diff_changes(d: DiffView) -> Seq<ChangeView> {
    Seq::new(d.set.len(), |i: int| ChangeView::Assign(d.set[i].0, d.set[i].1)) + Seq::new(
        d.unset.len(),
        |i: int| ChangeView::Unset(d.unset[i]),
    )
}

/// What undoes a difference: the values that its variables have now. What is to be removed and
/// is not set needs no undoing.
pub open spec fn captured(
    d: DiffView,
    set_values: Seq<Option<Seq<char>>>,
    unset_values: Seq<Option<Seq<char>>>,
) -> Seq<ChangeView> {
    Seq::new(
        d.set.len(),
        |i: int|
            match set_values[i] {
                Some(v) => ChangeView::Assign(d.set[i].0, v),
                None => ChangeView::Unset(d.set[i].0),
            },
    ) + captured_unset(d.unset, unset_values, d.unset.len() as int)
}

pub open spec fn captured_unset(
    unset: Seq<Seq<char>>,
    values: Seq<Option<Seq<char>>>,
    n: int,
) -> Seq<ChangeView>
    decreases n,
{
    if n <= 0 {
        Seq::empty()
    } else {
        match values[n - 1] {
            Some(v) => captured_unset(unset, values, n - 1).push(
                ChangeView::Assign(unset[n - 1], v),
            ),
            None => captured_unset(unset, values, n - 1),
        }
    }
}

pub open spec fn opt_views(v: Seq<Option<String>>) -> Seq<Option<Seq<char>>> {
    Seq::new(
        v.len(),
        |i: int|
            match v[i] {
                Some(s) => Some(s@),
                None => None,
            },
    )
}

/// What undoes a difference, from the values that its variables have now.
pub fn capture_prev(
    diff: &EnvDiff,
    set_values: &Vec<Option<String>>,
    unset_values: &Vec<Option<String>>,
) -> (r: Vec<EnvChange>)
    requires
        set_values.len() == diff.set.len(),
        unset_values.len() == diff.unset.len(),
    ensures
        change_views(r@) == captured(diff@, opt_views(set_values@), opt_views(unset_values@)),
{
    let ghost sv = opt_views(set_values@);
    let ghost uv = opt_views(unset_values@);
    let ghost goal = captured(diff@, sv, uv);
    let mut out: Vec<EnvChange> = Vec::new();
    let mut i: usize = 0;
    while i < diff.set.len()
        invariant
            i <= diff.set.len(),
            set_values.len() == diff.set.len(),
            sv == opt_views(set_values@),
            goal == captured(diff@, sv, uv),
            change_views(out@) == goal.take(i as int),
        decreases diff.set.len() - i,
    {
        let ghost had = change_views(out@);
        let key = diff.set[i].0.clone();
        assert(diff@.set[i as int].0 == key@);
        let c = match &set_values[i] {
            Some(v) => EnvChange::Assign(key, v.clone()),
            None => EnvChange::Unset(key),
        };
        let ghost cv = c@;
        out.push(c);
        assert(change_views(out@) =~= had.push(cv));
        assert(goal[i as int] == cv);
        assert(goal.take(i + 1) =~= had.push(cv));
        i += 1;
    }
    let ghost front = goal.take(i as int);
    let ghost names = strs(diff.unset@);
    let mut k: usize = 0;
    assert(front + captured_unset(names, uv, 0) =~= front);
    while k < diff.unset.len()
        invariant
            k <= diff.unset.len(),
            unset_values.len() == diff.unset.len(),
            uv == opt_views(unset_values@),
            names == strs(diff.unset@),
            change_views(out@) == front + captured_unset(names, uv, k as int),
        decreases diff.unset.len() - k,
    {
        let ghost had = change_views(out@);
        assert(names[k as int] == diff.unset@[k as int]@);
        match &unset_values[k] {
            Some(v) => {
                out.push(EnvChange::Assign(diff.unset[k].clone(), v.clone()));
                assert(change_views(out@) =~= had.push(ChangeView::Assign(names[k as int], v@)));
                assert(front + captured_unset(names, uv, k + 1) =~= had.push(
                    ChangeView::Assign(names[k as int], v@),
                ));
            },
            None => {},
        }
        k += 1;
    }
    assert(front + captured_unset(names, uv, k as int) =~= goal);
    out
}

/// The changes that a difference stands for.
pub fn apply_diff(diff: &EnvDiff) -> (r: Vec<EnvChange>)
    ensures
        change_views(r@) == diff_changes(diff@),
{
    let ghost goal = diff_changes(diff@);
    let mut out: Vec<EnvChange> = Vec::new();
    let mut i: usize = 0;
    while i < diff.set.len()
        invariant
            i <= diff.set.len(),
            goal == diff_changes(diff@),
            change_views(out@) == goal.take(i as int),
        decreases diff.set.len() - i,
    {
        let ghost had = change_views(out@);
        let c = EnvChange::Assign(diff.set[i].0.clone(), diff.set[i].1.clone());
        let ghost cv = c@;
        out.push(c);
        assert(change_views(out@) =~= had.push(cv));
        assert(goal[i as int] == cv);
        assert(goal.take(i + 1) =~= had.push(cv));
        i += 1;
    }
    let ghost m = diff.set@.len();
    let mut k: usize = 0;
    while k < diff.unset.len()
        invariant
            k <= diff.unset.len(),
            m == diff.set@.len(),
            goal == diff_changes(diff@),
            change_views(out@) == goal.take(m + k),
        decreases diff.unset.len() - k,
    {
        let ghost had = change_views(out@);
        let c = EnvChange::Unset(diff.unset[k].clone());
        let ghost cv = c@;
        out.push(c);
        assert(change_views(out@) =~= had.push(cv));
        assert(goal[m + k] == cv);
        assert(goal.take(m + k + 1) =~= had.push(cv));
        k += 1;
    }
    assert(goal.take(m + k) =~= goal);
    out
}

/// The values that variables have in an environment.
pub open spec fn values_in(env: Map<Seq<char>, Seq<char>>, keys: Seq<Seq<char>>) -> Seq<
    Option<Seq<char>>,
> {
    Seq::new(keys.len(), |i: int| value_in(env, keys[i]))
}

pub open spec fn set_keys(d: DiffView) -> Seq<Seq<char>> {
    Seq::new(d.set.len(), |i: int| d.set[i].0)
}

proof fn lemma_captured_unset(
    unset: Seq<Seq<char>>,
    env: Map<Seq<char>, Seq<char>>,
    n: int,
)
    requires
        0 <= n <= unset.len(),
    ensures
        forall|i: int|
            0 <= i < captured_unset(unset, values_in(env, unset), n).len() ==> {
                let c = #[trigger] captured_unset(unset, values_in(env, unset), n)[i];
                env.contains_key(c.key()) && c == ChangeView::Assign(c.key(), env[c.key()])
            },
        forall|j: int|
            0 <= j < n && env.contains_key(#[trigger] unset[j]) ==> captured_unset(
                unset,
                values_in(env, unset),
                n,
            ).contains(ChangeView::Assign(unset[j], env[unset[j]])),
    decreases n,
{
    if n > 0 {
        lemma_captured_unset(unset, env, n - 1);
        let vals = values_in(env, unset);
        let before = captured_unset(unset, vals, n - 1);
        let all = captured_unset(unset, vals, n);
        assert forall|i: int| 0 <= i < all.len() implies {
            let c = #[trigger] all[i];
            env.contains_key(c.key()) && c == ChangeView::Assign(c.key(), env[c.key()])
        } by {
            if i < before.len() {
                assert(all[i] == before[i]);
            }
        }
        assert forall|j: int| 0 <= j < n && env.contains_key(#[trigger] unset[j]) implies
            all.contains(ChangeView::Assign(unset[j], env[unset[j]])) by {
            let c = ChangeView::Assign(unset[j], env[unset[j]]);
            if j < n - 1 {
                assert(before.contains(c));
                let i = choose|i: int| 0 <= i < before.len() && before[i] == c;
                assert(all[i] == c);
            } else {
                assert(all[all.len() - 1] == c);
            }
        }
    }
}

/// Undoing a difference gives the environment back: leaving a directory restores what entering
/// it changed.
pub proof fn law_restore_undoes(env: Map<Seq<char>, Seq<char>>, d: DiffView)
    ensures
        applied(
            applied(env, diff_changes(d)),
            captured(d, values_in(env, set_keys(d)), values_in(env, d.unset)),
        ) == env,
{
    let undo = captured(d, values_in(env, set_keys(d)), values_in(env, d.unset));
    let cs = diff_changes(d);
    let there = applied(env, cs);
    let back = applied(there, undo);
    let n = d.set.len() as int;
    let tail = captured_unset(d.unset, values_in(env, d.unset), d.unset.len() as int);
    lemma_captured_unset(d.unset, env, d.unset.len() as int);
    assert forall|k: Seq<char>| #[trigger] value_in(back, k) == value_in(env, k) by {
        lemma_applied(env, cs, k);
        lemma_applied(there, undo, k);
        lemma_last_change(cs, k);
        lemma_last_change(undo, k);
        if last_change(undo, k) is Some {
            let c = last_change(undo, k)->0;
            let i = choose|i: int| 0 <= i < undo.len() && undo[i] == c;
            if i >= n {
                assert(tail[i - n] == c);
            }
        } else if last_change(cs, k) is Some {
            let c = last_change(cs, k)->0;
            let i = choose|i: int| 0 <= i < cs.len() && cs[i] == c;
            if i < n {
                assert(undo[i].key() == k);
            } else if env.contains_key(k) {
                assert(d.unset[i - n] == k);
                let u = ChangeView::Assign(k, env[k]);
                assert(tail.contains(u));
                let j = choose|j: int| 0 <= j < tail.len() && tail[j] == u;
                assert(undo[n + j].key() == k);
            }
        }
    }
    lemma_same_values(back, env);
}

/// Variables in strictly ascending order of their names.
pub open spec fn strictly_sorted(v: Seq<(Seq<char>, Seq<char>)>) -> bool {
    forall|a: int, b: int|
        0 <= a < b < v.len() ==> lex_le(#[trigger] v[a].0, #[trigger] v[b].0) && v[a].0 != v[b].0
}

pub open spec fn holds_pair(
    v: Seq<(Seq<char>, Seq<char>)>,
    p: (Seq<char>, Seq<char>),
    from: int,
) -> bool {
    exists|i: int| from <= i < v.len() && v[i] == p
}

pub open spec fn holds_key(v: Seq<(Seq<char>, Seq<char>)>, k: Seq<char>, from: int) -> bool {
    exists|i: int| from <= i < v.len() && #[trigger] v[i].0 == k
}

proof fn lemma_first_key(v: Seq<(Seq<char>, Seq<char>)>, k: Seq<char>, from: int)
    requires
        0 <= from < v.len(),
    ensures
        holds_key(v, k, from) == (v[from].0 == k || holds_key(v, k, from + 1)),
{
    if holds_key(v, k, from) && v[from].0 != k {
        let i = choose|i: int| from <= i < v.len() && #[trigger] v[i].0 == k;
        assert(from + 1 <= i);
    }
    if holds_key(v, k, from + 1) {
        let i = choose|i: int| from + 1 <= i < v.len() && #[trigger] v[i].0 == k;
        assert(v[i].0 == k);
    }
}

proof fn lemma_first_pair(
    v: Seq<(Seq<char>, Seq<char>)>,
    p: (Seq<char>, Seq<char>),
    from: int,
)
    requires
        0 <= from < v.len(),
    ensures
        holds_pair(v, p, from) == (v[from] == p || holds_pair(v, p, from + 1)),
        holds_pair(v, p, from) ==> holds_key(v, p.0, from),
{
    if holds_pair(v, p, from) {
        let i = choose|i: int| from <= i < v.len() && v[i] == p;
        assert(v[i].0 == p.0);
        if v[from] != p {
            assert(from + 1 <= i);
        }
    }
    if holds_pair(v, p, from + 1) {
        let i = choose|i: int| from + 1 <= i < v.len() && v[i] == p;
        assert(v[i] == p);
    }
}

/// A name below the first of the rest is not among the rest.
proof fn lemma_below_rest(v: Seq<(Seq<char>, Seq<char>)>, k: Seq<char>, from: int)
    requires
        0 <= from < v.len(),
        strictly_sorted(v),
        lex_le(k, v[from].0),
        k != v[from].0,
    ensures
        !holds_key(v, k, from),
{
    if holds_key(v, k, from) {
        let i = choose|i: int| from <= i < v.len() && #[trigger] v[i].0 == k;
        if i > from {
            assert(lex_le(v[from].0, v[i].0));
            lemma_lex_antisymmetric(k, v[from].0);
        }
    }
}

/// The first name of the rest does not come again.
proof fn lemma_not_again(v: Seq<(Seq<char>, Seq<char>)>, from: int)
    requires
        0 <= from < v.len(),
        strictly_sorted(v),
    ensures
        !holds_key(v, v[from].0, from + 1),
{
    if holds_key(v, v[from].0, from + 1) {
        let i = choose|i: int| from + 1 <= i < v.len() && #[trigger] v[i].0 == v[from].0;
        assert(v[from].0 != v[i].0);
    }
}

spec fn diff_means(
    before: Seq<(Seq<char>, Seq<char>)>,
    after: Seq<(Seq<char>, Seq<char>)>,
    i: int,
    j: int,
    done: DiffView,
    r: DiffView,
) -> bool {
    &&& forall|p: (Seq<char>, Seq<char>)| #[trigger]
        r.set.contains(p) <==> done.set.contains(p) || (holds_pair(after, p, j) && !holds_pair(
            before,
            p,
            i,
        ))
    &&& forall|k: Seq<char>| #[trigger]
        r.unset.contains(k) <==> done.unset.contains(k) || (holds_key(before, k, i) && !holds_key(
            after,
            k,
            j,
        ))
}

proof fn lemma_push_contains<A>(s: Seq<A>, x: A, y: A)
    ensures
        s.push(x).contains(y) == (s.contains(y) || x == y),
{
    if s.contains(y) {
        let i = choose|i: int| 0 <= i < s.len() && s[i] == y;
        assert(s.push(x)[i] == y);
    }
    if x == y {
        assert(s.push(x)[s.len() as int] == y);
    }
    if s.push(x).contains(y) && x != y {
        let i = choose|i: int| 0 <= i < s.push(x).len() && s.push(x)[i] == y;
        assert(s[i] == y);
    }
}

#[verifier::rlimit(40)]
proof fn lemma_diff(
    before: Seq<(Seq<char>, Seq<char>)>,
    after: Seq<(Seq<char>, Seq<char>)>,
    i: int,
    j: int,
    done: DiffView,
)
    requires
        0 <= i <= before.len(),
        0 <= j <= after.len(),
        strictly_sorted(before),
        strictly_sorted(after),
    ensures
        diff_means(before, after, i, j, done, diff_from(before, after, i, j, done)),
    decreases before.len() - i + after.len() - j,
{
    let r = diff_from(before, after, i, j, done);
    let (ni, nj, nd) = if i >= before.len() && j >= after.len() {
        (i, j, done)
    } else if i >= before.len() {
        (i, j + 1, done.setting(after[j]))
    } else if j >= after.len() {
        (i + 1, j, done.unsetting(before[i].0))
    } else if before[i].0 == after[j].0 {
        (
            i + 1,
            j + 1,
            if before[i].1 != after[j].1 {
                done.setting(after[j])
            } else {
                done
            },
        )
    } else if lex_le(before[i].0, after[j].0) {
        (i + 1, j, done.unsetting(before[i].0))
    } else {
        (i, j + 1, done.setting(after[j]))
    };
    if i < before.len() || j < after.len() {
        lemma_diff(before, after, ni, nj, nd);
        if i < before.len() && j < after.len() {
            lemma_lex_total(before[i].0, after[j].0);
            if before[i].0 != after[j].0 {
                if lex_le(before[i].0, after[j].0) {
                    lemma_below_rest(after, before[i].0, j);
                } else {
                    lemma_below_rest(before, after[j].0, i);
                }
            }
        }
        if i < before.len() {
            lemma_not_again(before, i);
        }
        if j < after.len() {
            lemma_not_again(after, j);
        }
    }
    assert forall|p: (Seq<char>, Seq<char>)| #[trigger] r.set.contains(p) <==> done.set.contains(p)
        || (holds_pair(after, p, j) && !holds_pair(before, p, i)) by {
        if i < before.len() {
            lemma_first_pair(before, p, i);
            lemma_first_key(before, p.0, i);
            if i + 1 < before.len() {
                lemma_first_pair(before, p, i + 1);
            }
        }
        if j < after.len() {
            lemma_first_pair(after, p, j);
            lemma_first_key(after, p.0, j);
            lemma_push_contains(done.set, after[j], p);
            if j + 1 < after.len() {
                lemma_first_pair(after, p, j + 1);
            }
        }
    }
    assert forall|k: Seq<char>| #[trigger] r.unset.contains(k) <==> done.unset.contains(k) || (
    holds_key(before, k, i) && !holds_key(after, k, j)) by {
        if i < before.len() {
            lemma_first_key(before, k, i);
            lemma_push_contains(done.unset, before[i].0, k);
        }
        if j < after.len() {
            lemma_first_key(after, k, j);
        }
    }
}

/// The environment that a list of variables stands for.
pub open spec fn env_of(v: Seq<(Seq<char>, Seq<char>)>) -> Map<Seq<char>, Seq<char>> {
    Map::new(
        |k: Seq<char>| holds_key(v, k, 0),
        |k: Seq<char>| v[key_index(v, k)].1,
    )
}

/// Where a variable stands in a list that holds it.
pub open spec fn key_index(v: Seq<(Seq<char>, Seq<char>)>, k: Seq<char>) -> int {
    choose|i: int| 0 <= i < v.len() && #[trigger] v[i].0 == k
}

proof fn lemma_env_of(v: Seq<(Seq<char>, Seq<char>)>, p: (Seq<char>, Seq<char>))
    requires
        strictly_sorted(v),
        holds_pair(v, p, 0),
    ensures
        env_of(v).contains_key(p.0),
        env_of(v)[p.0] == p.1,
{
    let i = choose|i: int| 0 <= i < v.len() && v[i] == p;
    assert(v[i].0 == p.0);
    let j = key_index(v, p.0);
    if i < j {
        assert(v[i].0 != v[j].0);
    } else if j < i {
        assert(v[j].0 != v[i].0);
    }
}

proof fn lemma_env_holds(v: Seq<(Seq<char>, Seq<char>)>, k: Seq<char>)
    requires
        env_of(v).contains_key(k),
    ensures
        holds_pair(v, (k, env_of(v)[k]), 0),
        holds_key(v, k, 0),
{
    let j = key_index(v, k);
    assert(v[j].0 == k);
    assert(v[j] == (k, env_of(v)[k]));
}

/// Applying the difference of two environments to the first gives the second.
pub proof fn law_diff_reaches(
    before: Seq<(Seq<char>, Seq<char>)>,
    after: Seq<(Seq<char>, Seq<char>)>,
)
    requires
        strictly_sorted(before),
        strictly_sorted(after),
    ensures
        applied(
            env_of(before),
            diff_changes(diff_from(before, after, 0, 0, DiffView::empty())),
        ) == env_of(after),
{
    let d = diff_from(before, after, 0, 0, DiffView::empty());
    let cs = diff_changes(d);
    let a = env_of(before);
    let b = env_of(after);
    let r = applied(a, cs);
    let n = d.set.len() as int;
    lemma_diff(before, after, 0, 0, DiffView::empty());
    assert forall|k: Seq<char>| #[trigger] value_in(r, k) == value_in(b, k) by {
        lemma_applied(a, cs, k);
        lemma_last_change(cs, k);
        match last_change(cs, k) {
            Some(c) => {
                let i = choose|i: int| 0 <= i < cs.len() && cs[i] == c;
                if i < n {
                    let p = d.set[i];
                    assert(d.set.contains(p));
                    assert(holds_pair(after, p, 0));
                    lemma_env_of(after, p);
                } else {
                    assert(d.unset[i - n] == k);
                    assert(d.unset.contains(k));
                    assert(!holds_key(after, k, 0));
                }
            },
            None => {
                if b.contains_key(k) {
                    lemma_env_holds(after, k);
                    let p = (k, b[k]);
                    if !holds_pair(before, p, 0) {
                        assert(d.set.contains(p));
                        let i = choose|i: int| 0 <= i < d.set.len() && d.set[i] == p;
                        assert(cs[i].key() == k);
                    } else {
                        lemma_env_of(before, p);
                    }
                } else if a.contains_key(k) {
                    lemma_env_holds(before, k);
                    assert(!holds_key(after, k, 0));
                    assert(d.unset.contains(k));
                    let i = choose|i: int| 0 <= i < d.unset.len() && d.unset[i] == k;
                    assert(cs[n + i].key() == k);
                }
            },
        }
    }
    lemma_same_values(r, b);
}

} // verus!
