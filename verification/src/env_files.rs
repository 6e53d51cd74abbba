//! The texts that environments are read from: `.env` files, and the output of `env -0`.
use vstd::prelude::*;

use crate::sort::{arranged, lemma_members, lemma_sorted_by_keys, order_of, stable_sorted, Ranked};
use crate::text::{
    chars_eq, chars_le, chars_of, find_char, has_prefix_str, head_of, index_from, lemma_index_from,
    lemma_lex_total, lemma_lex_transitive, lex_le, lines, lines_of, spec_is_whitespace, starts_with,
    str_eq, string_of, strs, substring, tail_of, trim_of, trimmed,
};
use crate::utf8_bytes::{text_at, text_of};

verus! {

/// Names with values.
pub open spec fn pair_views(v: Seq<(String, String)>) -> Seq<(Seq<char>, Seq<char>)> {
    Seq::new(v.len(), |i: int| (v[i].0@, v[i].1@))
}

// -- Files of assignments --

/// What stands for the character after a backslash in double quotes.
pub open spec fn escape_meaning(c: char) -> Seq<char> {
    if c == 'n' {
        seq!['\n']
    } else if c == 't' {
        seq!['\t']
    } else if c == '\\' || c == '"' || c == '$' {
        seq![c]
    } else {
        seq!['\\', c]
    }
}

/// The text in double quotes from `i` on.
pub open spec fn unescaped_from(s: Seq<char>, i: int) -> Seq<char>
    decreases s.len() - i,
{
    if i < 0 || i >= s.len() {
        Seq::empty()
    } else if s[i] == '\\' {
        if i + 1 < s.len() {
            escape_meaning(s[i + 1]) + unescaped_from(s, i + 2)
        } else {
            seq!['\\']
        }
    } else {
        seq![s[i]] + unescaped_from(s, i + 1)
    }
}

fn unescape_quoted(s: &Vec<char>) -> (r: Vec<char>)
    ensures
        r@ == unescaped_from(s@, 0),
{
    let n = s.len();
    let mut out: Vec<char> = Vec::new();
    let mut i: usize = 0;
    assert(out@ + unescaped_from(s@, 0) =~= unescaped_from(s@, 0));
    while i < n
        invariant
            i <= n,
            n == s.len(),
            unescaped_from(s@, 0) == out@ + unescaped_from(s@, i as int),
        decreases n - i,
    {
        let ghost had = out@;
        if s[i] == '\\' {
            if n - i > 1 {
                let c = s[i + 1];
                if c == 'n' {
                    out.push('\n');
                } else if c == 't' {
                    out.push('\t');
                } else if c == '\\' || c == '"' || c == '$' {
                    out.push(c);
                } else {
                    out.push('\\');
                    out.push(c);
                }
                assert(out@ =~= had + escape_meaning(c));
                let ghost rest = unescaped_from(s@, i + 2);
                assert(had + (escape_meaning(c) + rest) =~= (had + escape_meaning(c)) + rest);
                i += 2;
            } else {
                out.push('\\');
                assert(out@ =~= had + unescaped_from(s@, i as int));
                return out;
            }
        } else {
            out.push(s[i]);
            let ghost rest = unescaped_from(s@, i + 1);
            assert(had + (seq![s@[i as int]] + rest) =~= out@ + rest);
            i += 1;
        }
    }
    assert(out@ + Seq::empty() =~= out@);
    out
}

/// Whether a value stands in the given quotes.
pub open spec fn in_quotes(v: Seq<char>, q: char) -> bool {
    v.len() >= 2 && v[0] == q && v.last() == q
}

/// What a value stands for: double quotes with escapes, single quotes as they are.
pub open spec fn value_meaning(v: Seq<char>) -> Seq<char> {
    if in_quotes(v, '"') {
        unescaped_from(v.subrange(1, v.len() - 1), 0)
    } else if in_quotes(v, '\'') {
        v.subrange(1, v.len() - 1)
    } else {
        v
    }
}

fn value_of(v: &Vec<char>) -> (r: Vec<char>)
    ensures
        r@ == value_meaning(v@),
{
    let n = v.len();
    if n >= 2 && v[0] == '"' && v[n - 1] == '"' {
        let inner = chars_of(substring(v, 1, n - 1).as_str());
        return unescape_quoted(&inner);
    }
    if n >= 2 && v[0] == '\'' && v[n - 1] == '\'' {
        return chars_of(substring(v, 1, n - 1).as_str());
    }
    head_of(v, n)
}

/// The line without `export `.
pub open spec fn without_export(t: Seq<char>) -> Seq<char> {
    if starts_with(t, "export "@) {
        t.skip("export "@.len() as int)
    } else {
        t
    }
}

/// The assignment in a line, if it holds one: comments and lines without a name are left out.
pub open spec fn assignment_in(line: Seq<char>) -> Option<(Seq<char>, Seq<char>)> {
    let t = trimmed(line);
    let a = without_export(t);
    let eq = index_from(a, '=', 0);
    let key = trimmed(a.take(eq));
    if t.len() == 0 || t[0] == '#' || eq >= a.len() || key.len() == 0 {
        None
    } else {
        Some((key, value_meaning(trimmed(a.skip(eq + 1)))))
    }
}

/// The assignments in the first `n` lines.
pub open spec fn assignments(ls: Seq<Seq<char>>, n: int) -> Seq<(Seq<char>, Seq<char>)>
    decreases n,
{
    if n <= 0 {
        Seq::empty()
    } else {
        match assignment_in(ls[n - 1]) {
            Some(p) => assignments(ls, n - 1).push(p),
            None => assignments(ls, n - 1),
        }
    }
}

fn parse_assignment(line: &str) -> (r: Option<(String, String)>)
    ensures
        (match r {
            Some(p) => Some((p.0@, p.1@)),
            None => None,
        }) == assignment_in(line@),
{
    let s = chars_of(line);
    let t = trim_of(&s);
    if t.len() == 0 || t[0] == '#' {
        return None;
    }
    proof {
        reveal_strlit("export ");
    }
    let a = if has_prefix_str(&t, "export ") {
        tail_of(&t, 7)
    } else {
        tail_of(&t, 0)
    };
    assert(a@ =~= without_export(t@));
    let eq = find_char(&a, '=', 0);
    if eq >= a.len() {
        return None;
    }
    let head = head_of(&a, eq);
    let key = trim_of(&head);
    if key.len() == 0 {
        return None;
    }
    let rest = tail_of(&a, eq + 1);
    let raw = trim_of(&rest);
    let value = value_of(&raw);
    Some((string_of(key.as_slice()), string_of(value.as_slice())))
}

/// The assignments of a `.env` file.
pub fn parse_dotenv(content: &str) -> (r: Vec<(String, String)>)
    ensures
        pair_views(r@) == assignments(lines(content@), lines(content@).len() as int),
{
    let ls = lines_of(content);
    let ghost lv = strs(ls@);
    let mut out: Vec<(String, String)> = Vec::new();
    let mut i: usize = 0;
    assert(pair_views(out@) =~= Seq::empty());
    while i < ls.len()
        invariant
            i <= ls.len(),
            lv == strs(ls@),
            pair_views(out@) == assignments(lv, i as int),
        decreases ls.len() - i,
    {
        assert(lv[i as int] == ls@[i as int]@);
        match parse_assignment(ls[i].as_str()) {
            Some(p) => {
                let ghost had = pair_views(out@);
                let ghost pv = (p.0@, p.1@);
                out.push(p);
                assert(pair_views(out@) =~= had.push(pv));
            },
            None => {},
        }
        i += 1;
    }
    out
}

// -- The output of `env -0` --

/// End of the entry that starts at `i`: the next zero byte, or the end.
pub open spec fn entry_end(data: Seq<u8>, i: int) -> int
    decreases data.len() - i,
{
    if i < 0 || i >= data.len() {
        data.len() as int
    } else if data[i] == 0 {
        i
    } else {
        entry_end(data, i + 1)
    }
}

pub proof fn lemma_entry_end(data: Seq<u8>, i: int)
    requires
        0 <= i <= data.len(),
    ensures
        i <= entry_end(data, i) <= data.len(),
    decreases data.len() - i,
{
    if i < data.len() && data[i] != 0 {
        lemma_entry_end(data, i + 1);
    }
}

/// Variables that a shell changes on its own.
pub open spec fn is_internal(key: Seq<char>) -> bool {
    key == "_"@ || key == "SHLVL"@ || key == "PWD"@ || key == "OLDPWD"@
}

/// The variable in an entry.
pub open spec fn entry_variable(bytes: Seq<u8>) -> Option<(Seq<char>, Seq<char>)> {
    match text_of(bytes) {
        Some(t) => {
            let eq = index_from(t, '=', 0);
            if bytes.len() == 0 || eq >= t.len() || is_internal(t.take(eq)) {
                None
            } else {
                Some((t.take(eq), t.skip(eq + 1)))
            }
        },
        None => None,
    }
}

/// The variables in the entries from `i` on.
pub open spec fn variables_from(data: Seq<u8>, i: int) -> Seq<(Seq<char>, Seq<char>)>
    decreases data.len() - i,
    when 0 <= i <= data.len()
{
    let e = entry_end(data, i);
    let here = match entry_variable(data.subrange(i, e)) {
        Some(p) => seq![p],
        None => Seq::empty(),
    };
    if e >= data.len() {
        here
    } else {
        proof {
            lemma_entry_end(data, i);
        }
        here + variables_from(data, e + 1)
    }
}

/// The order of names.
pub open spec fn key_order() -> spec_fn((Seq<char>, Seq<char>), (Seq<char>, Seq<char>)) -> bool {
    |a: (Seq<char>, Seq<char>), b: (Seq<char>, Seq<char>)| lex_le(a.0, b.0)
}

fn is_internal_name(key: &Vec<char>) -> (r: bool)
    ensures
        r == is_internal(key@),
{
    crate::text::is_text(key, "_") || crate::text::is_text(key, "SHLVL") || crate::text::is_text(
        key,
        "PWD",
    ) || crate::text::is_text(key, "OLDPWD")
}

fn parse_entry(data: &Vec<u8>, from: usize, to: usize) -> (r: Option<(String, String)>)
    requires
        from <= to <= data.len(),
    ensures
        (match r {
            Some(p) => Some((p.0@, p.1@)),
            None => None,
        }) == entry_variable(data@.subrange(from as int, to as int)),
{
    if from == to {
        return None;
    }
    match text_at(data, from, to) {
        Some(text) => {
            let t = chars_of(text.as_str());
            let eq = find_char(&t, '=', 0);
            if eq >= t.len() {
                return None;
            }
            let key = head_of(&t, eq);
            if is_internal_name(&key) {
                return None;
            }
            let value = tail_of(&t, eq + 1);
            Some((string_of(key.as_slice()), string_of(value.as_slice())))
        },
        None => None,
    }
}

fn collect_variables(data: &Vec<u8>) -> (r: Vec<(String, String)>)
    ensures
        pair_views(r@) == variables_from(data@, 0),
{
    let n = data.len();
    let mut out: Vec<(String, String)> = Vec::new();
    let mut i: usize = 0;
    assert(pair_views(out@) + variables_from(data@, 0) =~= variables_from(data@, 0));
    loop
        invariant
            i <= n,
            n == data.len(),
            variables_from(data@, 0) == pair_views(out@) + variables_from(data@, i as int),
        decreases n - i,
    {
        let mut e: usize = i;
        while e < n && data[e] != 0
            invariant
                i <= e <= n,
                n == data.len(),
                entry_end(data@, i as int) == entry_end(data@, e as int),
            decreases n - e,
        {
            e += 1;
        }
        let ghost had = pair_views(out@);
        let ghost rest = if e >= n {
            Seq::empty()
        } else {
            variables_from(data@, e + 1)
        };
        match parse_entry(data, i, e) {
            Some(p) => {
                let ghost pv = (p.0@, p.1@);
                out.push(p);
                assert(pair_views(out@) =~= had + seq![pv]);
                assert(had + (seq![pv] + rest) =~= (had + seq![pv]) + rest);
                assert(seq![pv] + Seq::empty() =~= seq![pv]);
            },
            None => {
                assert(Seq::<(Seq<char>, Seq<char>)>::empty() + rest =~= rest);
            },
        }
        assert(variables_from(data@, 0) =~= pair_views(out@) + rest);
        if e >= n {
            assert(pair_views(out@) + rest =~= pair_views(out@));
            return out;
        }
        i = e + 1;
    }
}

struct PairKey {
    key: Vec<char>,
}

impl Ranked for PairKey {
    closed spec fn at_most(&self, other: &Self) -> bool {
        lex_le(self.key@, other.key@)
    }

    proof fn at_most_total(a: &Self, b: &Self) {
        lemma_lex_total(a.key@, b.key@);
    }

    proof fn at_most_transitive(a: &Self, b: &Self, c: &Self) {
        lemma_lex_transitive(a.key@, b.key@, c.key@);
    }

    fn is_at_most(&self, other: &Self) -> (r: bool) {
        chars_le(&self.key, &other.key)
    }
}

fn sort_pairs(v: &Vec<(String, String)>) -> (r: Vec<(String, String)>)
    ensures
        stable_sorted(pair_views(v@), pair_views(r@), key_order()),
{
    let n = v.len();
    let ghost pv = pair_views(v@);
    let mut keys: Vec<PairKey> = Vec::new();
    let mut i: usize = 0;
    while i < n
        invariant
            i <= n,
            n == v.len(),
            pv == pair_views(v@),
            keys.len() == i,
            forall|k: int| 0 <= k < i ==> (#[trigger] keys@[k]).key@ == pv[k].0,
        decreases n - i,
    {
        keys.push(PairKey { key: chars_of(v[i].0.as_str()) });
        i += 1;
    }
    let o = order_of(&keys);
    proof {
        lemma_members(o@, 0, n as int);
        lemma_sorted_by_keys(keys@, pv, o@, key_order());
    }
    let mut out: Vec<(String, String)> = Vec::new();
    let mut k: usize = 0;
    while k < o.len()
        invariant
            k <= o.len(),
            n == v.len(),
            forall|a: int| 0 <= a < o.len() ==> (#[trigger] o@[a]) < n,
            out.len() == k,
            forall|a: int|
                0 <= a < k ==> (#[trigger] out@[a]).0@ == v@[o@[a] as int].0@ && out@[a].1@
                    == v@[o@[a] as int].1@,
        decreases o.len() - k,
    {
        let p = &v[o[k]];
        out.push((p.0.clone(), p.1.clone()));
        k += 1;
    }
    assert(pair_views(out@) =~= arranged(pv, o@));
    out
}

/// The variables that `env -0` wrote, in the order of their names. Variables that a shell
/// changes on its own are left out.
pub fn parse_env_null(data: &Vec<u8>) -> (r: Vec<(String, String)>)
    ensures
        stable_sorted(variables_from(data@, 0), pair_views(r@), key_order()),
{
    let all = collect_variables(data);
    sort_pairs(&all)
}

// -- Differences --

/// Variables to set, and variables to remove.
pub struct EnvDiff {
    pub set: Vec<(String, String)>,
    pub unset: Vec<String>,
}

#[verifier::ext_equal]
pub struct DiffView {
    pub set: Seq<(Seq<char>, Seq<char>)>,
    pub unset: Seq<Seq<char>>,
}

impl View for EnvDiff {
    type V = DiffView;

    open spec fn view(&self) -> DiffView {
        DiffView { set: pair_views(self.set@), unset: strs(self.unset@) }
    }
}

impl DiffView {
    pub open spec fn empty() -> DiffView {
        DiffView { set: Seq::empty(), unset: Seq::empty() }
    }

    pub open spec fn setting(self, p: (Seq<char>, Seq<char>)) -> DiffView {
        DiffView { set: self.set.push(p), ..self }
    }

    pub open spec fn unsetting(self, key: Seq<char>) -> DiffView {
        DiffView { unset: self.unset.push(key), ..self }
    }
}

/// The difference of two sorted lists of variables from `i` and `j` on, added to `done`.
pub open spec fn diff_from(
    before: Seq<(Seq<char>, Seq<char>)>,
    after: Seq<(Seq<char>, Seq<char>)>,
    i: int,
    j: int,
    done: DiffView,
) -> DiffView
    decreases before.len() - i + after.len() - j,
    when 0 <= i <= before.len() && 0 <= j <= after.len()
{
    if i >= before.len() && j >= after.len() {
        done
    } else if i >= before.len() {
        diff_from(before, after, i, j + 1, done.setting(after[j]))
    } else if j >= after.len() {
        diff_from(before, after, i + 1, j, done.unsetting(before[i].0))
    } else if before[i].0 == after[j].0 {
        diff_from(
            before,
            after,
            i + 1,
            j + 1,
            if before[i].1 != after[j].1 {
                done.setting(after[j])
            } else {
                done
            },
        )
    } else if lex_le(before[i].0, after[j].0) {
        diff_from(before, after, i + 1, j, done.unsetting(before[i].0))
    } else {
        diff_from(before, after, i, j + 1, done.setting(after[j]))
    }
}

fn push_pair(v: &mut Vec<(String, String)>, p: &(String, String))
    ensures
        pair_views(final(v)@) == pair_views(old(v)@).push((p.0@, p.1@)),
{
    v.push((p.0.clone(), p.1.clone()));
    assert(pair_views(v@) =~= pair_views(old(v)@).push((p.0@, p.1@)));
}

fn push_string(v: &mut Vec<String>, s: &String)
    ensures
        strs(final(v)@) == strs(old(v)@).push(s@),
{
    v.push(s.clone());
    assert(strs(v@) =~= strs(old(v)@).push(s@));
}

/// What has to be set and removed to get from one environment to another, both in the order of
/// their names.
pub fn diff_sorted_env(before: &Vec<(String, String)>, after: &Vec<(String, String)>) -> (r: EnvDiff)
    ensures
        r@ == diff_from(pair_views(before@), pair_views(after@), 0, 0, DiffView::empty()),
{
    let ghost bv = pair_views(before@);
    let ghost av = pair_views(after@);
    let mut d = EnvDiff { set: Vec::new(), unset: Vec::new() };
    assert(d@ =~= DiffView::empty());
    let mut i: usize = 0;
    let mut j: usize = 0;
    let n = before.len();
    let m = after.len();
    while i < n || j < m
        invariant
            i <= n,
            j <= m,
            n == before.len(),
            m == after.len(),
            bv == pair_views(before@),
            av == pair_views(after@),
            diff_from(bv, av, 0, 0, DiffView::empty()) == diff_from(bv, av, i as int, j as int, d@),
        decreases n - i + m - j,
    {
        let ghost had = d@;
        if i >= n {
            assert(av[j as int] == (after@[j as int].0@, after@[j as int].1@));
            push_pair(&mut d.set, &after[j]);
            assert(d@ =~= had.setting(av[j as int]));
            j += 1;
        } else if j >= m {
            assert(bv[i as int].0 == before@[i as int].0@);
            push_string(&mut d.unset, &before[i].0);
            assert(d@ =~= had.unsetting(bv[i as int].0));
            i += 1;
        } else {
            assert(bv[i as int] == (before@[i as int].0@, before@[i as int].1@));
            assert(av[j as int] == (after@[j as int].0@, after@[j as int].1@));
            let x = chars_of(before[i].0.as_str());
            let y = chars_of(after[j].0.as_str());
            if chars_eq(x.as_slice(), y.as_slice()) {
                if !str_eq(before[i].1.as_str(), after[j].1.as_str()) {
                    push_pair(&mut d.set, &after[j]);
                    assert(d@ =~= had.setting(av[j as int]));
                }
                i += 1;
                j += 1;
            } else if chars_le(&x, &y) {
                push_string(&mut d.unset, &before[i].0);
                assert(d@ =~= had.unsetting(bv[i as int].0));
                i += 1;
            } else {
                push_pair(&mut d.set, &after[j]);
                assert(d@ =~= had.setting(av[j as int]));
                j += 1;
            }
        }
    }
    d
}

// -- Laws --

/// A text without white space at its ends is trimmed.
proof fn lemma_trimmed_already(s: Seq<char>)
    requires
        s.len() > 0,
        !spec_is_whitespace(s[0]),
        !spec_is_whitespace(s.last()),
    ensures
        trimmed(s) == s,
{
    assert(s.take(s.len() as int) =~= s);
    assert(s.skip(0) =~= s);
}

/// A value in single quotes is taken as it stands.
pub proof fn law_single_quotes_are_literal(key: Seq<char>, value: Seq<char>)
    requires
        key.len() > 0,
        !key.contains('='),
        key[0] != '#',
        !spec_is_whitespace(key[0]),
        !spec_is_whitespace(key.last()),
        !starts_with(key, "export "@),
    ensures
        assignment_in(key + seq!['=', '\''] + value + seq!['\'']) == Some((key, value)),
{
    let quoted = seq!['\''] + value + seq!['\''];
    let line = key + seq!['=', '\''] + value + seq!['\''];
    reveal_strlit("export ");
    assert(line =~= key + seq!['='] + quoted);
    lemma_trimmed_already(line);
    lemma_trimmed_already(quoted);
    lemma_trimmed_already(key);
    if starts_with(line, "export "@) {
        let n = key.len() as int;
        assert(line.subrange(0, 7) =~= "export "@);
        if n < 7 {
            assert(line.subrange(0, 7)[n] == '=');
        } else {
            assert(key.subrange(0, 7) =~= "export "@);
        }
    }
    lemma_index_from(line, '=', 0);
    let eq = index_from(line, '=', 0);
    assert(line[key.len() as int] == '=');
    if eq < key.len() {
        assert(key[eq] == '=');
    }
    assert(eq == key.len());
    assert(line.take(eq) =~= key);
    assert(line.skip(eq + 1) =~= quoted);
    assert(quoted.subrange(1, quoted.len() - 1) =~= value);
}

} // verus!
