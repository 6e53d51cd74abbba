//! Word expansion: tilde, variables, command substitution, glob.
//!
//! `LITERAL` before a character means that no expansion looks at it. The commands of a
//! substitution are run, and directories are listed, by the caller: `expand_word` says what
//! to run, `finish_word` puts the output in place, and `Glob` says which directories to list.
use vstd::prelude::*;

use crate::error::{Error, ErrorView};
use crate::parse::{mark, single_quoted, spec_is_expandable, unescape, unmarked, LITERAL};
use crate::sort::{sorted_strings, strings_sorted};
use crate::text::{
    chars_of, ends_with, find, find_char, first_occurrence, has_char, index_from, last_occurrence,
    lemma_index_from, matches_at, push_all, push_str, rfind, signed_decimal, signed_decimal_of,
    split, split_on, starts_with, str_eq, string_of, strs, substring,
};

verus! {

// -- Tilde Expansion --

/// `~` and `~/rest` start with the home directory.
pub open spec fn tilde_expanded(word: Seq<char>, home: Seq<char>) -> Seq<char> {
    if word.len() > 0 && word[0] == '~' && (word.len() == 1 || word[1] == '/') {
        home + word.skip(1)
    } else {
        word
    }
}

pub fn expand_tilde(word: &str, home: &str) -> (r: String)
    ensures
        r@ == tilde_expanded(word@, home@),
{
    let w = chars_of(word);
    if w.len() > 0 && w[0] == '~' && (w.len() == 1 || w[1] == '/') {
        let mut v = chars_of(home);
        let rest = substring(&w, 1, w.len());
        push_str(&mut v, rest.as_str());
        assert(rest@ =~= word@.skip(1));
        string_of(v.as_slice())
    } else {
        word.to_owned()
    }
}

// -- Variable Expansion --

/// Value of the first variable called `name` among those from `i` on.
pub open spec fn value_from(env: Seq<(String, String)>, name: Seq<char>, i: int) -> Option<
    Seq<char>,
>
    decreases env.len() - i,
{
    if i < 0 || i >= env.len() {
        None
    } else if env[i].0@ == name {
        Some(env[i].1@)
    } else {
        value_from(env, name, i + 1)
    }
}

/// Value of a variable of the environment `env`, if it is set.
pub open spec fn value_of(env: Seq<(String, String)>, name: Seq<char>) -> Option<Seq<char>> {
    value_from(env, name, 0)
}

fn lookup(env: &Vec<(String, String)>, name: &str) -> (r: Option<String>)
    ensures
        match value_of(env@, name@) {
            Some(v) => r matches Some(s) && s@ == v,
            None => r is None,
        },
{
    let mut i: usize = 0;
    while i < env.len()
        invariant
            i <= env.len(),
            value_of(env@, name@) == value_from(env@, name@, i as int),
        decreases env.len() - i,
    {
        if str_eq(env[i].0.as_str(), name) {
            return Some(env[i].1.clone());
        }
        i += 1;
    }
    None
}

/// The characters of a variable's name.
pub open spec fn spec_is_name_char(c: char) -> bool {
    ||| '0' <= c <= '9'
    ||| 'a' <= c <= 'z'
    ||| 'A' <= c <= 'Z'
    ||| c == '_'
}

pub(crate) fn is_name_char(c: char) -> (r: bool)
    ensures
        r == spec_is_name_char(c),
{
    let u = c as u32;
    (48 <= u && u <= 57) || (97 <= u && u <= 122) || (65 <= u && u <= 90) || u == 95
}

/// Index after the name that starts at `i`.
pub open spec fn name_end(s: Seq<char>, i: int) -> int
    decreases s.len() - i,
{
    if 0 <= i < s.len() && spec_is_name_char(s[i]) {
        name_end(s, i + 1)
    } else {
        i
    }
}

pub proof fn lemma_name_end(s: Seq<char>, i: int)
    requires
        0 <= i <= s.len(),
    ensures
        i <= name_end(s, i) <= s.len(),
    decreases s.len() - i,
{
    if i < s.len() && spec_is_name_char(s[i]) {
        lemma_name_end(s, i + 1);
    }
}

fn scan_name(s: &Vec<char>, start: usize) -> (r: usize)
    requires
        start <= s.len(),
    ensures
        r == name_end(s@, start as int),
        start <= r <= s.len(),
{
    let mut i: usize = start;
    while i < s.len() && is_name_char(s[i])
        invariant
            start <= i <= s.len(),
            name_end(s@, start as int) == name_end(s@, i as int),
        decreases s.len() - i,
    {
        i += 1;
    }
    i
}

/// Index after the marker at `i` and the character it marks.
pub open spec fn past_marked(s: Seq<char>, i: int) -> int {
    if i + 1 < s.len() {
        i + 2
    } else {
        i + 1
    }
}

/// Index after the brace that closes the `depth` braces open at `i`, if there is one.
pub open spec fn brace_end(s: Seq<char>, i: int, depth: int) -> Option<int>
    decreases s.len() - i,
{
    if depth <= 0 {
        Some(i)
    } else if i < 0 || i >= s.len() {
        None
    } else if s[i] == LITERAL {
        brace_end(s, past_marked(s, i), depth)
    } else if s[i] == '{' {
        brace_end(s, i + 1, depth + 1)
    } else if s[i] == '}' {
        brace_end(s, i + 1, depth - 1)
    } else {
        brace_end(s, i + 1, depth)
    }
}

pub proof fn lemma_brace_end(s: Seq<char>, i: int, depth: int)
    requires
        0 <= i <= s.len(),
    ensures
        brace_end(s, i, depth) matches Some(e) ==> i <= e <= s.len() && (depth > 0 ==> i < e),
    decreases s.len() - i,
{
    if i < s.len() && depth > 0 {
        if s[i] == LITERAL {
            lemma_brace_end(s, past_marked(s, i), depth);
        } else if s[i] == '{' {
            lemma_brace_end(s, i + 1, depth + 1);
        } else if s[i] == '}' {
            lemma_brace_end(s, i + 1, depth - 1);
        } else {
            lemma_brace_end(s, i + 1, depth);
        }
    }
}

fn scan_braces(s: &Vec<char>, start: usize) -> (r: Option<usize>)
    requires
        1 <= start < s.len(),
    ensures
        match r {
            Some(e) => brace_end(s@, start as int, 1) == Some(e as int) && start < e <= s.len(),
            None => brace_end(s@, start as int, 1) is None,
        },
{
    proof {
        lemma_brace_end(s@, start as int, 1);
    }
    let mut i: usize = start;
    let mut depth: usize = 1;
    while i < s.len() && depth > 0
        invariant
            1 <= start <= i <= s.len(),
            depth <= i - start + 1,
            brace_end(s@, start as int, 1) == brace_end(s@, i as int, depth as int),
        decreases s.len() - i,
    {
        if s[i] == LITERAL {
            if i + 1 < s.len() {
                i += 2;
            } else {
                i += 1;
            }
        } else if s[i] == '{' {
            depth += 1;
            i += 1;
        } else if s[i] == '}' {
            depth -= 1;
            i += 1;
        } else {
            i += 1;
        }
    }
    if depth > 0 {
        return None;
    }
    Some(i)
}

/// `val` without the shortest prefix that `*suffix` matches, or without the fixed part of
/// the pattern. The pattern `*` matches all of it.
pub open spec fn prefix_stripped(val: Seq<char>, pattern: Seq<char>) -> Seq<char> {
    if pattern == seq!['*'] {
        Seq::empty()
    } else if pattern.len() > 0 && pattern[0] == '*' {
        let suffix = pattern.skip(1);
        if exists|i: int| first_occurrence(val, suffix, i) {
            let i = choose|i: int| first_occurrence(val, suffix, i);
            val.skip(i + suffix.len())
        } else {
            val
        }
    } else {
        let fixed = if pattern.len() > 0 && pattern.last() == '*' {
            pattern.drop_last()
        } else {
            pattern
        };
        if starts_with(val, fixed) {
            val.skip(fixed.len() as int)
        } else {
            val
        }
    }
}

/// `val` without the shortest suffix that `prefix*` matches, or without the fixed part of
/// the pattern. The pattern `*` matches all of it.
pub open spec fn suffix_stripped(val: Seq<char>, pattern: Seq<char>) -> Seq<char> {
    if pattern == seq!['*'] {
        Seq::empty()
    } else if pattern.len() > 0 && pattern.last() == '*' {
        let prefix = pattern.drop_last();
        if exists|i: int| last_occurrence(val, prefix, i) {
            let i = choose|i: int| last_occurrence(val, prefix, i);
            val.take(i)
        } else {
            val
        }
    } else {
        let fixed = if pattern.len() > 0 && pattern[0] == '*' {
            pattern.skip(1)
        } else {
            pattern
        };
        if ends_with(val, fixed) {
            val.take(val.len() - fixed.len())
        } else {
            val
        }
    }
}

/// Remove the shortest prefix matching a simple glob pattern (`*` only).
pub fn strip_prefix_glob(val: &str, pattern: &str) -> (r: String)
    ensures
        r@ == prefix_stripped(val@, pattern@),
{
    let v = chars_of(val);
    let p = chars_of(pattern);
    if p.len() == 1 && p[0] == '*' {
        assert(p@ =~= seq!['*']);
        return String::new();
    }
    if p.len() > 0 && p[0] == '*' {
        let suffix = chars_of(substring(&p, 1, p.len()).as_str());
        assert(suffix@ =~= p@.skip(1));
        let total = v.len();
        match find(&v, &suffix) {
            Some(i) => {
                proof {
                    assert(first_occurrence(v@, suffix@, i as int));
                    let k = choose|k: int| first_occurrence(v@, suffix@, k);
                    assert(k == i);
                }
                let r = substring(&v, i + suffix.len(), total);
                assert(r@ =~= v@.skip(i + suffix@.len()));
                r
            },
            None => val.to_owned(),
        }
    } else {
        let n = if p.len() > 0 && p[p.len() - 1] == '*' {
            p.len() - 1
        } else {
            p.len()
        };
        let fixed = chars_of(substring(&p, 0, n).as_str());
        assert(p@.subrange(0, n as int) =~= if p@.len() > 0 && p@.last() == '*' {
            p@.drop_last()
        } else {
            p@
        });
        if matches_at(&v, &fixed, 0) {
            let r = substring(&v, fixed.len(), v.len());
            assert(r@ =~= v@.skip(fixed@.len() as int));
            r
        } else {
            val.to_owned()
        }
    }
}

/// Remove the shortest suffix matching a simple glob pattern (`*` only).
pub fn strip_suffix_glob(val: &str, pattern: &str) -> (r: String)
    ensures
        r@ == suffix_stripped(val@, pattern@),
{
    let v = chars_of(val);
    let p = chars_of(pattern);
    if p.len() == 1 && p[0] == '*' {
        assert(p@ =~= seq!['*']);
        return String::new();
    }
    if p.len() > 0 && p[p.len() - 1] == '*' {
        let prefix = chars_of(substring(&p, 0, p.len() - 1).as_str());
        assert(prefix@ =~= p@.drop_last());
        match rfind(&v, &prefix) {
            Some(i) => {
                proof {
                    assert(last_occurrence(v@, prefix@, i as int));
                    let k = choose|k: int| last_occurrence(v@, prefix@, k);
                    assert(k == i);
                }
                let r = substring(&v, 0, i);
                assert(r@ =~= v@.take(i as int));
                r
            },
            None => val.to_owned(),
        }
    } else {
        let n: usize = if p.len() > 0 && p[0] == '*' {
            1
        } else {
            0
        };
        let fixed = chars_of(substring(&p, n, p.len()).as_str());
        assert(fixed@ =~= if p@.len() > 0 && p@[0] == '*' {
            p@.skip(1)
        } else {
            p@
        });
        if fixed.len() <= v.len() && matches_at(&v, &fixed, v.len() - fixed.len()) {
            let r = substring(&v, 0, v.len() - fixed.len());
            assert(r@ =~= v@.take(v@.len() - fixed@.len()));
            r
        } else {
            val.to_owned()
        }
    }
}

/// Text of `${NAMEop}` with the operator and operand `op`, where the variable's value is
/// `val`.
pub open spec fn operand_text(op: Seq<char>, val: Option<Seq<char>>) -> Seq<char> {
    let filled = val matches Some(v) && v.len() > 0;
    if starts_with(op, ":-"@) {
        if filled {
            val->0
        } else {
            op.skip(2)
        }
    } else if starts_with(op, "-"@) {
        if val is Some {
            val->0
        } else {
            op.skip(1)
        }
    } else if starts_with(op, ":+"@) {
        if filled {
            op.skip(2)
        } else {
            Seq::empty()
        }
    } else if starts_with(op, "+"@) {
        if val is Some {
            op.skip(1)
        } else {
            Seq::empty()
        }
    } else if starts_with(op, "#"@) && val is Some {
        prefix_stripped(val->0, op.skip(1))
    } else if starts_with(op, "%"@) && val is Some {
        suffix_stripped(val->0, op.skip(1))
    } else {
        Seq::empty()
    }
}

proof fn lemma_starts_with_one(op: Seq<char>, lit: Seq<char>, c: char)
    requires
        lit == seq![c],
    ensures
        starts_with(op, lit) == (op.len() > 0 && op[0] == c),
{
    if op.len() > 0 && op[0] == c {
        assert(op.subrange(0, 1) =~= lit);
    } else if starts_with(op, lit) {
        assert(op.subrange(0, 1)[0] == c);
    }
}

proof fn lemma_starts_with_two(op: Seq<char>, lit: Seq<char>, c: char, d: char)
    requires
        lit == seq![c, d],
    ensures
        starts_with(op, lit) == (op.len() > 1 && op[0] == c && op[1] == d),
{
    if op.len() > 1 && op[0] == c && op[1] == d {
        assert(op.subrange(0, 2) =~= lit);
    } else if starts_with(op, lit) {
        assert(op.subrange(0, 2)[0] == c);
        assert(op.subrange(0, 2)[1] == d);
    }
}

fn apply_operand(operand: &str, val: &Option<String>) -> (r: String)
    ensures
        r@ == operand_text(
            operand@,
            match val {
                Some(v) => Some(v@),
                None => None,
            },
        ),
{
    let op = chars_of(operand);
    proof {
        reveal_strlit(":-");
        reveal_strlit("-");
        reveal_strlit(":+");
        reveal_strlit("+");
        reveal_strlit("#");
        reveal_strlit("%");
        assert(":-"@ =~= seq![':', '-']);
        assert("-"@ =~= seq!['-']);
        assert(":+"@ =~= seq![':', '+']);
        assert("+"@ =~= seq!['+']);
        assert("#"@ =~= seq!['#']);
        assert("%"@ =~= seq!['%']);
        lemma_starts_with_two(op@, ":-"@, ':', '-');
        lemma_starts_with_two(op@, ":+"@, ':', '+');
        lemma_starts_with_one(op@, "-"@, '-');
        lemma_starts_with_one(op@, "+"@, '+');
        lemma_starts_with_one(op@, "#"@, '#');
        lemma_starts_with_one(op@, "%"@, '%');
    }
    let first = if op.len() > 0 {
        op[0]
    } else {
        ' '
    };
    let second = if op.len() > 1 {
        op[1]
    } else {
        ' '
    };
    if first == ':' && second == '-' {
        match val {
            Some(v) if !v.as_str().is_empty() => v.clone(),
            _ => {
                let r = substring(&op, 2, op.len());
                assert(r@ =~= op@.skip(2));
                r
            },
        }
    } else if first == '-' {
        match val {
            Some(v) => v.clone(),
            None => {
                let r = substring(&op, 1, op.len());
                assert(r@ =~= op@.skip(1));
                r
            },
        }
    } else if first == ':' && second == '+' {
        match val {
            Some(v) if !v.as_str().is_empty() => {
                let r = substring(&op, 2, op.len());
                assert(r@ =~= op@.skip(2));
                r
            },
            _ => String::new(),
        }
    } else if first == '+' {
        match val {
            Some(_) => {
                let r = substring(&op, 1, op.len());
                assert(r@ =~= op@.skip(1));
                r
            },
            None => String::new(),
        }
    } else if first == '#' {
        match val {
            Some(v) => {
                let pat = substring(&op, 1, op.len());
                assert(pat@ =~= op@.skip(1));
                strip_prefix_glob(v.as_str(), pat.as_str())
            },
            None => String::new(),
        }
    } else if first == '%' {
        match val {
            Some(v) => {
                let pat = substring(&op, 1, op.len());
                assert(pat@ =~= op@.skip(1));
                strip_suffix_glob(v.as_str(), pat.as_str())
            },
            None => String::new(),
        }
    } else {
        String::new()
    }
}

/// Text of the `${...}` whose inside starts at `start`, and the index after it. An empty
/// name stands for nothing; an operand without a closing brace reaches to the end.
pub open spec fn braced_var(s: Seq<char>, start: int, env: Seq<(String, String)>) -> (
    Seq<char>,
    int,
) {
    let i = name_end(s, start);
    let name = s.subrange(start, i);
    if i < s.len() && s[i] == '}' {
        let text = if name.len() > 0 && value_of(env, name) is Some {
            value_of(env, name)->0
        } else {
            Seq::empty()
        };
        (text, i + 1)
    } else if i >= s.len() || name.len() == 0 {
        let k = index_from(s, '}', i);
        (
            Seq::empty(),
            if k < s.len() {
                k + 1
            } else {
                k
            },
        )
    } else {
        let (operand, end) = match brace_end(s, i, 1) {
            Some(e) => (s.subrange(i, e - 1), e),
            None => (s.skip(i), s.len() as int),
        };
        (operand_text(unmarked(operand), value_of(env, name)), end)
    }
}

pub proof fn lemma_braced_var(s: Seq<char>, start: int, env: Seq<(String, String)>)
    requires
        0 <= start <= s.len(),
    ensures
        start <= braced_var(s, start, env).1 <= s.len(),
{
    lemma_name_end(s, start);
    let i = name_end(s, start);
    lemma_index_from(s, '}', i);
    lemma_brace_end(s, i, 1);
}

/// Expand a `${...}` parameter substitution, whose inside starts at `start`. Returns its
/// text and the index after it.
fn expand_braced_var(s: &Vec<char>, start: usize, env: &Vec<(String, String)>) -> (r: (
    String,
    usize,
))
    requires
        1 <= start <= s.len(),
    ensures
        r.0@ == braced_var(s@, start as int, env@).0,
        r.1 == braced_var(s@, start as int, env@).1,
        start <= r.1 <= s.len(),
{
    let i = scan_name(s, start);
    let name = substring(s, start, i);
    if i < s.len() && s[i] == '}' {
        if start < i {
            match lookup(env, name.as_str()) {
                Some(v) => {
                    return (v, i + 1);
                },
                None => {},
            }
        }
        return (String::new(), i + 1);
    }
    if i >= s.len() || start == i {
        let k = find_char(s, '}', i);
        return (
            String::new(),
            if k < s.len() {
                k + 1
            } else {
                k
            },
        );
    }
    let val = lookup(env, name.as_str());
    let (to, end) = match scan_braces(s, i) {
        Some(e) => (e - 1, e),
        None => (s.len(), s.len()),
    };
    let raw = substring(s, i, to);
    assert(s@.subrange(i as int, s@.len() as int) =~= s@.skip(i as int));
    let operand = unescape(raw.as_str());
    (apply_operand(operand.as_str(), &val), end)
}

/// Text of the variable reference or other character at `i`, and the index after it.
pub open spec fn var_at(
    s: Seq<char>,
    i: int,
    status: int,
    env: Seq<(String, String)>,
) -> (Seq<char>, int) {
    if s[i] == LITERAL {
        if i + 1 < s.len() {
            (seq![LITERAL, s[i + 1]], i + 2)
        } else {
            (seq![LITERAL], i + 1)
        }
    } else if s[i] == '$' {
        if i + 1 < s.len() && s[i + 1] == '(' {
            (seq!['$'], i + 1)
        } else if i + 1 < s.len() && s[i + 1] == '?' {
            (signed_decimal(status), i + 2)
        } else if i + 1 < s.len() && s[i + 1] == '{' {
            braced_var(s, i + 2, env)
        } else {
            let e = name_end(s, i + 1);
            if e == i + 1 {
                (seq!['$'], e)
            } else {
                match value_of(env, s.subrange(i + 1, e)) {
                    Some(v) => (v, e),
                    None => (Seq::empty(), e),
                }
            }
        }
    } else {
        (seq![s[i]], i + 1)
    }
}

pub proof fn lemma_var_at(s: Seq<char>, i: int, status: int, env: Seq<(String, String)>)
    requires
        0 <= i < s.len(),
    ensures
        i < var_at(s, i, status, env).1 <= s.len(),
{
    if i + 1 < s.len() && s[i + 1] == '{' {
        lemma_braced_var(s, i + 2, env);
    }
    lemma_name_end(s, i + 1);
}

/// `s` from `i` on with its variables expanded. What comes after a marker is kept, and so
/// is the `$` of a command substitution.
pub open spec fn vars_from(
    s: Seq<char>,
    i: int,
    status: int,
    env: Seq<(String, String)>,
) -> Seq<char>
    decreases s.len() - i,
    when 0 <= i <= s.len()
{
    if i >= s.len() {
        Seq::empty()
    } else {
        proof {
            lemma_var_at(s, i, status, env);
        }
        let (text, j) = var_at(s, i, status, env);
        text + vars_from(s, j, status, env)
    }
}

/// Expands `$NAME`, `${...}` and `$?`.
pub fn expand_variables(word: &str, last_status: i32, env: &Vec<(String, String)>) -> (r: String)
    ensures
        r@ == vars_from(word@, 0, last_status as int, env@),
{
    let s = chars_of(word);
    let mut out: Vec<char> = Vec::new();
    let mut i: usize = 0;
    let ghost st = last_status as int;
    assert(out@ + vars_from(s@, 0, st, env@) =~= vars_from(s@, 0, st, env@));
    while i < s.len()
        invariant
            i <= s.len(),
            s@ == word@,
            st == last_status as int,
            vars_from(s@, 0, st, env@) == out@ + vars_from(s@, i as int, st, env@),
        decreases s.len() - i,
    {
        let ghost had = out@;
        let ghost (text, next) = var_at(s@, i as int, st, env@);
        proof {
            lemma_var_at(s@, i as int, st, env@);
            assert(had + (text + vars_from(s@, next, st, env@)) =~= (had + text) + vars_from(
                s@,
                next,
                st,
                env@,
            ));
        }
        if s[i] == LITERAL {
            out.push(LITERAL);
            i += 1;
            if i < s.len() {
                out.push(s[i]);
                i += 1;
            }
        } else if s[i] == '$' {
            if i + 1 < s.len() && s[i + 1] == '(' {
                out.push('$');
                i += 1;
            } else if i + 1 < s.len() && s[i + 1] == '?' {
                let d = signed_decimal_of(last_status);
                push_all(&mut out, d.as_slice());
                i += 2;
            } else if i + 1 < s.len() && s[i + 1] == '{' {
                let (t, j) = expand_braced_var(&s, i + 2, env);
                push_str(&mut out, t.as_str());
                i = j;
            } else {
                let e = scan_name(&s, i + 1);
                if e == i + 1 {
                    out.push('$');
                } else {
                    match lookup(env, substring(&s, i + 1, e).as_str()) {
                        Some(v) => {
                            push_str(&mut out, v.as_str());
                        },
                        None => {},
                    }
                }
                i = e;
            }
        } else {
            out.push(s[i]);
            i += 1;
        }
        assert(i == next);
        assert(out@ =~= had + text);
    }
    assert(out@ + Seq::<char>::empty() =~= out@);
    string_of(out.as_slice())
}

// -- Command Substitution --

/// A piece of a word: text, or a command whose output takes its place.
#[derive(Debug)]
pub enum Part {
    Text(String),
    Run(String),
}

pub enum PartView {
    Text(Seq<char>),
    Run(Seq<char>),
}

impl View for Part {
    type V = PartView;

    open spec fn view(&self) -> PartView {
        match self {
            Part::Text(s) => PartView::Text(s@),
            Part::Run(s) => PartView::Run(s@),
        }
    }
}

pub open spec fn part_views(ps: Seq<Part>) -> Seq<PartView> {
    Seq::new(ps.len(), |i: int| ps[i]@)
}

/// Index of the parenthesis that closes the `depth` open at `i`.
pub open spec fn paren_end(s: Seq<char>, i: int, depth: int) -> Option<int>
    decreases s.len() - i,
{
    if i < 0 || i >= s.len() {
        None
    } else if s[i] == LITERAL {
        paren_end(s, past_marked(s, i), depth)
    } else if s[i] == '(' {
        paren_end(s, i + 1, depth + 1)
    } else if s[i] == ')' {
        if depth <= 1 {
            Some(i)
        } else {
            paren_end(s, i + 1, depth - 1)
        }
    } else {
        paren_end(s, i + 1, depth)
    }
}

/// Index of the first backtick at or after `i` without a marker.
pub open spec fn backtick_end(s: Seq<char>, i: int) -> Option<int>
    decreases s.len() - i,
{
    if i < 0 || i >= s.len() {
        None
    } else if s[i] == LITERAL {
        backtick_end(s, past_marked(s, i))
    } else if s[i] == '`' {
        Some(i)
    } else {
        backtick_end(s, i + 1)
    }
}

pub proof fn lemma_subst_ends(s: Seq<char>, i: int, depth: int)
    requires
        0 <= i,
    ensures
        paren_end(s, i, depth) matches Some(e) ==> i <= e < s.len(),
        backtick_end(s, i) matches Some(e) ==> i <= e < s.len(),
    decreases s.len() - i,
{
    if i < s.len() {
        if s[i] == LITERAL {
            lemma_subst_ends(s, past_marked(s, i), depth);
        } else if s[i] == '(' {
            lemma_subst_ends(s, i + 1, depth + 1);
        } else if s[i] == ')' && depth > 1 {
            lemma_subst_ends(s, i + 1, depth - 1);
        } else {
            lemma_subst_ends(s, i + 1, depth);
        }
    }
}

fn find_matching_paren(s: &Vec<char>, start: usize) -> (r: Result<usize, Error>)
    requires
        1 <= start <= s.len(),
    ensures
        match paren_end(s@, start as int, 1) {
            Some(e) => r matches Ok(k) && k == e && start <= k < s.len(),
            None => r matches Err(x) && x@ == ErrorView::BadSubstitution("unclosed $("@),
        },
{
    let mut i: usize = start;
    let mut depth: usize = 1;
    while i < s.len()
        invariant
            1 <= start <= i <= s.len(),
            1 <= depth <= i - start + 1,
            paren_end(s@, start as int, 1) == paren_end(s@, i as int, depth as int),
        decreases s.len() - i,
    {
        if s[i] == LITERAL {
            if i + 1 < s.len() {
                i += 2;
            } else {
                i += 1;
            }
        } else if s[i] == '(' {
            depth += 1;
            i += 1;
        } else if s[i] == ')' {
            if depth == 1 {
                return Ok(i);
            }
            depth -= 1;
            i += 1;
        } else {
            i += 1;
        }
    }
    Err(Error::bad_substitution("unclosed $("))
}

fn find_backtick_end(s: &Vec<char>, start: usize) -> (r: Result<usize, Error>)
    requires
        start <= s.len(),
    ensures
        match backtick_end(s@, start as int) {
            Some(e) => r matches Ok(k) && k == e && start <= k < s.len(),
            None => r matches Err(x) && x@ == ErrorView::BadSubstitution("unclosed backtick"@),
        },
{
    let mut i: usize = start;
    while i < s.len()
        invariant
            start <= i <= s.len(),
            backtick_end(s@, start as int) == backtick_end(s@, i as int),
        decreases s.len() - i,
    {
        if s[i] == LITERAL {
            if i + 1 < s.len() {
                i += 2;
            } else {
                i += 1;
            }
        } else if s[i] == '`' {
            return Ok(i);
        } else {
            i += 1;
        }
    }
    Err(Error::bad_substitution("unclosed backtick"))
}

/// `done` with the text read since, if any.
pub open spec fn flushed(done: Seq<PartView>, text: Seq<char>) -> Seq<PartView> {
    if text.len() == 0 {
        done
    } else {
        done.push(PartView::Text(text))
    }
}

/// The parts of `s`, of which `done` and then `text` have been read before `i`, and the
/// error at the substitution that is not closed, if there is one.
pub open spec fn parts_from(s: Seq<char>, i: int, done: Seq<PartView>, text: Seq<char>) -> (
    Seq<PartView>,
    Option<ErrorView>,
)
    decreases s.len() - i,
    when 0 <= i
{
    if i >= s.len() {
        (flushed(done, text), None)
    } else if s[i] == LITERAL {
        if i + 1 < s.len() {
            parts_from(s, i + 2, done, text + seq![LITERAL, s[i + 1]])
        } else {
            parts_from(s, i + 1, done, text + seq![LITERAL])
        }
    } else if s[i] == '$' && i + 1 < s.len() && s[i + 1] == '(' {
        match paren_end(s, i + 2, 1) {
            None => (
                flushed(done, text),
                Some(ErrorView::BadSubstitution("unclosed $("@)),
            ),
            Some(e) => {
                proof {
                    lemma_subst_ends(s, i + 2, 1);
                }
                parts_from(
                    s,
                    e + 1,
                    flushed(done, text).push(PartView::Run(unmarked(s.subrange(i + 2, e)))),
                    Seq::empty(),
                )
            },
        }
    } else if s[i] == '`' {
        match backtick_end(s, i + 1) {
            None => (
                flushed(done, text),
                Some(ErrorView::BadSubstitution("unclosed backtick"@)),
            ),
            Some(e) => {
                proof {
                    lemma_subst_ends(s, i + 1, 1);
                }
                parts_from(
                    s,
                    e + 1,
                    flushed(done, text).push(PartView::Run(unmarked(s.subrange(i + 1, e)))),
                    Seq::empty(),
                )
            },
        }
    } else {
        parts_from(s, i + 1, done, text.push(s[i]))
    }
}

fn flush(parts: &mut Vec<Part>, text: &Vec<char>)
    ensures
        part_views(final(parts)@) == flushed(part_views(old(parts)@), text@),
{
    if text.len() > 0 {
        parts.push(Part::Text(string_of(text.as_slice())));
        assert(part_views(parts@) =~= part_views(old(parts)@).push(PartView::Text(text@)));
    }
}

/// Splits a word into text and the commands of `$(...)` and backticks. With an error, the
/// parts are those before the substitution that is not closed.
fn expand_command_subst(word: &str) -> (r: (Vec<Part>, Option<Error>))
    ensures
        part_views(r.0@) == parts_from(word@, 0, Seq::empty(), Seq::empty()).0,
        match parts_from(word@, 0, Seq::empty(), Seq::empty()).1 {
            Some(e) => r.1 matches Some(x) && x@ == e,
            None => r.1 is None,
        },
{
    let s = chars_of(word);
    let mut parts: Vec<Part> = Vec::new();
    let mut text: Vec<char> = Vec::new();
    let mut i: usize = 0;
    assert(part_views(parts@) =~= Seq::empty());
    assert(text@ =~= Seq::empty());
    while i < s.len()
        invariant
            i <= s.len(),
            s@ == word@,
            parts_from(word@, 0, Seq::empty(), Seq::empty()) == parts_from(
                s@,
                i as int,
                part_views(parts@),
                text@,
            ),
        decreases s.len() - i,
    {
        if s[i] == LITERAL {
            let ghost had = text@;
            text.push(LITERAL);
            if i + 1 < s.len() {
                text.push(s[i + 1]);
                assert(text@ =~= had + seq![LITERAL, s@[i + 1]]);
                i += 2;
            } else {
                assert(text@ =~= had + seq![LITERAL]);
                i += 1;
            }
        } else if s[i] == '$' && i + 1 < s.len() && s[i + 1] == '(' {
            flush(&mut parts, &text);
            match find_matching_paren(&s, i + 2) {
                Err(e) => {
                    return (parts, Some(e));
                },
                Ok(end) => {
                    let ghost had = part_views(parts@);
                    let cmd = unescape(substring(&s, i + 2, end).as_str());
                    let ghost c = cmd@;
                    parts.push(Part::Run(cmd));
                    assert(part_views(parts@) =~= had.push(PartView::Run(c)));
                    text = Vec::new();
                    assert(text@ =~= Seq::empty());
                    i = end + 1;
                },
            }
        } else if s[i] == '`' {
            flush(&mut parts, &text);
            match find_backtick_end(&s, i + 1) {
                Err(e) => {
                    return (parts, Some(e));
                },
                Ok(end) => {
                    let ghost had = part_views(parts@);
                    let cmd = unescape(substring(&s, i + 1, end).as_str());
                    let ghost c = cmd@;
                    parts.push(Part::Run(cmd));
                    assert(part_views(parts@) =~= had.push(PartView::Run(c)));
                    text = Vec::new();
                    assert(text@ =~= Seq::empty());
                    i = end + 1;
                },
            }
        } else {
            text.push(s[i]);
            i += 1;
        }
    }
    flush(&mut parts, &text);
    (parts, None)
}

/// `s` without the newlines at its end.
pub open spec fn newlines_trimmed(s: Seq<char>) -> Seq<char>
    decreases s.len(),
{
    if s.len() > 0 && s.last() == '\n' {
        newlines_trimmed(s.drop_last())
    } else {
        s
    }
}

fn trim_newlines(s: &str) -> (r: String)
    ensures
        r@ == newlines_trimmed(s@),
{
    let v = chars_of(s);
    let mut n: usize = v.len();
    assert(v@.take(n as int) =~= v@);
    while n > 0 && v[n - 1] == '\n'
        invariant
            n <= v.len(),
            newlines_trimmed(v@) == newlines_trimmed(v@.take(n as int)),
        decreases n,
    {
        assert(v@.take(n as int).drop_last() =~= v@.take(n - 1));
        n -= 1;
    }
    let r = substring(&v, 0, n);
    assert(r@ =~= v@.take(n as int));
    r
}

/// How many of the parts from `i` on are commands.
pub open spec fn runs_from(parts: Seq<PartView>, i: int) -> nat
    decreases parts.len() - i,
{
    if i < 0 || i >= parts.len() {
        0
    } else {
        runs_from(parts, i + 1) + if parts[i] is Run {
            1nat
        } else {
            0nat
        }
    }
}

/// The parts from `i` on put together, where the outputs from `k` on are those of the
/// commands among them.
pub open spec fn joined_from(
    parts: Seq<PartView>,
    outputs: Seq<Seq<char>>,
    i: int,
    k: int,
) -> Seq<char>
    decreases parts.len() - i,
{
    if i < 0 || i >= parts.len() {
        Seq::empty()
    } else {
        match parts[i] {
            PartView::Text(t) => t + joined_from(parts, outputs, i + 1, k),
            PartView::Run(_) => newlines_trimmed(outputs[k]) + joined_from(
                parts,
                outputs,
                i + 1,
                k + 1,
            ),
        }
    }
}

/// Puts the outputs of a word's commands, without their trailing newlines, in their places.
fn join_parts(parts: &Vec<Part>, outputs: &Vec<String>) -> (r: String)
    requires
        outputs.len() >= runs_from(part_views(parts@), 0),
    ensures
        r@ == joined_from(part_views(parts@), strs(outputs@), 0, 0),
{
    let mut out: Vec<char> = Vec::new();
    let mut i: usize = 0;
    let mut k: usize = 0;
    let ghost ps = part_views(parts@);
    let ghost os = strs(outputs@);
    assert(out@ + joined_from(ps, os, 0, 0) =~= joined_from(ps, os, 0, 0));
    while i < parts.len()
        invariant
            i <= parts.len(),
            ps == part_views(parts@),
            os == strs(outputs@),
            k + runs_from(ps, i as int) <= outputs.len(),
            joined_from(ps, os, 0, 0) == out@ + joined_from(ps, os, i as int, k as int),
        decreases parts.len() - i,
    {
        let ghost had = out@;
        assert(ps[i as int] == parts@[i as int]@);
        match &parts[i] {
            Part::Text(t) => {
                push_str(&mut out, t.as_str());
                assert(had + (t@ + joined_from(ps, os, i + 1, k as int)) =~= out@ + joined_from(
                    ps,
                    os,
                    i + 1,
                    k as int,
                ));
            },
            Part::Run(_) => {
                let t = trim_newlines(outputs[k].as_str());
                push_str(&mut out, t.as_str());
                assert(os[k as int] == outputs@[k as int]@);
                assert(had + (t@ + joined_from(ps, os, i + 1, k + 1)) =~= out@ + joined_from(
                    ps,
                    os,
                    i + 1,
                    k + 1,
                ));
                k += 1;
            },
        }
        i += 1;
    }
    assert(out@ + Seq::<char>::empty() =~= out@);
    string_of(out.as_slice())
}

// -- Words --

/// Whether `s` from `i` on holds `*` or `?` without a marker.
pub open spec fn glob_chars_from(s: Seq<char>, i: int) -> bool
    decreases s.len() - i,
{
    if i < 0 || i >= s.len() {
        false
    } else if s[i] == LITERAL {
        glob_chars_from(s, past_marked(s, i))
    } else {
        s[i] == '*' || s[i] == '?' || glob_chars_from(s, i + 1)
    }
}

fn has_glob_chars(word: &str) -> (r: bool)
    ensures
        r == glob_chars_from(word@, 0),
{
    let s = chars_of(word);
    let mut i: usize = 0;
    while i < s.len()
        invariant
            i <= s.len(),
            s@ == word@,
            glob_chars_from(word@, 0) == glob_chars_from(s@, i as int),
        decreases s.len() - i,
    {
        if s[i] == LITERAL {
            if i + 1 < s.len() {
                i += 2;
            } else {
                i += 1;
            }
        } else if s[i] == '*' || s[i] == '?' {
            return true;
        } else {
            i += 1;
        }
    }
    false
}

/// What is to be done to expand a word.
pub struct WordPlan {
    /// The text of the word and the commands to run, in order.
    pub parts: Vec<Part>,
    /// Reported once the commands have been run.
    pub error: Option<Error>,
    /// Whether the word holds glob characters before its substitutions.
    pub glob: bool,
}

pub struct PlanView {
    pub parts: Seq<PartView>,
    pub error: Option<ErrorView>,
    pub glob: bool,
}

impl View for WordPlan {
    type V = PlanView;

    open spec fn view(&self) -> PlanView {
        PlanView {
            parts: part_views(self.parts@),
            error: match self.error {
                Some(e) => Some(e@),
                None => None,
            },
            glob: self.glob,
        }
    }
}

/// The expansion of a word up to its substitutions: tilde first, then variables.
pub open spec fn planned(
    word: Seq<char>,
    home: Seq<char>,
    status: int,
    env: Seq<(String, String)>,
) -> PlanView {
    let tilde = tilde_expanded(word, home);
    let glob = glob_chars_from(word, 0);
    if word.contains('$') || word.contains('`') {
        let (parts, error) = parts_from(
            vars_from(tilde, 0, status, env),
            0,
            Seq::empty(),
            Seq::empty(),
        );
        PlanView { parts, error, glob }
    } else {
        PlanView { parts: flushed(Seq::empty(), tilde), error: None, glob }
    }
}

/// First half of the expansion of a word: tilde, variables, and the commands to run.
pub fn expand_word(
    word: &str,
    home: &str,
    last_status: i32,
    env: &Vec<(String, String)>,
) -> (r: WordPlan)
    ensures
        r@ == planned(word@, home@, last_status as int, env@),
{
    let w = chars_of(word);
    let glob = has_glob_chars(word);
    let tilde = expand_tilde(word, home);
    if has_char(&w, '$') || has_char(&w, '`') {
        let vars = expand_variables(tilde.as_str(), last_status, env);
        let (parts, error) = expand_command_subst(vars.as_str());
        WordPlan { parts, error, glob }
    } else {
        let mut parts: Vec<Part> = Vec::new();
        let t = chars_of(tilde.as_str());
        assert(part_views(parts@) =~= Seq::empty());
        flush(&mut parts, &t);
        WordPlan { parts, error: None, glob }
    }
}

/// First half of the expansion of each word.
pub fn expand_argv(
    argv: &Vec<String>,
    home: &str,
    last_status: i32,
    env: &Vec<(String, String)>,
) -> (r: Vec<WordPlan>)
    ensures
        r.len() == argv.len(),
        forall|i: int|
            0 <= i < argv.len() ==> (#[trigger] r@[i])@ == planned(
                argv@[i]@,
                home@,
                last_status as int,
                env@,
            ),
{
    let mut out: Vec<WordPlan> = Vec::new();
    let mut i: usize = 0;
    while i < argv.len()
        invariant
            i <= argv.len(),
            out.len() == i,
            forall|k: int|
                0 <= k < i ==> (#[trigger] out@[k])@ == planned(
                    argv@[k]@,
                    home@,
                    last_status as int,
                    env@,
                ),
        decreases argv.len() - i,
    {
        out.push(expand_word(argv[i].as_str(), home, last_status, env));
        i += 1;
    }
    out
}

/// A word after its substitutions.
#[derive(Debug)]
pub enum Expansion {
    /// The word itself.
    Word(String),
    /// A pattern to be matched against the file system, in which the characters that stand for
    /// themselves are marked.
    Pattern(String),
}

pub enum ExpansionView {
    Word(Seq<char>),
    Pattern(Seq<char>),
}

impl View for Expansion {
    type V = ExpansionView;

    open spec fn view(&self) -> ExpansionView {
        match self {
            Expansion::Word(s) => ExpansionView::Word(s@),
            Expansion::Pattern(s) => ExpansionView::Pattern(s@),
        }
    }
}

/// A word is a pattern when it held glob characters before and after its substitutions.
pub open spec fn finished(plan: PlanView, outputs: Seq<Seq<char>>) -> ExpansionView {
    let text = joined_from(plan.parts, outputs, 0, 0);
    if plan.glob && glob_chars_from(text, 0) {
        ExpansionView::Pattern(text)
    } else {
        ExpansionView::Word(unmarked(text))
    }
}

/// Second half of the expansion of a word, from the outputs of its commands.
pub fn finish_word(plan: &WordPlan, outputs: &Vec<String>) -> (r: Expansion)
    requires
        outputs.len() >= runs_from(plan@.parts, 0),
    ensures
        r@ == finished(plan@, strs(outputs@)),
{
    let text = join_parts(&plan.parts, outputs);
    if plan.glob && has_glob_chars(text.as_str()) {
        Expansion::Pattern(text)
    } else {
        Expansion::Word(unescape(text.as_str()))
    }
}

/// What the expansion of a word needs next.
#[derive(Debug)]
pub enum WordStep {
    /// The output of this command.
    Run(String),
    /// Nothing: the word cannot be expanded.
    Fail(Error),
    /// Nothing: the word after its substitutions.
    Ready(Expansion),
}

pub enum WordStepView {
    Run(Seq<char>),
    Fail(ErrorView),
    Ready(ExpansionView),
}

impl View for WordStep {
    type V = WordStepView;

    open spec fn view(&self) -> WordStepView {
        match self {
            WordStep::Run(c) => WordStepView::Run(c@),
            WordStep::Fail(e) => WordStepView::Fail(e@),
            WordStep::Ready(x) => WordStepView::Ready(x@),
        }
    }
}

/// Command number `k` of the parts from `i` on.
pub open spec fn run_at(parts: Seq<PartView>, i: int, k: nat) -> Seq<char>
    decreases parts.len() - i,
{
    if i < 0 || i >= parts.len() {
        Seq::empty()
    } else {
        match parts[i] {
            PartView::Run(c) => if k == 0 {
                c
            } else {
                run_at(parts, i + 1, (k - 1) as nat)
            },
            _ => run_at(parts, i + 1, k),
        }
    }
}

/// What comes next when the first commands of a word have given `outputs`: its commands run in
/// order, and an error is told once they have.
pub open spec fn next_step(plan: PlanView, outputs: Seq<Seq<char>>) -> WordStepView {
    if outputs.len() < runs_from(plan.parts, 0) {
        WordStepView::Run(run_at(plan.parts, 0, outputs.len()))
    } else {
        match plan.error {
            Some(e) => WordStepView::Fail(e),
            None => WordStepView::Ready(finished(plan, outputs)),
        }
    }
}

/// What the expansion of a word needs next, from the outputs of the commands that have run.
pub fn word_step(plan: &WordPlan, outputs: &Vec<String>) -> (r: WordStep)
    ensures
        r@ == next_step(plan@, strs(outputs@)),
{
    let mut i: usize = 0;
    let mut seen: usize = 0;
    let ghost pv = part_views(plan.parts@);
    while i < plan.parts.len()
        invariant
            i <= plan.parts.len(),
            seen <= i,
            seen <= outputs.len(),
            pv == part_views(plan.parts@),
            runs_from(pv, 0) == seen + runs_from(pv, i as int),
            run_at(pv, 0, outputs@.len()) == run_at(
                pv,
                i as int,
                (outputs.len() - seen) as nat,
            ),
        decreases plan.parts.len() - i,
    {
        assert(pv[i as int] == plan.parts@[i as int]@);
        if let Part::Run(command) = &plan.parts[i] {
            if seen == outputs.len() {
                return WordStep::Run(command.clone());
            }
            seen += 1;
        }
        i += 1;
    }
    match &plan.error {
        Some(e) => WordStep::Fail(e.clone()),
        None => WordStep::Ready(finish_word(plan, outputs)),
    }
}

// -- Argument lists --

pub open spec fn plan_views(v: Seq<WordPlan>) -> Seq<PlanView> {
    Seq::new(v.len(), |i: int| v[i]@)
}

pub open spec fn words_view(r: Result<Vec<String>, Error>) -> Result<Seq<Seq<char>>, ErrorView> {
    match r {
        Ok(v) => Ok(strs(v@)),
        Err(e) => Err(e@),
    }
}

/// The expansion of a list of words under way. The caller expands the word that `pending`
/// names and hands what it became to `take`, until none is pending.
pub struct ArgvExpansion {
    plans: Vec<WordPlan>,
    at: usize,
    words: Vec<String>,
    failed: Option<Error>,
}

#[verifier::ext_equal]
pub struct ArgvView {
    pub plans: Seq<PlanView>,
    /// The word to expand next.
    pub at: int,
    /// What the words before it became.
    pub words: Seq<Seq<char>>,
    /// The error of the first word that failed.
    pub failed: Option<ErrorView>,
}

impl View for ArgvExpansion {
    type V = ArgvView;

    closed spec fn view(&self) -> ArgvView {
        ArgvView {
            plans: plan_views(self.plans@),
            at: self.at as int,
            words: strs(self.words@),
            failed: match self.failed {
                Some(e) => Some(e@),
                None => None,
            },
        }
    }
}

impl ArgvView {
    pub open spec fn start(plans: Seq<PlanView>) -> ArgvView {
        ArgvView { plans, at: 0, words: Seq::empty(), failed: None }
    }

    /// The word to expand next: none once all have been expanded or one has failed.
    pub open spec fn pending(self) -> Option<PlanView> {
        if self.failed is None && 0 <= self.at < self.plans.len() {
            Some(self.plans[self.at])
        } else {
            None
        }
    }

    pub open spec fn taken(self, r: Result<Seq<Seq<char>>, ErrorView>) -> ArgvView {
        match r {
            Ok(v) => ArgvView { at: self.at + 1, words: self.words + v, ..self },
            Err(e) => ArgvView { failed: Some(e), ..self },
        }
    }

    /// After the first `n` results.
    pub open spec fn after(self, rs: Seq<Result<Seq<Seq<char>>, ErrorView>>, n: nat) -> ArgvView
        decreases n,
    {
        if n == 0 {
            self
        } else {
            self.after(rs, (n - 1) as nat).taken(rs[n - 1])
        }
    }

    /// What the list of words became.
    pub open spec fn outcome(self) -> Result<Seq<Seq<char>>, ErrorView> {
        match self.failed {
            Some(e) => Err(e),
            None => Ok(self.words),
        }
    }
}

impl ArgvExpansion {
    /// Starts the expansion of a list of words.
    pub fn new(
        argv: &Vec<String>,
        home: &str,
        last_status: i32,
        env: &Vec<(String, String)>,
    ) -> (r: Self)
        ensures
            r@ == ArgvView::start(
                Seq::new(
                    argv@.len(),
                    |i: int| planned(argv@[i]@, home@, last_status as int, env@),
                ),
            ),
    {
        let plans = expand_argv(argv, home, last_status, env);
        let r = ArgvExpansion { plans, at: 0, words: Vec::new(), failed: None };
        assert(r@.plans =~= Seq::new(
            argv@.len(),
            |i: int| planned(argv@[i]@, home@, last_status as int, env@),
        ));
        assert(r@.words =~= Seq::empty());
        r
    }

    /// The word to expand next.
    pub fn pending(&self) -> (r: Option<&WordPlan>)
        ensures
            match r {
                Some(p) => self@.pending() == Some(p@),
                None => self@.pending() is None,
            },
    {
        if self.failed.is_none() && self.at < self.plans.len() {
            assert(self@.plans[self.at as int] == self.plans@[self.at as int]@);
            Some(&self.plans[self.at])
        } else {
            None
        }
    }

    /// Takes what the pending word became.
    pub fn take(&mut self, result: Result<Vec<String>, Error>)
        requires
            old(self)@.pending() is Some,
        ensures
            final(self)@ == old(self)@.taken(words_view(result)),
    {
        match result {
            Ok(words) => {
                let mut i: usize = 0;
                let ghost had = strs(self.words@);
                assert(had + strs(words@).take(0) =~= had);
                while i < words.len()
                    invariant
                        i <= words.len(),
                        self.plans@ == old(self).plans@,
                        self.at == old(self).at,
                        self.at < self.plans.len(),
                        self.failed == old(self).failed,
                        strs(self.words@) == had + strs(words@).take(i as int),
                    decreases words.len() - i,
                {
                    let ghost before = strs(self.words@);
                    self.words.push(words[i].clone());
                    proof {
                        assert(strs(self.words@) =~= before.push(words@[i as int]@));
                        assert(strs(words@).take(i + 1) =~= strs(words@).take(i as int).push(
                            words@[i as int]@,
                        ));
                        assert(strs(self.words@) =~= had + strs(words@).take(i + 1));
                    }
                    i += 1;
                }
                assert(strs(words@).take(words@.len() as int) =~= strs(words@));
                self.at += 1;
            },
            Err(e) => {
                self.failed = Some(e);
            },
        }
    }

    /// What the list of words became: all that its words became, in order, or the error of the
    /// first that failed.
    pub fn finish(self) -> (r: Result<Vec<String>, Error>)
        requires
            self@.pending() is None,
        ensures
            words_view(r) == self@.outcome(),
    {
        match self.failed {
            Some(e) => Err(e),
            None => Ok(self.words),
        }
    }
}

// -- Glob Expansion --

/// A place of a pattern, made of a character and whether that stands for itself alone, that
/// matches any characters.
pub open spec fn is_star(x: (char, bool)) -> bool {
    x.0 == '*' && !x.1
}

/// A place of a pattern that is no star matches the character.
pub open spec fn accepts(x: (char, bool), c: char) -> bool {
    x.0 == c || x.0 == '?' && !x.1
}

/// The places of a pattern without markers.
pub open spec fn plain_places(p: Seq<char>) -> Seq<(char, bool)> {
    Seq::new(p.len(), |i: int| (p[i], false))
}

/// The places of a pattern from `i` on: a marked character stands for itself.
pub open spec fn marked_places(p: Seq<char>, i: int) -> Seq<(char, bool)>
    decreases p.len() - i,
{
    if i < 0 || i >= p.len() {
        Seq::empty()
    } else if p[i] == LITERAL {
        if i + 1 < p.len() {
            seq![(p[i + 1], true)] + marked_places(p, i + 2)
        } else {
            Seq::empty()
        }
    } else {
        seq![(p[i], false)] + marked_places(p, i + 1)
    }
}

fn places_of(pattern: &str) -> (r: Vec<(char, bool)>)
    ensures
        r@ == marked_places(pattern@, 0),
{
    let p = chars_of(pattern);
    let mut out: Vec<(char, bool)> = Vec::new();
    let mut i: usize = 0;
    assert(out@ + marked_places(p@, 0) =~= marked_places(p@, 0));
    while i < p.len()
        invariant
            i <= p.len(),
            p@ == pattern@,
            marked_places(p@, 0) == out@ + marked_places(p@, i as int),
        decreases p.len() - i,
    {
        let ghost had = out@;
        if p[i] == LITERAL {
            if i + 1 < p.len() {
                out.push((p[i + 1], true));
                proof {
                    let rest = marked_places(p@, i + 2);
                    assert(had + (seq![(p@[i + 1], true)] + rest) =~= out@ + rest);
                }
                i += 2;
            } else {
                assert(out@ + Seq::empty() =~= out@);
                return out;
            }
        } else {
            out.push((p[i], false));
            proof {
                let rest = marked_places(p@, i + 1);
                assert(had + (seq![(p@[i as int], false)] + rest) =~= out@ + rest);
            }
            i += 1;
        }
    }
    assert(out@ + Seq::empty() =~= out@);
    out
}

/// Whether the pattern `p` from `i` on matches the name `n` from `j` on: `*` matches any
/// characters, `?` matches one.
pub open spec fn glob_matches(p: Seq<(char, bool)>, n: Seq<char>, i: int, j: int) -> bool
    decreases p.len() - i, n.len() - j,
    when 0 <= i <= p.len() && 0 <= j <= n.len()
{
    if i == p.len() {
        j == n.len()
    } else if is_star(p[i]) {
        glob_matches(p, n, i + 1, j) || (j < n.len() && glob_matches(p, n, i, j + 1))
    } else {
        j < n.len() && accepts(p[i], n[j]) && glob_matches(p, n, i + 1, j + 1)
    }
}

/// A star that matches from a later place matches from an earlier one.
proof fn lemma_star_absorbs(p: Seq<(char, bool)>, n: Seq<char>, i: int, j: int, k: int)
    requires
        0 <= i < p.len(),
        is_star(p[i]),
        0 <= j <= k <= n.len(),
        glob_matches(p, n, i, k),
    ensures
        glob_matches(p, n, i, j),
    decreases k - j,
{
    if j < k {
        lemma_star_absorbs(p, n, i, j + 1, k);
    }
}

/// A part of the pattern without a star matches as many characters as it has.
proof fn lemma_fixed_part(p: Seq<(char, bool)>, n: Seq<char>, from: int, to: int, k: int)
    requires
        0 <= from <= to <= p.len(),
        forall|m: int| from <= m < to ==> !is_star(p[m]),
        0 <= k <= n.len(),
        glob_matches(p, n, from, k),
    ensures
        k + (to - from) <= n.len(),
        glob_matches(p, n, to, k + (to - from)),
    decreases to - from,
{
    if from < to {
        lemma_fixed_part(p, n, from + 1, to, k + 1);
    }
}

/// The last star can match from some place after `k`.
spec fn later_match(p: Seq<(char, bool)>, n: Seq<char>, star: int, k: int) -> bool {
    exists|m: int| k < m <= n.len() && #[trigger] glob_matches(p, n, star, m)
}

/// Whether a pattern matches a name. Iterative, so that no pattern can exhaust the stack.
fn places_match(p: &Vec<(char, bool)>, n: &Vec<char>) -> (r: bool)
    ensures
        r == glob_matches(p@, n@, 0, 0),
{
    let mut pi: usize = 0;
    let mut ni: usize = 0;
    let mut star: Option<(usize, usize)> = None;
    while ni < n.len()
        invariant
            pi <= p.len(),
            ni <= n.len(),
            match star {
                None => glob_matches(p@, n@, 0, 0) == glob_matches(p@, n@, pi as int, ni as int),
                Some((sp, sn)) => {
                    &&& 0 < sp <= pi
                    &&& sn <= ni
                    &&& ni - sn == pi - sp
                    &&& forall|m: int| sp <= m < pi ==> !is_star(p@[m])
                    &&& glob_matches(p@, n@, 0, 0) == (glob_matches(
                        p@,
                        n@,
                        pi as int,
                        ni as int,
                    ) || later_match(p@, n@, sp as int, sn as int))
                },
            },
        decreases
                n.len() + 1 - (match star {
                    None => 0,
                    Some((_, sn)) => sn + 0,
                }),
                p.len() - pi,
                n.len() - ni,
    {
        if pi < p.len() && !(p[pi].0 == '*' && !p[pi].1) && (p[pi].0 == n[ni] || p[pi].0 == '?' && !p[pi].1) {
            pi += 1;
            ni += 1;
        } else if pi < p.len() && p[pi].0 == '*' && !p[pi].1 {
            proof {
                if let Some((sp, sn)) = star {
                    if later_match(p@, n@, sp as int, sn as int) {
                        let m = choose|m: int|
                            sn < m <= n@.len() && #[trigger] glob_matches(p@, n@, sp as int, m);
                        lemma_fixed_part(p@, n@, sp as int, pi as int, m);
                        lemma_star_absorbs(
                            p@,
                            n@,
                            pi as int,
                            ni as int,
                            m + (pi - sp),
                        );
                    }
                }
                lemma_star_unfold(p@, n@, pi as int, ni as int);
            }
            star = Some((pi + 1, ni));
            pi += 1;
        } else {
            match star {
                Some((sp, sn)) => {
                    assert(!glob_matches(p@, n@, pi as int, ni as int));
                    proof {
                        lemma_later_step(p@, n@, sp as int, sn as int);
                    }
                    star = Some((sp, sn + 1));
                    ni = sn + 1;
                    pi = sp;
                },
                None => {
                    return false;
                },
            }
        }
    }
    proof {
        if let Some((sp, sn)) = star {
            if later_match(p@, n@, sp as int, sn as int) {
                let m = choose|m: int|
                    sn < m <= n@.len() && #[trigger] glob_matches(p@, n@, sp as int, m);
                lemma_fixed_part(p@, n@, sp as int, pi as int, m);
            }
        }
    }
    while pi < p.len() && p[pi].0 == '*' && !p[pi].1
        invariant
            pi <= p.len(),
            glob_matches(p@, n@, 0, 0) == glob_matches(
                p@,
                n@,
                pi as int,
                n@.len() as int,
            ),
        decreases p.len() - pi,
    {
        pi += 1;
    }
    pi == p.len()
}

/// Simple glob pattern matching: `*` matches any chars, `?` matches one char.
pub fn pattern_match(pattern: &str, name: &str) -> (r: bool)
    ensures
        r == glob_matches(plain_places(pattern@), name@, 0, 0),
{
    let p = chars_of(pattern);
    let n = chars_of(name);
    let mut places: Vec<(char, bool)> = Vec::new();
    let mut i: usize = 0;
    while i < p.len()
        invariant
            i <= p.len(),
            places.len() == i,
            forall|k: int| 0 <= k < i ==> #[trigger] places@[k] == (p@[k], false),
        decreases p.len() - i,
    {
        places.push((p[i], false));
        i += 1;
    }
    assert(places@ =~= plain_places(pattern@));
    places_match(&places, &n)
}

proof fn lemma_star_unfold(p: Seq<(char, bool)>, n: Seq<char>, i: int, j: int)
    requires
        0 <= i < p.len(),
        is_star(p[i]),
        0 <= j <= n.len(),
    ensures
        glob_matches(p, n, i, j) == (glob_matches(p, n, i + 1, j) || later_match(p, n, i + 1, j)),
    decreases n.len() - j,
{
    if j < n.len() {
        lemma_star_unfold(p, n, i, j + 1);
        lemma_later_step(p, n, i + 1, j);
    }
}

proof fn lemma_later_step(p: Seq<(char, bool)>, n: Seq<char>, star: int, k: int)
    requires
        0 <= star <= p.len(),
        0 <= k < n.len(),
    ensures
        later_match(p, n, star, k) == (glob_matches(p, n, star, k + 1) || later_match(
            p,
            n,
            star,
            k + 1,
        )),
{
    if later_match(p, n, star, k) {
        let m = choose|m: int| k < m <= n.len() && #[trigger] glob_matches(p, n, star, m);
        if m > k + 1 {
            assert(later_match(p, n, star, k + 1));
        }
    }
}

/// An entry of a directory.
#[derive(Debug)]
pub struct DirEntry {
    pub name: String,
    /// The entry itself is a directory.
    pub is_dir: bool,
    /// The entry is a directory or a link to one.
    pub leads_to_dir: bool,
}

/// One segment of a pattern, to be matched in each directory found so far.
#[derive(Debug)]
pub struct GlobStep {
    pub pattern: String,
    /// In all directories below as well (`**`).
    pub recursive: bool,
    /// The last segment matches any entry, the others directories.
    pub is_last: bool,
}

#[verifier::ext_equal]
pub struct StepView {
    pub pattern: Seq<char>,
    pub recursive: bool,
    pub is_last: bool,
}

impl View for GlobStep {
    type V = StepView;

    open spec fn view(&self) -> StepView {
        StepView { pattern: self.pattern@, recursive: self.recursive, is_last: self.is_last }
    }
}

pub open spec fn step_views(v: Seq<GlobStep>) -> Seq<StepView> {
    Seq::new(v.len(), |i: int| v[i]@)
}

/// The steps of the segments from `i` on. Empty segments are skipped; `**` is merged with
/// the segment after it, and matches everything where there is none.
pub open spec fn steps_from(segs: Seq<Seq<char>>, i: int) -> Seq<StepView>
    decreases segs.len() - i,
{
    if i < 0 || i >= segs.len() {
        Seq::empty()
    } else if segs[i].len() == 0 {
        steps_from(segs, i + 1)
    } else if segs[i] == "**"@ {
        if i + 1 < segs.len() {
            seq![
                StepView {
                    pattern: segs[i + 1],
                    recursive: true,
                    is_last: i + 1 == segs.len() - 1,
                },
            ] + steps_from(segs, i + 2)
        } else {
            seq![StepView { pattern: "*"@, recursive: true, is_last: true }]
        }
    } else {
        seq![StepView { pattern: segs[i], recursive: false, is_last: i == segs.len() - 1 }]
            + steps_from(segs, i + 1)
    }
}

/// `dir/name`, without a leading `./` and without a second slash after the root.
pub open spec fn joined_path(dir: Seq<char>, name: Seq<char>) -> Seq<char> {
    if dir == "."@ {
        name
    } else if dir == "/"@ {
        "/"@ + name
    } else {
        dir + "/"@ + name
    }
}

pub fn join_path(dir: &str, name: &str) -> (r: String)
    ensures
        r@ == joined_path(dir@, name@),
{
    if str_eq(dir, ".") {
        name.to_owned()
    } else if str_eq(dir, "/") {
        let mut v = chars_of("/");
        push_str(&mut v, name);
        string_of(v.as_slice())
    } else {
        let mut v = chars_of(dir);
        push_str(&mut v, "/");
        push_str(&mut v, name);
        string_of(v.as_slice())
    }
}

pub open spec fn spec_is_control(c: char) -> bool {
    (c as u32) < 0x20 || c as u32 == 0x7f
}

pub open spec fn has_control(s: Seq<char>) -> bool {
    exists|i: int| 0 <= i < s.len() && spec_is_control(#[trigger] s[i])
}

pub fn contains_control(s: &Vec<char>) -> (r: bool)
    ensures
        r == has_control(s@),
{
    let mut i: usize = 0;
    while i < s.len()
        invariant
            i <= s.len(),
            forall|k: int| 0 <= k < i ==> !spec_is_control(#[trigger] s@[k]),
        decreases s.len() - i,
    {
        if (s[i] as u32) < 0x20 || s[i] as u32 == 0x7f {
            assert(spec_is_control(s@[i as int]));
            return true;
        }
        i += 1;
    }
    false
}

/// Whether a segment of a pattern selects an entry: names with control characters are never
/// selected, hidden ones only by a pattern that starts with a dot. Marked characters of the
/// pattern stand for themselves.
pub open spec fn selects(pattern: Seq<char>, is_last: bool, e: DirEntry) -> bool {
    let places = marked_places(pattern, 0);
    &&& !has_control(e.name@)
    &&& e.name@.len() > 0 && e.name@[0] == '.' ==> places.len() > 0 && places[0].0 == '.'
    &&& glob_matches(places, e.name@, 0, 0)
    &&& is_last || e.leads_to_dir
}

/// The selected paths among the first `n` entries of `dir`.
pub open spec fn selected(
    dir: Seq<char>,
    pattern: Seq<char>,
    is_last: bool,
    entries: Seq<DirEntry>,
    n: int,
) -> Seq<Seq<char>>
    decreases n,
{
    if n <= 0 {
        Seq::empty()
    } else {
        let before = selected(dir, pattern, is_last, entries, n - 1);
        if selects(pattern, is_last, entries[n - 1]) {
            before.push(joined_path(dir, entries[n - 1].name@))
        } else {
            before
        }
    }
}

/// Directories below `dir`, among the first `n` entries, that `**` goes into.
pub open spec fn descended(dir: Seq<char>, entries: Seq<DirEntry>, n: int) -> Seq<Seq<char>>
    decreases n,
{
    if n <= 0 {
        Seq::empty()
    } else {
        let before = descended(dir, entries, n - 1);
        let e = entries[n - 1];
        if e.is_dir && !(e.name@.len() > 0 && e.name@[0] == '.') && !has_control(e.name@) {
            before.push(joined_path(dir, e.name@))
        } else {
            before
        }
    }
}

/// Match the entries of `dir` against `pattern`, collecting into `out`.
fn match_segment(
    dir: &str,
    pattern: &str,
    is_last: bool,
    entries: &Vec<DirEntry>,
    out: &mut Vec<String>,
)
    ensures
        strs(final(out)@) == strs(old(out)@) + selected(
            dir@,
            pattern@,
            is_last,
            entries@,
            entries@.len() as int,
        ),
{
    let places = places_of(pattern);
    let mut i: usize = 0;
    assert(strs(out@) =~= strs(old(out)@) + selected(dir@, pattern@, is_last, entries@, 0));
    while i < entries.len()
        invariant
            i <= entries.len(),
            places@ == marked_places(pattern@, 0),
            strs(out@) == strs(old(out)@) + selected(
                dir@,
                pattern@,
                is_last,
                entries@,
                i as int,
            ),
        decreases entries.len() - i,
    {
        let e = &entries[i];
        let name = chars_of(e.name.as_str());
        let hidden = name.len() > 0 && name[0] == '.';
        let asked = places.len() > 0 && places[0].0 == '.';
        if !contains_control(&name) && (!hidden || asked) && places_match(&places, &name) && (
        is_last || e.leads_to_dir) {
            let path = join_path(dir, e.name.as_str());
            let ghost had = strs(out@);
            let ghost pv = path@;
            out.push(path);
            assert(strs(out@) =~= had.push(pv));
            assert(strs(out@) =~= strs(old(out)@) + selected(
                dir@,
                pattern@,
                is_last,
                entries@,
                i + 1,
            ));
        }
        i += 1;
    }
}

/// The directories of `dir` that `**` goes into, appended to `out`.
fn collect_subdirs(dir: &str, entries: &Vec<DirEntry>, out: &mut Vec<String>)
    ensures
        strs(final(out)@) == strs(old(out)@) + descended(dir@, entries@, entries@.len() as int),
{
    let mut i: usize = 0;
    assert(strs(out@) =~= strs(old(out)@) + descended(dir@, entries@, 0));
    while i < entries.len()
        invariant
            i <= entries.len(),
            strs(out@) == strs(old(out)@) + descended(dir@, entries@, i as int),
        decreases entries.len() - i,
    {
        let e = &entries[i];
        let name = chars_of(e.name.as_str());
        if e.is_dir && !(name.len() > 0 && name[0] == '.') && !contains_control(&name) {
            let path = join_path(dir, e.name.as_str());
            let ghost had = strs(out@);
            let ghost pv = path@;
            out.push(path);
            assert(strs(out@) =~= had.push(pv));
            assert(strs(out@) =~= strs(old(out)@) + descended(dir@, entries@, i + 1));
        }
        i += 1;
    }
}

/// The expansion of a glob pattern under way. The caller lists the directories that
/// `pending` names and hands the entries to `feed`, until none is pending.
pub struct Glob {
    steps: Vec<GlobStep>,
    dirs: Vec<String>,
    found: Vec<String>,
}

#[verifier::ext_equal]
pub struct GlobView {
    /// The segments still to be matched.
    pub steps: Seq<StepView>,
    /// The directories still to be listed for the first of them.
    pub dirs: Seq<Seq<char>>,
    /// What the first of them has matched so far.
    pub found: Seq<Seq<char>>,
}

impl View for Glob {
    type V = GlobView;

    closed spec fn view(&self) -> GlobView {
        GlobView {
            steps: step_views(self.steps@),
            dirs: strs(self.dirs@),
            found: strs(self.found@),
        }
    }
}

impl GlobView {
    pub open spec fn start(pattern: Seq<char>) -> GlobView {
        let segs = split(pattern, '/');
        let rooted = pattern.len() > 0 && pattern[0] == '/';
        GlobView {
            steps: steps_from(
                segs,
                if rooted {
                    1
                } else {
                    0
                },
            ),
            dirs: if rooted {
                seq!["/"@]
            } else {
                seq!["."@]
            },
            found: Seq::empty(),
        }
    }

    /// Where no directory is left for a segment, what it matched are the directories of the
    /// next one.
    pub open spec fn settled(self) -> GlobView
        decreases self.steps.len(),
    {
        if self.dirs.len() == 0 && self.steps.len() > 0 {
            GlobView {
                steps: self.steps.drop_first(),
                dirs: self.found,
                found: Seq::empty(),
            }.settled()
        } else {
            self
        }
    }

    pub open spec fn fed(self, entries: Seq<DirEntry>) -> GlobView {
        let step = self.steps[0];
        let dir = self.dirs[0];
        let n = entries.len() as int;
        GlobView {
            steps: self.steps,
            dirs: self.dirs.drop_first() + if step.recursive {
                descended(dir, entries, n)
            } else {
                Seq::empty()
            },
            found: self.found + selected(dir, step.pattern, step.is_last, entries, n),
        }.settled()
    }
}

impl Glob {
    /// Starts the expansion of a pattern.
    pub fn new(pattern: &str) -> (r: Self)
        ensures
            r@ == GlobView::start(pattern@).settled(),
    {
        let p = chars_of(pattern);
        let segs = split_on(&p, '/');
        let rooted = p.len() > 0 && p[0] == '/';
        let mut steps: Vec<GlobStep> = Vec::new();
        let ghost sv = strs(segs@);
        let ghost start: int = if rooted {
            1
        } else {
            0
        };
        let mut i: usize = if rooted {
            1
        } else {
            0
        };
        assert(step_views(steps@) + steps_from(sv, start) =~= steps_from(sv, start));
        while i < segs.len()
            invariant
                sv == strs(segs@),
                0 <= start,
                steps_from(sv, start) == step_views(steps@) + steps_from(sv, i as int),
            decreases segs.len() - i,
        {
            let ghost had = step_views(steps@);
            assert(sv[i as int] == segs@[i as int]@);
            if segs[i].as_str().is_empty() {
                i += 1;
            } else if str_eq(segs[i].as_str(), "**") {
                if i + 1 < segs.len() {
                    assert(sv[i + 1] == segs@[i + 1]@);
                    let step = GlobStep {
                        pattern: segs[i + 1].clone(),
                        recursive: true,
                        is_last: i + 1 == segs.len() - 1,
                    };
                    let ghost x = step@;
                    steps.push(step);
                    assert(step_views(steps@) =~= had + seq![x]);
                    assert(had + (seq![x] + steps_from(sv, i + 2)) =~= (had + seq![x])
                        + steps_from(sv, i + 2));
                    i += 2;
                } else {
                    let step = GlobStep {
                        pattern: "*".to_owned(),
                        recursive: true,
                        is_last: true,
                    };
                    let ghost x = step@;
                    steps.push(step);
                    assert(step_views(steps@) =~= had + seq![x]);
                    assert(steps_from(sv, i + 1) =~= Seq::empty());
                    assert((had + seq![x]) + steps_from(sv, i + 1) =~= had + seq![x]);
                    i += 1;
                }
            } else {
                let step = GlobStep {
                    pattern: segs[i].clone(),
                    recursive: false,
                    is_last: i == segs.len() - 1,
                };
                let ghost x = step@;
                steps.push(step);
                assert(step_views(steps@) =~= had + seq![x]);
                assert(had + (seq![x] + steps_from(sv, i + 1)) =~= (had + seq![x]) + steps_from(
                    sv,
                    i + 1,
                ));
                i += 1;
            }
        }
        assert(step_views(steps@) + steps_from(sv, i as int) =~= step_views(steps@));
        let mut dirs: Vec<String> = Vec::new();
        if rooted {
            dirs.push("/".to_owned());
        } else {
            dirs.push(".".to_owned());
        }
        let mut g = Glob { steps, dirs, found: Vec::new() };
        assert(g@ =~= GlobView::start(pattern@)) by {
            assert(g@.dirs =~= GlobView::start(pattern@).dirs);
            assert(g@.found =~= Seq::empty());
        }
        g.settle();
        g
    }

    fn settle(&mut self)
        ensures
            final(self)@ == old(self)@.settled(),
    {
        while self.dirs.len() == 0 && self.steps.len() > 0
            invariant
                self@.settled() == old(self)@.settled(),
            decreases self.steps.len(),
        {
            let ghost before = self@;
            self.steps.remove(0);
            let mut found: Vec<String> = Vec::new();
            core::mem::swap(&mut self.found, &mut found);
            self.dirs = found;
            assert(self@ =~= (GlobView {
                steps: before.steps.drop_first(),
                dirs: before.found,
                found: Seq::empty(),
            }));
        }
    }

    /// The directory to list next.
    pub fn pending(&self) -> (r: Option<&str>)
        ensures
            match r {
                Some(d) => self@.steps.len() > 0 && self@.dirs.len() > 0 && d@ == self@.dirs[0],
                None => self@.steps.len() == 0 || self@.dirs.len() == 0,
            },
    {
        if self.steps.len() > 0 && self.dirs.len() > 0 {
            Some(self.dirs[0].as_str())
        } else {
            None
        }
    }

    /// Takes the entries of the pending directory; none where it cannot be listed.
    pub fn feed(&mut self, entries: &Vec<DirEntry>)
        requires
            old(self)@.steps.len() > 0,
            old(self)@.dirs.len() > 0,
        ensures
            final(self)@ == old(self)@.fed(entries@),
    {
        let ghost before = self@;
        assert(before.steps[0] == self.steps@[0]@);
        assert(before.dirs[0] == self.dirs@[0]@);
        let dir = self.dirs.remove(0);
        assert(strs(self.dirs@) =~= before.dirs.drop_first());
        let pattern = self.steps[0].pattern.clone();
        let is_last = self.steps[0].is_last;
        let recursive = self.steps[0].recursive;
        match_segment(dir.as_str(), pattern.as_str(), is_last, entries, &mut self.found);
        if recursive {
            collect_subdirs(dir.as_str(), entries, &mut self.dirs);
        } else {
            assert(strs(self.dirs@) =~= before.dirs.drop_first() + Seq::empty());
        }
        self.settle();
    }

    /// The paths that the pattern matches, sorted; an error where there are none.
    pub fn finish(self, pattern: &str) -> (r: Result<Vec<String>, Error>)
        requires
            self@.steps.len() == 0,
        ensures
            match r {
                Ok(paths) => self@.dirs.len() > 0 && strings_sorted(self@.dirs, strs(paths@)),
                Err(e) => self@.dirs.len() == 0 && e@ == ErrorView::GlobNoMatch(unmarked(pattern@)),
            },
    {
        if self.dirs.len() == 0 {
            return Err(Error::glob_no_match(unescape(pattern).as_str()));
        }
        Ok(sorted_strings(&self.dirs))
    }
}

// -- Laws --

/// `w` from `i` on is a sequence of marked characters and of characters that no expansion
/// looks at.
pub open spec fn protected_from(w: Seq<char>, i: int) -> bool
    decreases w.len() - i,
{
    if i < 0 || i >= w.len() {
        i == w.len()
    } else if w[i] == LITERAL {
        i + 1 < w.len() && protected_from(w, i + 2)
    } else {
        !spec_is_expandable(w[i]) && protected_from(w, i + 1)
    }
}

proof fn lemma_protected(
    w: Seq<char>,
    i: int,
    status: int,
    env: Seq<(String, String)>,
    done: Seq<PartView>,
    text: Seq<char>,
)
    requires
        0 <= i <= w.len(),
        protected_from(w, i),
    ensures
        vars_from(w, i, status, env) == w.skip(i),
        !glob_chars_from(w, i),
        parts_from(w, i, done, text) == (flushed(done, text + w.skip(i)), None::<ErrorView>),
    decreases w.len() - i,
{
    if i == w.len() {
        assert(w.skip(i) =~= Seq::empty());
        assert(text + w.skip(i) =~= text);
    } else if w[i] == LITERAL {
        let step = seq![LITERAL, w[i + 1]];
        lemma_protected(w, i + 2, status, env, done, text + step);
        assert(step + w.skip(i + 2) =~= w.skip(i));
        assert(text + step + w.skip(i + 2) =~= text + w.skip(i));
    } else {
        lemma_protected(w, i + 1, status, env, done, text.push(w[i]));
        assert(seq![w[i]] + w.skip(i + 1) =~= w.skip(i));
        assert(text.push(w[i]) + w.skip(i + 1) =~= text + w.skip(i));
    }
}

/// Quoted characters skip expansion: a word whose special characters are all marked expands
/// to itself without the markers, whatever the environment.
pub proof fn law_quoted_skips_expansion(
    w: Seq<char>,
    home: Seq<char>,
    status: int,
    env: Seq<(String, String)>,
)
    requires
        protected_from(w, 0),
    ensures
        planned(w, home, status, env).error is None,
        runs_from(planned(w, home, status, env).parts, 0) == 0,
        forall|outputs: Seq<Seq<char>>|
            finished(planned(w, home, status, env), outputs) == ExpansionView::Word(unmarked(w)),
{
    lemma_protected(w, 0, status, env, Seq::empty(), Seq::empty());
    assert(w.skip(0) =~= w);
    assert(Seq::<char>::empty() + w =~= w);
    assert(tilde_expanded(w, home) == w);
    let plan = planned(w, home, status, env);
    assert(plan.parts == flushed(Seq::empty(), w));
    reveal_with_fuel(runs_from, 2);
    assert forall|outputs: Seq<Seq<char>>| finished(plan, outputs) == ExpansionView::Word(
        unmarked(w),
    ) by {
        reveal_with_fuel(joined_from, 2);
        assert(joined_from(plan.parts, outputs, 0, 0) =~= w);
    }
}

/// Each quoted character skips expansion: a marked character is no tilde, no variable and no
/// substitution, makes no pattern of the word, and stands in the result and in a pattern for
/// itself.
pub proof fn law_quoted_character_skips_expansion(
    w: Seq<char>,
    i: int,
    home: Seq<char>,
    status: int,
    env: Seq<(String, String)>,
    done: Seq<PartView>,
    text: Seq<char>,
)
    requires
        0 <= i,
        i + 1 < w.len(),
        w[i] == LITERAL,
        w[i + 1] != LITERAL,
    ensures
        i == 0 ==> tilde_expanded(w, home) == w,
        vars_from(w, i, status, env) == seq![LITERAL, w[i + 1]] + vars_from(
            w,
            i + 2,
            status,
            env,
        ),
        parts_from(w, i, done, text) == parts_from(
            w,
            i + 2,
            done,
            text + seq![LITERAL, w[i + 1]],
        ),
        glob_chars_from(w, i) == glob_chars_from(w, i + 2),
        unmarked(seq![LITERAL, w[i + 1]]) == seq![w[i + 1]],
        marked_places(w, i) == seq![(w[i + 1], true)] + marked_places(w, i + 2),
        forall|n: Seq<char>, j: int|
            0 <= j <= n.len() ==> #[trigger] glob_matches(marked_places(w, i), n, 0, j) == (j
                < n.len() && n[j] == w[i + 1] && glob_matches(marked_places(w, i), n, 1, j + 1)),
{
    reveal_with_fuel(unmarked, 3);
    let pair = seq![LITERAL, w[i + 1]];
    assert(pair.drop_last() =~= seq![LITERAL]);
    assert(seq![LITERAL].drop_last() =~= Seq::<char>::empty());
    assert(unmarked(pair) =~= seq![w[i + 1]]);
    assert(marked_places(w, i)[0] == (w[i + 1], true));
}

/// The words that the first `n` results hold.
pub open spec fn joined_words(rs: Seq<Result<Seq<Seq<char>>, ErrorView>>, n: nat) -> Seq<
    Seq<char>,
>
    decreases n,
{
    if n == 0 {
        Seq::empty()
    } else {
        joined_words(rs, (n - 1) as nat) + rs[n - 1]->Ok_0
    }
}

/// While no word fails, the words are expanded in order, and the list becomes what they became,
/// one after the other.
pub proof fn law_words_are_joined(
    plans: Seq<PlanView>,
    rs: Seq<Result<Seq<Seq<char>>, ErrorView>>,
    n: nat,
)
    requires
        n <= plans.len(),
        n <= rs.len(),
        forall|k: int| 0 <= k < n ==> (#[trigger] rs[k]) is Ok,
    ensures
        ArgvView::start(plans).after(rs, n).outcome() == Ok::<Seq<Seq<char>>, ErrorView>(
            joined_words(rs, n),
        ),
        ArgvView::start(plans).after(rs, n).pending() == if n < plans.len() {
            Some(plans[n as int])
        } else {
            None
        },
    decreases n,
{
    lemma_words_taken(plans, rs, n);
}

proof fn lemma_words_taken(
    plans: Seq<PlanView>,
    rs: Seq<Result<Seq<Seq<char>>, ErrorView>>,
    n: nat,
)
    requires
        n <= rs.len(),
        forall|k: int| 0 <= k < n ==> (#[trigger] rs[k]) is Ok,
    ensures
        ArgvView::start(plans).after(rs, n) == (ArgvView {
            plans,
            at: n as int,
            words: joined_words(rs, n),
            failed: None,
        }),
    decreases n,
{
    if n > 0 {
        lemma_words_taken(plans, rs, (n - 1) as nat);
        assert(rs[n - 1] is Ok);
    }
}

/// The first word that fails ends the expansion: its error is the result, and no later word is
/// expanded.
pub proof fn law_first_failure_ends_expansion(
    plans: Seq<PlanView>,
    rs: Seq<Result<Seq<Seq<char>>, ErrorView>>,
    n: nat,
)
    requires
        n < plans.len(),
        n < rs.len(),
        forall|k: int| 0 <= k < n ==> (#[trigger] rs[k]) is Ok,
        rs[n as int] is Err,
    ensures
        ArgvView::start(plans).after(rs, n + 1).outcome() == Err::<Seq<Seq<char>>, ErrorView>(
            rs[n as int]->Err_0,
        ),
        ArgvView::start(plans).after(rs, n + 1).pending() is None,
{
    lemma_words_taken(plans, rs, n);
}

/// What is read between single quotes has all its special characters marked.
pub proof fn law_single_quotes_protect(s: Seq<char>, i: int)
    requires
        0 <= i <= s.len(),
        forall|k: int| i <= k < s.len() ==> s[k] != LITERAL,
    ensures
        single_quoted(s, i) matches Ok((w, j)) ==> protected_from(w, 0),
    decreases s.len() - i,
{
    if i < s.len() && s[i] != '\'' {
        law_single_quotes_protect(s, i + 1);
        if let Ok((w, j)) = single_quoted(s, i + 1) {
            let m = mark(s[i], spec_is_expandable(s[i]));
            lemma_protected_prepend(m, w, 0);
            assert((m + w)[0] == m[0]);
        }
    }
}

proof fn lemma_protected_prepend(m: Seq<char>, w: Seq<char>, i: int)
    requires
        0 <= i <= w.len(),
        protected_from(w, i),
        m.len() == 1 && m[0] != LITERAL && !spec_is_expandable(m[0]) || m.len() == 2 && m[0]
            == LITERAL,
    ensures
        protected_from(m + w, m.len() + i),
    decreases w.len() - i,
{
    let whole = m + w;
    if i < w.len() {
        assert(whole[m.len() + i] == w[i]);
        if w[i] == LITERAL {
            lemma_protected_prepend(m, w, i + 2);
        } else {
            lemma_protected_prepend(m, w, i + 1);
        }
    }
}

/// A pattern without special characters matches exactly the name that is equal to it.
pub proof fn law_plain_pattern_matches_itself(p: Seq<char>, n: Seq<char>)
    requires
        forall|k: int| 0 <= k < p.len() ==> p[k] != '*' && p[k] != '?',
    ensures
        glob_matches(plain_places(p), n, 0, 0) == (p == n),
{
    lemma_plain(p, n, 0);
    assert(p.skip(0) =~= p);
    assert(n.skip(0) =~= n);
}

proof fn lemma_plain(p: Seq<char>, n: Seq<char>, i: int)
    requires
        forall|k: int| 0 <= k < p.len() ==> p[k] != '*' && p[k] != '?',
        0 <= i <= p.len(),
        i <= n.len(),
    ensures
        glob_matches(plain_places(p), n, i, i) == (p.skip(i) == n.skip(i)),
    decreases p.len() - i,
{
    if i == p.len() {
        assert(p.skip(i) =~= Seq::empty());
        if i == n.len() {
            assert(n.skip(i) =~= Seq::empty());
        } else {
            assert(n.skip(i).len() > 0);
        }
    } else if i < n.len() {
        lemma_plain(p, n, i + 1);
        assert(p.skip(i) =~= seq![p[i]] + p.skip(i + 1));
        assert(n.skip(i) =~= seq![n[i]] + n.skip(i + 1));
        if p.skip(i) == n.skip(i) {
            assert(p.skip(i)[0] == n.skip(i)[0]);
            assert(p.skip(i).drop_first() =~= p.skip(i + 1));
            assert(n.skip(i).drop_first() =~= n.skip(i + 1));
        }
    } else {
        assert(p.skip(i).len() > 0);
        assert(n.skip(i).len() == 0);
    }
}

/// The pattern `*` matches every name.
pub proof fn law_star_matches_all(n: Seq<char>)
    ensures
        glob_matches(plain_places(seq!['*']), n, 0, 0),
{
    let p = plain_places(seq!['*']);
    assert(glob_matches(p, n, 1, n.len() as int));
    assert(glob_matches(p, n, 0, n.len() as int));
    lemma_star_absorbs(p, n, 0, 0, n.len() as int);
}

} // verus!
