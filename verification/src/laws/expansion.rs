//! What words, variables, commands and patterns expand to.
use vstd::prelude::*;

use crate::error::ErrorView;
use crate::expand::{
    backtick_end, brace_end, braced_var, descended, flushed, glob_chars_from, glob_matches,
    has_control, joined_from, joined_path, marked_places, name_end, newlines_trimmed, next_step,
    operand_text, paren_end, parts_from, plain_places, planned, prefix_stripped, run_at, runs_from,
    selected, selects, spec_is_name_char, steps_from, suffix_stripped, tilde_expanded, value_from,
    value_of, var_at, vars_from, DirEntry, ExpansionView, GlobView, PartView, StepView,
    WordStepView,
};
use crate::parse::{unmarked, LITERAL};
use crate::text::{
    all_digits, digits_value, index_from, law_decimal_value, lemma_index_from, signed_decimal,
    split,
};

verus! {

/// `~` is the home directory, and `~/` leads into it; in any other place a tilde stands for
/// itself.
pub proof fn law_tilde(home: Seq<char>, x: Seq<char>, w: Seq<char>)
    ensures
        tilde_expanded(seq!['~'], home) == home,
        tilde_expanded(seq!['~', '/'] + x, home) == home + seq!['/'] + x,
        w.len() == 0 || w[0] != '~' || w.len() > 1 && w[1] != '/' ==> tilde_expanded(w, home) == w,
{
    assert(home + seq!['~'].skip(1) =~= home);
    let s = seq!['~', '/'] + x;
    assert(s[0] == '~' && s[1] == '/');
    assert(home + s.skip(1) =~= home + seq!['/'] + x);
}

/// A variable has a value: that of the first entry with its name.
pub open spec fn has_value(
    env: Seq<(String, String)>,
    name: Seq<char>,
    value: Seq<char>,
    i: int,
) -> bool {
    &&& 0 <= i < env.len()
    &&& env[i].0@ == name
    &&& env[i].1@ == value
    &&& forall|j: int| 0 <= j < i ==> (#[trigger] env[j]).0@ != name
}

pub open spec fn is_unset(env: Seq<(String, String)>, name: Seq<char>) -> bool {
    forall|j: int| 0 <= j < env.len() ==> (#[trigger] env[j]).0@ != name
}

proof fn lemma_value_from(env: Seq<(String, String)>, name: Seq<char>, i: int, k: int)
    requires
        0 <= k <= i < env.len(),
        env[i].0@ == name,
        forall|j: int| 0 <= j < i ==> (#[trigger] env[j]).0@ != name,
    ensures
        value_from(env, name, k) == Some(env[i].1@),
    decreases i - k,
{
    if k < i {
        assert(env[k].0@ != name);
        lemma_value_from(env, name, i, k + 1);
    }
}

proof fn lemma_unset_from(env: Seq<(String, String)>, name: Seq<char>, k: int)
    requires
        0 <= k <= env.len(),
        is_unset(env, name),
    ensures
        value_from(env, name, k) is None,
    decreases env.len() - k,
{
    if k < env.len() {
        assert(env[k].0@ != name);
        lemma_unset_from(env, name, k + 1);
    }
}

/// A variable's name: letters, digits and underscores.
pub open spec fn is_name(name: Seq<char>) -> bool {
    name.len() > 0 && forall|i: int|
        0 <= i < name.len() ==> ('0' <= (#[trigger] name[i]) <= '9' || 'a' <= name[i] <= 'z' || 'A'
            <= name[i] <= 'Z' || name[i] == '_')
}

/// A text that names no variable, and holds no marker.
pub open spec fn names_nothing(a: Seq<char>) -> bool {
    forall|i: int| 0 <= i < a.len() ==> (#[trigger] a[i]) != '$' && a[i] != LITERAL
}

proof fn lemma_vars_skip(s: Seq<char>, i: int, n: int, status: int, env: Seq<(String, String)>)
    requires
        0 <= i <= n <= s.len(),
        forall|k: int| i <= k < n ==> (#[trigger] s[k]) != '$' && s[k] != LITERAL,
    ensures
        vars_from(s, i, status, env) == s.subrange(i, n) + vars_from(s, n, status, env),
    decreases n - i,
{
    if i < n {
        assert(s[i] != '$' && s[i] != LITERAL);
        lemma_vars_skip(s, i + 1, n, status, env);
        assert(var_at(s, i, status, env) == (seq![s[i]], i + 1));
        assert(vars_from(s, i, status, env) == seq![s[i]] + vars_from(s, i + 1, status, env));
        assert(seq![s[i]] + (s.subrange(i + 1, n) + vars_from(s, n, status, env)) =~= s.subrange(
            i,
            n,
        ) + vars_from(s, n, status, env));
    } else {
        assert(s.subrange(i, n) + vars_from(s, n, status, env) =~= vars_from(s, n, status, env));
    }
}

proof fn lemma_name_end(s: Seq<char>, i: int, e: int)
    requires
        0 <= i <= e <= s.len(),
        forall|k: int| i <= k < e ==> spec_is_name_char(#[trigger] s[k]),
        e == s.len() || !spec_is_name_char(s[e]),
    ensures
        name_end(s, i) == e,
    decreases e - i,
{
    if i < e {
        assert(spec_is_name_char(s[i]));
        lemma_name_end(s, i + 1, e);
    }
}

/// `$NAME` and `${NAME}` stand for the value of the variable, or for nothing where it is not set;
/// what stands before them stays, and what stands behind them is expanded in turn. The name ends
/// at the first character that cannot belong to it.
pub proof fn law_variable(
    a: Seq<char>,
    name: Seq<char>,
    b: Seq<char>,
    value: Seq<char>,
    env: Seq<(String, String)>,
    i: int,
    status: int,
)
    requires
        names_nothing(a),
        is_name(name),
        has_value(env, name, value, i) || is_unset(env, name) && value.len() == 0,
    ensures
        (b.len() == 0 || !spec_is_name_char(b[0])) ==> ({
            let s = a + seq!['$'] + name + b;
            vars_from(s, 0, status, env) == a + value + vars_from(
                s,
                s.len() - b.len(),
                status,
                env,
            )
        }),
        ({
            let s = a + seq!['$', '{'] + name + seq!['}'] + b;
            vars_from(s, 0, status, env) == a + value + vars_from(
                s,
                s.len() - b.len(),
                status,
                env,
            )
        }),
{
    let n = a.len() as int;
    let m = name.len() as int;
    if is_unset(env, name) {
        lemma_unset_from(env, name, 0);
        assert(value =~= Seq::empty());
    } else {
        lemma_value_from(env, name, i, 0);
    }
    if b.len() == 0 || !spec_is_name_char(b[0]) {
        let s = a + seq!['$'] + name + b;
        let e = n + 1 + m;
        assert forall|k: int| 0 <= k < n implies (#[trigger] s[k]) != '$' && s[k] != LITERAL by {
            assert(s[k] == a[k]);
        }
        lemma_vars_skip(s, 0, n, status, env);
        assert(s.subrange(0, n) =~= a);
        assert forall|k: int| n + 1 <= k < e implies spec_is_name_char(#[trigger] s[k]) by {
            assert(s[k] == name[k - n - 1]);
        }
        if b.len() > 0 {
            assert(s[e] == b[0]);
        }
        lemma_name_end(s, n + 1, e);
        assert(s[n] == '$');
        assert(s[n + 1] == name[0]);
        assert(spec_is_name_char(s[n + 1]));
        assert(s.subrange(n + 1, e) =~= name);
        assert(var_at(s, n, status, env) == (value, e));
        assert(vars_from(s, n, status, env) == value + vars_from(s, e, status, env));
        assert(a + (value + vars_from(s, e, status, env)) =~= a + value + vars_from(
            s,
            e,
            status,
            env,
        ));
    }
    let s = a + seq!['$', '{'] + name + seq!['}'] + b;
    let e = n + 2 + m;
    assert forall|k: int| 0 <= k < n implies (#[trigger] s[k]) != '$' && s[k] != LITERAL by {
        assert(s[k] == a[k]);
    }
    lemma_vars_skip(s, 0, n, status, env);
    assert(s.subrange(0, n) =~= a);
    assert forall|k: int| n + 2 <= k < e implies spec_is_name_char(#[trigger] s[k]) by {
        assert(s[k] == name[k - n - 2]);
    }
    assert(s[e] == '}');
    lemma_name_end(s, n + 2, e);
    assert(s[n] == '$' && s[n + 1] == '{');
    assert(s.subrange(n + 2, e) =~= name);
    assert(braced_var(s, n + 2, env) == (value, e + 1));
    assert(var_at(s, n, status, env) == (value, e + 1));
    assert(vars_from(s, n, status, env) == value + vars_from(s, e + 1, status, env));
    assert(a + (value + vars_from(s, e + 1, status, env)) =~= a + value + vars_from(
        s,
        e + 1,
        status,
        env,
    ));
}

/// A text without variables stays as it is, and the expansion ends at its end.
pub proof fn law_no_variable(a: Seq<char>, status: int, env: Seq<(String, String)>)
    requires
        names_nothing(a),
    ensures
        vars_from(a, 0, status, env) == a,
        vars_from(a, a.len() as int, status, env).len() == 0,
{
    lemma_vars_skip(a, 0, a.len() as int, status, env);
    assert(a.subrange(0, a.len() as int) + Seq::<char>::empty() =~= a);
}

/// `$?` stands for the last status in decimal; a dollar sign that names nothing stands for itself.
pub proof fn law_status_variable(
    a: Seq<char>,
    b: Seq<char>,
    c: char,
    env: Seq<(String, String)>,
    status: int,
)
    requires
        names_nothing(a),
        status >= 0,
        !spec_is_name_char(c) && c != '(' && c != '?' && c != '{',
    ensures
        ({
            let s = a + seq!['$', '?'] + b;
            let r = vars_from(s, 0, status, env);
            let rest = vars_from(s, s.len() - b.len(), status, env);
            let d = r.subrange(a.len() as int, r.len() - rest.len());
            &&& r.len() >= a.len() + rest.len()
            &&& r == a + d + rest
            &&& all_digits(d) && d.len() > 0
            &&& digits_value(d) == status
        }),
        ({
            let s = a + seq!['$', c] + b;
            vars_from(s, 0, status, env) == a + seq!['$'] + vars_from(
                s,
                a.len() as int + 1,
                status,
                env,
            )
        }),
        vars_from(a + seq!['$'], 0, status, env) == a + seq!['$'],
{
    let n = a.len() as int;
    let s = a + seq!['$', '?'] + b;
    assert forall|k: int| 0 <= k < n implies (#[trigger] s[k]) != '$' && s[k] != LITERAL by {
        assert(s[k] == a[k]);
    }
    lemma_vars_skip(s, 0, n, status, env);
    assert(s.subrange(0, n) =~= a);
    assert(s[n] == '$' && s[n + 1] == '?');
    law_decimal_value(status as nat);
    let d = signed_decimal(status);
    let rest = vars_from(s, n + 2, status, env);
    assert(var_at(s, n, status, env) == (d, n + 2));
    let r = vars_from(s, 0, status, env);
    assert(r =~= a + d + rest);
    assert(r.subrange(n, r.len() - rest.len()) =~= d);
    let t = a + seq!['$', c] + b;
    assert forall|k: int| 0 <= k < n implies (#[trigger] t[k]) != '$' && t[k] != LITERAL by {
        assert(t[k] == a[k]);
    }
    lemma_vars_skip(t, 0, n, status, env);
    assert(t.subrange(0, n) =~= a);
    assert(t[n] == '$' && t[n + 1] == c);
    assert(name_end(t, n + 1) == n + 1);
    assert(var_at(t, n, status, env) == (seq!['$'], n + 1));
    let q = vars_from(t, n + 1, status, env);
    assert(a + (seq!['$'] + q) =~= a + seq!['$'] + q);
    let u = a + seq!['$'];
    assert forall|k: int| 0 <= k < n implies (#[trigger] u[k]) != '$' && u[k] != LITERAL by {
        assert(u[k] == a[k]);
    }
    lemma_vars_skip(u, 0, n, status, env);
    assert(u.subrange(0, n) =~= a);
    assert(u[n] == '$');
    assert(name_end(u, n + 1) == n + 1);
    assert(var_at(u, n, status, env) == (seq!['$'], n + 1));
    assert(vars_from(u, n + 1, status, env) =~= Seq::empty());
    assert(vars_from(u, n, status, env) =~= seq!['$']);
}

/// `a` followed by `${NAME`, `op`, `word` and `}`.
pub open spec fn braced(name: Seq<char>, op: Seq<char>, word: Seq<char>) -> Seq<char> {
    seq!['$', '{'] + name + op + word + seq!['}']
}

/// A text that a `${...}` takes as it stands.
pub open spec fn is_operand(word: Seq<char>) -> bool {
    forall|i: int|
        0 <= i < word.len() ==> (#[trigger] word[i]) != '{' && word[i] != '}' && word[i] != LITERAL
}

proof fn lemma_brace_end(s: Seq<char>, i: int, e: int)
    requires
        0 <= i <= e < s.len(),
        s[e] == '}',
        forall|k: int|
            i <= k < e ==> (#[trigger] s[k]) != '{' && s[k] != '}' && s[k] != LITERAL,
    ensures
        brace_end(s, i, 1) == Some(e + 1),
    decreases e - i,
{
    if i < e {
        assert(s[i] != '{' && s[i] != '}' && s[i] != LITERAL);
        lemma_brace_end(s, i + 1, e);
    } else {
        assert(brace_end(s, e + 1, 0) == Some(e + 1));
    }
}

proof fn lemma_unmarked_operand(t: Seq<char>)
    requires
        is_operand(t),
    ensures
        unmarked(t) == t,
    decreases t.len(),
{
    if t.len() > 0 {
        let r = t.drop_last();
        assert forall|i: int| 0 <= i < r.len() implies (#[trigger] r[i]) != '{' && r[i] != '}'
            && r[i] != LITERAL by {
            assert(r[i] == t[i]);
        }
        lemma_unmarked_operand(r);
        assert(t[t.len() - 1] != LITERAL);
        assert(r.push(t.last()) =~= t);
    }
}

proof fn lemma_braced(
    name: Seq<char>,
    op: Seq<char>,
    word: Seq<char>,
    env: Seq<(String, String)>,
    status: int,
)
    requires
        is_name(name),
        is_operand(word),
        op.len() > 0,
        is_operand(op),
        !spec_is_name_char(op[0]),
    ensures
        vars_from(braced(name, op, word), 0, status, env) == crate::expand::operand_text(
            op + word,
            value_of(env, name),
        ),
{
    let s = braced(name, op, word);
    let m = name.len() as int;
    let e = 2 + m;
    let n = s.len() as int;
    assert forall|k: int| 2 <= k < e implies spec_is_name_char(#[trigger] s[k]) by {
        assert(s[k] == name[k - 2]);
    }
    assert(s[e] == op[0]);
    lemma_name_end(s, 2, e);
    assert(s[0] == '$' && s[1] == '{');
    assert(s.subrange(2, e) =~= name);
    assert(op[0] != '}');
    let inner = op + word;
    assert(s.subrange(e, n - 1) =~= inner);
    assert forall|k: int| e <= k < n - 1 implies (#[trigger] s[k]) != '{' && s[k] != '}' && s[k]
        != LITERAL by {
        assert(s.subrange(e, n - 1)[k - e] == s[k]);
        if k - e < op.len() {
            assert(s[k] == op[k - e]);
        } else {
            assert(s[k] == word[k - e - op.len()]);
        }
    }
    assert(s[n - 1] == '}');
    lemma_brace_end(s, e, n - 1);
    assert(is_operand(inner)) by {
        assert forall|k: int| 0 <= k < inner.len() implies (#[trigger] inner[k]) != '{' && inner[k]
            != '}' && inner[k] != LITERAL by {
            if k < op.len() {
                assert(inner[k] == op[k]);
            } else {
                assert(inner[k] == word[k - op.len()]);
            }
        }
    }
    lemma_unmarked_operand(inner);
    let t = crate::expand::operand_text(inner, value_of(env, name));
    assert(braced_var(s, 2, env) == (t, n));
    assert(var_at(s, 0, status, env) == (t, n));
    assert(vars_from(s, n, status, env) =~= Seq::empty());
    assert(t + Seq::<char>::empty() =~= t);
}

/// `${NAME:-word}` stands for the word where the variable is not set or empty, and else for its
/// value; `${NAME-word}` minds only whether it is set. `${NAME:+word}` and `${NAME+word}` stand
/// for the word in the other case, and for nothing in this one.
pub proof fn law_variable_or_word(
    name: Seq<char>,
    word: Seq<char>,
    value: Seq<char>,
    env: Seq<(String, String)>,
    i: int,
    status: int,
)
    requires
        is_name(name),
        is_operand(word),
        has_value(env, name, value, i),
    ensures
        vars_from(braced(name, seq![':', '-'], word), 0, status, env) == if value.len() > 0 {
            value
        } else {
            word
        },
        vars_from(braced(name, seq!['-'], word), 0, status, env) == value,
        vars_from(braced(name, seq![':', '+'], word), 0, status, env) == if value.len() > 0 {
            word
        } else {
            Seq::empty()
        },
        vars_from(braced(name, seq!['+'], word), 0, status, env) == word,
{
    lemma_value_from(env, name, i, 0);
    lemma_operators(name, word, env, status);
}

/// The same where the variable is not set.
pub proof fn law_unset_variable_or_word(
    name: Seq<char>,
    word: Seq<char>,
    env: Seq<(String, String)>,
    status: int,
)
    requires
        is_name(name),
        is_operand(word),
        is_unset(env, name),
    ensures
        vars_from(braced(name, seq![':', '-'], word), 0, status, env) == word,
        vars_from(braced(name, seq!['-'], word), 0, status, env) == word,
        vars_from(braced(name, seq![':', '+'], word), 0, status, env).len() == 0,
        vars_from(braced(name, seq!['+'], word), 0, status, env).len() == 0,
{
    lemma_unset_from(env, name, 0);
    lemma_operators(name, word, env, status);
}

proof fn lemma_operators(
    name: Seq<char>,
    word: Seq<char>,
    env: Seq<(String, String)>,
    status: int,
)
    requires
        is_name(name),
        is_operand(word),
    ensures
        ({
            let val = value_of(env, name);
            let filled = val is Some && val->0.len() > 0;
            &&& vars_from(braced(name, seq![':', '-'], word), 0, status, env) == if filled {
                val->0
            } else {
                word
            }
            &&& vars_from(braced(name, seq!['-'], word), 0, status, env) == if val is Some {
                val->0
            } else {
                word
            }
            &&& vars_from(braced(name, seq![':', '+'], word), 0, status, env) == if filled {
                word
            } else {
                Seq::empty()
            }
            &&& vars_from(braced(name, seq!['+'], word), 0, status, env) == if val is Some {
                word
            } else {
                Seq::empty()
            }
        }),
{
    reveal_strlit(":-");
    reveal_strlit("-");
    reveal_strlit(":+");
    reveal_strlit("+");
    lemma_braced(name, seq![':', '-'], word, env, status);
    lemma_braced(name, seq!['-'], word, env, status);
    lemma_braced(name, seq![':', '+'], word, env, status);
    lemma_braced(name, seq!['+'], word, env, status);
    let a = seq![':', '-'] + word;
    assert(a.subrange(0, 2) =~= ":-"@);
    assert(a.skip(2) =~= word);
    let b = seq!['-'] + word;
    assert(b.subrange(0, 1) =~= "-"@);
    assert(b[0] == '-' && ":-"@[0] == ':');
    assert(b.len() >= 2 ==> b.subrange(0, 2)[0] == '-');
    assert(b.skip(1) =~= word);
    let c = seq![':', '+'] + word;
    assert(c.subrange(0, 2) =~= ":+"@);
    assert(c.subrange(0, 2)[1] == '+' && ":-"@[1] == '-');
    assert(c.subrange(0, 1)[0] == ':' && "-"@[0] == '-');
    assert(c.skip(2) =~= word);
    let d = seq!['+'] + word;
    assert(d.subrange(0, 1) =~= "+"@);
    assert(d.subrange(0, 1)[0] == '+' && "-"@[0] == '-');
    assert(d.len() >= 2 ==> d.subrange(0, 2)[0] == '+');
    assert(":+"@[0] == ':');
    assert(d.skip(1) =~= word);
}

// -- Commands --

/// A text that no substitution looks at.
pub open spec fn runs_nothing(a: Seq<char>) -> bool {
    forall|i: int|
        0 <= i < a.len() ==> (#[trigger] a[i]) != '$' && a[i] != '`' && a[i] != LITERAL && a[i]
            != '*' && a[i] != '?'
}

/// A command in `$(...)` or backticks, without substitutions of its own.
pub open spec fn is_inner_command(c: Seq<char>) -> bool {
    forall|i: int|
        0 <= i < c.len() ==> (#[trigger] c[i]) != '$' && c[i] != '`' && c[i] != LITERAL && c[i]
            != '(' && c[i] != ')'
}

proof fn lemma_parts_skip(s: Seq<char>, i: int, n: int, done: Seq<PartView>, text: Seq<char>)
    requires
        0 <= i <= n <= s.len(),
        forall|k: int|
            i <= k < n ==> (#[trigger] s[k]) != '$' && s[k] != '`' && s[k] != LITERAL,
    ensures
        parts_from(s, i, done, text) == parts_from(s, n, done, text + s.subrange(i, n)),
    decreases n - i,
{
    if i < n {
        assert(s[i] != '$' && s[i] != '`' && s[i] != LITERAL);
        lemma_parts_skip(s, i + 1, n, done, text.push(s[i]));
        assert(text.push(s[i]) + s.subrange(i + 1, n) =~= text + s.subrange(i, n));
    } else {
        assert(text + s.subrange(i, n) =~= text);
    }
}

proof fn lemma_paren_end(s: Seq<char>, i: int, e: int)
    requires
        0 <= i <= e < s.len(),
        s[e] == ')',
        forall|k: int|
            i <= k < e ==> (#[trigger] s[k]) != '(' && s[k] != ')' && s[k] != LITERAL,
    ensures
        paren_end(s, i, 1) == Some(e),
    decreases e - i,
{
    if i < e {
        assert(s[i] != '(' && s[i] != ')' && s[i] != LITERAL);
        lemma_paren_end(s, i + 1, e);
    }
}

proof fn lemma_backtick_end(s: Seq<char>, i: int, e: int)
    requires
        0 <= i <= e < s.len(),
        s[e] == '`',
        forall|k: int| i <= k < e ==> (#[trigger] s[k]) != '`' && s[k] != LITERAL,
    ensures
        backtick_end(s, i) == Some(e),
    decreases e - i,
{
    if i < e {
        assert(s[i] != '`' && s[i] != LITERAL);
        lemma_backtick_end(s, i + 1, e);
    }
}

proof fn lemma_unmarked_plain(t: Seq<char>)
    requires
        !t.contains(LITERAL),
    ensures
        unmarked(t) == t,
    decreases t.len(),
{
    if t.len() > 0 {
        let r = t.drop_last();
        assert(t.contains(t.last()));
        assert(!r.contains(LITERAL)) by {
            if r.contains(LITERAL) {
                let i = choose|i: int| 0 <= i < r.len() && r[i] == LITERAL;
                assert(t[i] == LITERAL);
            }
        }
        lemma_unmarked_plain(r);
        assert(r.push(t.last()) =~= t);
    }
}

/// The parts of a text around one command.
spec fn parts_around(a: Seq<char>, c: Seq<char>, b: Seq<char>) -> Seq<PartView> {
    flushed(flushed(Seq::empty(), a).push(PartView::Run(c)), b)
}

proof fn lemma_parts_around(a: Seq<char>, c: Seq<char>, b: Seq<char>)
    requires
        runs_nothing(a),
        is_inner_command(c),
        runs_nothing(b),
    ensures
        parts_from(
            a + seq!['$', '('] + c + seq![')'] + b,
            0,
            Seq::empty(),
            Seq::empty(),
        ) == (parts_around(a, c, b), None::<ErrorView>),
        parts_from(
            a + seq!['`'] + c + seq!['`'] + b,
            0,
            Seq::empty(),
            Seq::empty(),
        ) == (parts_around(a, c, b), None::<ErrorView>),
{
    let e = Seq::<PartView>::empty();
    let x = Seq::<char>::empty();
    let n = a.len() as int;
    assert(!c.contains(LITERAL)) by {
        if c.contains(LITERAL) {
            let i = choose|i: int| 0 <= i < c.len() && c[i] == LITERAL;
            assert(c[i] != LITERAL);
        }
    }
    lemma_unmarked_plain(c);
    let s = a + seq!['$', '('] + c + seq![')'] + b;
    let k = n + 2 + c.len();
    assert forall|i: int| 0 <= i < n implies (#[trigger] s[i]) != '$' && s[i] != '`' && s[i]
        != LITERAL by {
        assert(s[i] == a[i]);
    }
    lemma_parts_skip(s, 0, n, e, x);
    assert(x + s.subrange(0, n) =~= a);
    assert(s[n] == '$' && s[n + 1] == '(');
    assert forall|i: int| n + 2 <= i < k implies (#[trigger] s[i]) != '(' && s[i] != ')' && s[i]
        != LITERAL by {
        assert(s[i] == c[i - n - 2]);
    }
    assert(s[k] == ')');
    lemma_paren_end(s, n + 2, k);
    assert(s.subrange(n + 2, k) =~= c);
    let d = flushed(e, a).push(PartView::Run(c));
    assert forall|i: int| k + 1 <= i < s.len() implies (#[trigger] s[i]) != '$' && s[i] != '`'
        && s[i] != LITERAL by {
        assert(s[i] == b[i - k - 1]);
    }
    lemma_parts_skip(s, k + 1, s.len() as int, d, x);
    assert(x + s.subrange(k + 1, s.len() as int) =~= b);
    let t = a + seq!['`'] + c + seq!['`'] + b;
    let m = n + 1 + c.len();
    assert forall|i: int| 0 <= i < n implies (#[trigger] t[i]) != '$' && t[i] != '`' && t[i]
        != LITERAL by {
        assert(t[i] == a[i]);
    }
    lemma_parts_skip(t, 0, n, e, x);
    assert(x + t.subrange(0, n) =~= a);
    assert(t[n] == '`');
    assert forall|i: int| n + 1 <= i < m implies (#[trigger] t[i]) != '`' && t[i] != LITERAL by {
        assert(t[i] == c[i - n - 1]);
    }
    assert(t[m] == '`');
    lemma_backtick_end(t, n + 1, m);
    assert(t.subrange(n + 1, m) =~= c);
    assert forall|i: int| m + 1 <= i < t.len() implies (#[trigger] t[i]) != '$' && t[i] != '`'
        && t[i] != LITERAL by {
        assert(t[i] == b[i - m - 1]);
    }
    lemma_parts_skip(t, m + 1, t.len() as int, d, x);
    assert(x + t.subrange(m + 1, t.len() as int) =~= b);
}

proof fn lemma_vars_keep_command(
    a: Seq<char>,
    c: Seq<char>,
    b: Seq<char>,
    status: int,
    env: Seq<(String, String)>,
)
    requires
        runs_nothing(a),
        is_inner_command(c),
        runs_nothing(b),
    ensures
        ({
            let s = a + seq!['$', '('] + c + seq![')'] + b;
            vars_from(s, 0, status, env) == s
        }),
        ({
            let t = a + seq!['`'] + c + seq!['`'] + b;
            vars_from(t, 0, status, env) == t
        }),
{
    let n = a.len() as int;
    let s = a + seq!['$', '('] + c + seq![')'] + b;
    let m = s.len() as int;
    assert forall|i: int| 0 <= i < n implies (#[trigger] s[i]) != '$' && s[i] != LITERAL by {
        assert(s[i] == a[i]);
    }
    lemma_vars_skip(s, 0, n, status, env);
    assert(s[n] == '$' && s[n + 1] == '(');
    assert(var_at(s, n, status, env) == (seq!['$'], n + 1));
    assert forall|i: int| n + 1 <= i < m implies (#[trigger] s[i]) != '$' && s[i] != LITERAL by {
        if i == n + 1 {
        } else if i < n + 2 + c.len() {
            assert(s[i] == c[i - n - 2]);
        } else if i > n + 2 + c.len() {
            assert(s[i] == b[i - n - 3 - c.len()]);
        }
    }
    lemma_vars_skip(s, n + 1, m, status, env);
    assert(s.subrange(0, n) + (seq!['$'] + (s.subrange(n + 1, m) + Seq::<char>::empty())) =~= s);
    let t = a + seq!['`'] + c + seq!['`'] + b;
    assert forall|i: int| 0 <= i < t.len() implies (#[trigger] t[i]) != '$' && t[i] != LITERAL by {
        if i < n {
            assert(t[i] == a[i]);
        } else if i == n {
        } else if i < n + 1 + c.len() {
            assert(t[i] == c[i - n - 1]);
        } else if i > n + 1 + c.len() {
            assert(t[i] == b[i - n - 2 - c.len()]);
        }
    }
    assert(names_nothing(t));
    law_no_variable(t, status, env);
}

proof fn lemma_newlines_trimmed(x: Seq<char>, k: nat)
    requires
        x.len() == 0 || x.last() != '\n',
    ensures
        newlines_trimmed(x + Seq::new(k, |i: int| '\n')) == x,
    decreases k,
{
    let s = x + Seq::new(k, |i: int| '\n');
    if k == 0 {
        assert(s =~= x);
    } else {
        assert(s.drop_last() =~= x + Seq::new((k - 1) as nat, |i: int| '\n'));
        lemma_newlines_trimmed(x, (k - 1) as nat);
    }
}

proof fn lemma_joined_around(
    a: Seq<char>,
    c: Seq<char>,
    b: Seq<char>,
    o: Seq<char>,
)
    ensures
        joined_from(parts_around(a, c, b), seq![o], 0, 0) == a + newlines_trimmed(o) + b,
        runs_from(parts_around(a, c, b), 0) == 1,
        run_at(parts_around(a, c, b), 0, 0) == c,
{
    reveal_with_fuel(joined_from, 4);
    reveal_with_fuel(runs_from, 4);
    reveal_with_fuel(run_at, 4);
    let p = parts_around(a, c, b);
    if a.len() == 0 {
        assert(a =~= Seq::empty());
    }
    if b.len() == 0 {
        assert(b =~= Seq::empty());
    }
    assert(joined_from(p, seq![o], 0, 0) =~= a + newlines_trimmed(o) + b);
}

proof fn lemma_no_glob(s: Seq<char>, i: int)
    requires
        0 <= i <= s.len(),
        forall|k: int| i <= k < s.len() ==> (#[trigger] s[k]) != '*' && s[k] != '?' && s[k]
            != LITERAL,
    ensures
        !glob_chars_from(s, i),
    decreases s.len() - i,
{
    if i < s.len() {
        assert(s[i] != '*');
        lemma_no_glob(s, i + 1);
    }
}

/// `$(command)` and a command in backticks are run, and what the command writes takes their
/// place, without the newlines at its end: what stands around it stays.
pub proof fn law_command_substitution(
    a: Seq<char>,
    c: Seq<char>,
    b: Seq<char>,
    x: Seq<char>,
    newlines: nat,
    home: Seq<char>,
    status: int,
    env: Seq<(String, String)>,
)
    requires
        runs_nothing(a),
        is_inner_command(c),
        !c.contains('*') && !c.contains('?'),
        runs_nothing(b),
        a.len() == 0 || a[0] != '~',
        x.len() == 0 || x.last() != '\n',
        !x.contains(LITERAL),
    ensures
        ({
            let plan = planned(a + seq!['$', '('] + c + seq![')'] + b, home, status, env);
            let o = x + Seq::new(newlines, |i: int| '\n');
            &&& next_step(plan, Seq::empty()) == WordStepView::Run(c)
            &&& next_step(plan, seq![o]) == WordStepView::Ready(ExpansionView::Word(a + x + b))
        }),
        ({
            let plan = planned(a + seq!['`'] + c + seq!['`'] + b, home, status, env);
            let o = x + Seq::new(newlines, |i: int| '\n');
            &&& next_step(plan, Seq::empty()) == WordStepView::Run(c)
            &&& next_step(plan, seq![o]) == WordStepView::Ready(ExpansionView::Word(a + x + b))
        }),
{
    let s = a + seq!['$', '('] + c + seq![')'] + b;
    let t = a + seq!['`'] + c + seq!['`'] + b;
    let o = x + Seq::new(newlines, |i: int| '\n');
    let n = a.len() as int;
    assert(s[n] == '$');
    assert(t[n] == '`');
    if n > 0 {
        assert(s[0] == a[0] && t[0] == a[0]);
    }
    assert(tilde_expanded(s, home) == s);
    assert(tilde_expanded(t, home) == t);
    lemma_vars_keep_command(a, c, b, status, env);
    lemma_parts_around(a, c, b);
    lemma_joined_around(a, c, b, o);
    lemma_newlines_trimmed(x, newlines);
    assert forall|k: int| 0 <= k < s.len() implies (#[trigger] s[k]) != '*' && s[k] != '?' && s[k]
        != LITERAL by {
        if k < n {
            assert(s[k] == a[k]);
        } else if k < n + 2 {
        } else if k < n + 2 + c.len() {
            assert(s[k] == c[k - n - 2]);
            assert(c.contains(c[k - n - 2]));
        } else if k > n + 2 + c.len() {
            assert(s[k] == b[k - n - 3 - c.len()]);
        }
    }
    lemma_no_glob(s, 0);
    assert forall|k: int| 0 <= k < t.len() implies (#[trigger] t[k]) != '*' && t[k] != '?' && t[k]
        != LITERAL by {
        if k < n {
            assert(t[k] == a[k]);
        } else if k == n {
        } else if k < n + 1 + c.len() {
            assert(t[k] == c[k - n - 1]);
            assert(c.contains(c[k - n - 1]));
        } else if k > n + 1 + c.len() {
            assert(t[k] == b[k - n - 2 - c.len()]);
        }
    }
    lemma_no_glob(t, 0);
    let r = a + x + b;
    assert(!r.contains(LITERAL)) by {
        if r.contains(LITERAL) {
            let k = choose|k: int| 0 <= k < r.len() && r[k] == LITERAL;
            if k < n {
                assert(r[k] == a[k]);
            } else if k < n + x.len() {
                assert(r[k] == x[k - n]);
                assert(x.contains(x[k - n]));
            } else {
                assert(r[k] == b[k - n - x.len()]);
            }
        }
    }
    lemma_unmarked_plain(r);
}

// -- Patterns --

/// A text without pattern characters.
pub open spec fn is_literal(p: Seq<char>) -> bool {
    forall|i: int| 0 <= i < p.len() ==> (#[trigger] p[i]) != '*' && p[i] != '?'
}

/// `name` from `j` on reads `p`.
pub open spec fn reads_at(n: Seq<char>, j: int, p: Seq<char>) -> bool {
    0 <= j && j + p.len() <= n.len() && n.subrange(j, j + p.len()) == p
}

proof fn lemma_literal_part(p: Seq<(char, bool)>, n: Seq<char>, i: int, j: int, w: Seq<char>)
    requires
        0 <= i,
        i + w.len() <= p.len(),
        0 <= j <= n.len(),
        is_literal(w),
        forall|k: int| 0 <= k < w.len() ==> p[i + k] == (#[trigger] w[k], false),
    ensures
        glob_matches(p, n, i, j) == (reads_at(n, j, w) && glob_matches(
            p,
            n,
            i + w.len(),
            j + w.len(),
        )),
    decreases w.len(),
{
    if w.len() == 0 {
        assert(n.subrange(j, j) =~= w);
    } else {
        let r = w.drop_first();
        assert(p[i + 0] == (w[0], false));
        assert(w[0] != '*' && w[0] != '?');
        assert forall|k: int| 0 <= k < r.len() implies p[i + 1 + k] == (#[trigger] r[k], false) by {
            assert(r[k] == w[k + 1]);
            assert(p[i + (k + 1)] == (w[k + 1], false));
        }
        assert(is_literal(r)) by {
            assert forall|k: int| 0 <= k < r.len() implies (#[trigger] r[k]) != '*' && r[k]
                != '?' by {
                assert(r[k] == w[k + 1]);
            }
        }
        if j < n.len() {
            lemma_literal_part(p, n, i + 1, j + 1, r);
            if reads_at(n, j, w) {
                assert(n.subrange(j, j + w.len())[0] == n[j]);
                assert(n.subrange(j, j + w.len()).drop_first() =~= n.subrange(
                    j + 1,
                    j + 1 + r.len(),
                ));
            }
            if n[j] == w[0] && reads_at(n, j + 1, r) {
                assert(seq![n[j]] + n.subrange(j + 1, j + 1 + r.len()) =~= n.subrange(
                    j,
                    j + w.len(),
                ));
                assert(seq![w[0]] + r =~= w);
            }
        }
    }
}

proof fn lemma_star_part(p: Seq<(char, bool)>, n: Seq<char>, i: int, j: int, m: int)
    requires
        0 <= i < p.len(),
        p[i] == ('*', false),
        0 <= j <= m <= n.len(),
        glob_matches(p, n, i + 1, m),
    ensures
        glob_matches(p, n, i, j),
    decreases m - j,
{
    if j < m {
        lemma_star_part(p, n, i, j + 1, m);
    }
}

proof fn lemma_star_match(p: Seq<(char, bool)>, n: Seq<char>, i: int, j: int) -> (m: int)
    requires
        0 <= i < p.len(),
        p[i] == ('*', false),
        0 <= j <= n.len(),
        glob_matches(p, n, i, j),
    ensures
        j <= m <= n.len(),
        glob_matches(p, n, i + 1, m),
    decreases n.len() - j,
{
    if glob_matches(p, n, i + 1, j) {
        j
    } else {
        lemma_star_match(p, n, i, j + 1)
    }
}

/// `a*b` matches exactly the names that start with `a` and end with `b`, whatever is between.
pub proof fn law_star_matches_between(a: Seq<char>, b: Seq<char>, n: Seq<char>)
    requires
        is_literal(a),
        is_literal(b),
    ensures
        glob_matches(plain_places(a + seq!['*'] + b), n, 0, 0) == (n.len() >= a.len() + b.len()
            && n.take(a.len() as int) == a && n.skip(n.len() - b.len()) == b),
{
    let s = a + seq!['*'] + b;
    let p = plain_places(s);
    let i = a.len() as int;
    assert forall|k: int| 0 <= k < a.len() implies p[0 + k] == (#[trigger] a[k], false) by {
        assert(s[k] == a[k]);
    }
    lemma_literal_part(p, n, 0, 0, a);
    assert(p[i] == ('*', false));
    assert forall|k: int| 0 <= k < b.len() implies p[i + 1 + k] == (#[trigger] b[k], false) by {
        assert(s[i + 1 + k] == b[k]);
    }
    if reads_at(n, 0, a) {
        assert(n.subrange(0, i) =~= n.take(i));
        if glob_matches(p, n, i, i) {
            let m = lemma_star_match(p, n, i, i);
            lemma_literal_part(p, n, i + 1, m, b);
            assert(m + b.len() == n.len());
            assert(n.subrange(m, m + b.len()) =~= n.skip(n.len() - b.len()));
        }
        if n.len() >= a.len() + b.len() && n.skip(n.len() - b.len()) == b {
            let m = n.len() - b.len();
            assert(n.subrange(m, m + b.len()) =~= n.skip(m));
            lemma_literal_part(p, n, i + 1, m, b);
            assert(glob_matches(p, n, p.len() as int, n.len() as int));
            lemma_star_part(p, n, i, i, m);
        }
    } else if n.len() >= a.len() {
        assert(n.subrange(0, i) =~= n.take(i));
    }
}

/// `a?b` matches exactly the names that have one character between `a` and `b`.
pub proof fn law_question_matches_one(a: Seq<char>, b: Seq<char>, n: Seq<char>)
    requires
        is_literal(a),
        is_literal(b),
    ensures
        glob_matches(plain_places(a + seq!['?'] + b), n, 0, 0) == (n.len() == a.len() + 1 + b.len()
            && n.take(a.len() as int) == a && n.skip(a.len() as int + 1) == b),
{
    let s = a + seq!['?'] + b;
    let p = plain_places(s);
    let i = a.len() as int;
    assert forall|k: int| 0 <= k < a.len() implies p[0 + k] == (#[trigger] a[k], false) by {
        assert(s[k] == a[k]);
    }
    lemma_literal_part(p, n, 0, 0, a);
    assert(p[i] == ('?', false));
    assert forall|k: int| 0 <= k < b.len() implies p[i + 1 + k] == (#[trigger] b[k], false) by {
        assert(s[i + 1 + k] == b[k]);
    }
    if n.len() >= i {
        assert(n.subrange(0, i) =~= n.take(i));
    }
    if reads_at(n, 0, a) && i < n.len() {
        lemma_literal_part(p, n, i + 1, i + 1, b);
        if n.len() == i + 1 + b.len() {
            assert(n.subrange(i + 1, i + 1 + b.len()) =~= n.skip(i + 1));
        }
        if reads_at(n, i + 1, b) && i + 1 + b.len() == n.len() {
            assert(glob_matches(p, n, p.len() as int, n.len() as int));
        }
    }
}

/// A hidden name is selected only by a pattern that starts with a dot, a name with a control
/// character by none, and before the last segment only directories are.
pub proof fn law_selected_names(pattern: Seq<char>, is_last: bool, e: DirEntry)
    requires
        selects(pattern, is_last, e),
        pattern.len() > 0,
        pattern[0] != LITERAL,
    ensures
        e.name@.len() > 0 && e.name@[0] == '.' ==> pattern[0] == '.',
        forall|i: int|
            0 <= i < e.name@.len() ==> (#[trigger] e.name@[i]) as u32 >= 32 && e.name@[i] as u32
                != 127,
        !is_last ==> e.leads_to_dir,
{
    assert forall|i: int| 0 <= i < e.name@.len() implies (#[trigger] e.name@[i]) as u32 >= 32
        && e.name@[i] as u32 != 127 by {
        if crate::expand::spec_is_control(e.name@[i]) {
            assert(has_control(e.name@));
        }
    }
    assert(marked_places(pattern, 0)[0] == (pattern[0], false));
}

proof fn lemma_marked_plain(p: Seq<char>, i: int)
    requires
        0 <= i <= p.len(),
        forall|k: int| i <= k < p.len() ==> (#[trigger] p[k]) != LITERAL,
    ensures
        marked_places(p, i) == plain_places(p).skip(i),
    decreases p.len() - i,
{
    if i < p.len() {
        assert(p[i] != LITERAL);
        lemma_marked_plain(p, i + 1);
        assert(seq![(p[i], false)] + plain_places(p).skip(i + 1) =~= plain_places(p).skip(i));
    } else {
        assert(plain_places(p).skip(i) =~= Seq::empty());
    }
}

proof fn lemma_selected_members(
    dir: Seq<char>,
    pattern: Seq<char>,
    is_last: bool,
    entries: Seq<DirEntry>,
    n: int,
    path: Seq<char>,
)
    requires
        0 <= n <= entries.len(),
    ensures
        selected(dir, pattern, is_last, entries, n).contains(path) <==> exists|i: int|
            0 <= i < n && selects(pattern, is_last, #[trigger] entries[i]) && path == joined_path(
                dir,
                entries[i].name@,
            ),
    decreases n,
{
    let r = selected(dir, pattern, is_last, entries, n);
    if n > 0 {
        lemma_selected_members(dir, pattern, is_last, entries, n - 1, path);
        let b = selected(dir, pattern, is_last, entries, n - 1);
        if r.contains(path) {
            let k = choose|k: int| 0 <= k < r.len() && r[k] == path;
            if k < b.len() {
                assert(b[k] == path);
                assert(b.contains(path));
            } else {
                assert(selects(pattern, is_last, entries[n - 1]));
            }
        }
        if exists|i: int|
            0 <= i < n && selects(pattern, is_last, #[trigger] entries[i]) && path == joined_path(
                dir,
                entries[i].name@,
            ) {
            let i = choose|i: int|
                0 <= i < n && selects(pattern, is_last, #[trigger] entries[i]) && path
                    == joined_path(dir, entries[i].name@);
            if i < n - 1 {
                assert(b.contains(path));
                let k = choose|k: int| 0 <= k < b.len() && b[k] == path;
                assert(r[k] == path);
            } else {
                assert(r.last() == path);
            }
        }
    }
}

/// The entry of a directory that a plain pattern finds: it matches, it is not hidden unless the
/// pattern starts with a dot, and its name has no control character.
pub open spec fn is_found(pattern: Seq<char>, e: DirEntry) -> bool {
    &&& glob_matches(plain_places(pattern), e.name@, 0, 0)
    &&& !(e.name@.len() > 0 && e.name@[0] == '.' && pattern[0] != '.')
    &&& forall|i: int|
        0 <= i < e.name@.len() ==> (#[trigger] e.name@[i]) as u32 >= 32 && e.name@[i] as u32 != 127
}

/// A pattern of one segment becomes the names of the entries of the current directory that it
/// finds, and no others.
pub proof fn law_pattern_finds_entries(
    pattern: Seq<char>,
    entries: Seq<DirEntry>,
    name: Seq<char>,
)
    requires
        pattern.len() > 0,
        !pattern.contains('/'),
        !pattern.contains(LITERAL),
        pattern != seq!['*', '*'],
    ensures
        ({
            let g = GlobView::start(pattern).settled();
            let done = g.fed(entries);
            &&& g.steps.len() == 1 && g.dirs == seq![seq!['.']]
            &&& done.steps.len() == 0
            &&& done.dirs.contains(name) <==> exists|i: int|
                0 <= i < entries.len() && is_found(pattern, #[trigger] entries[i])
                    && entries[i].name@ == name
        }),
{
    reveal_strlit(".");
    reveal_strlit("**");
    lemma_index_from(pattern, '/', 0);
    let k = index_from(pattern, '/', 0);
    if k < pattern.len() {
        assert(pattern.contains(pattern[k]));
    }
    assert(pattern.skip(0) =~= pattern);
    let segs = split(pattern, '/');
    assert(segs =~= seq![pattern]);
    assert(pattern.contains(pattern[0]));
    assert("**"@ =~= seq!['*', '*']);
    let step = StepView { pattern, recursive: false, is_last: true };
    reveal_with_fuel(steps_from, 2);
    assert(steps_from(segs, 0) =~= seq![step]);
    let g = GlobView::start(pattern);
    assert(g.settled() == g);
    assert("."@ =~= seq!['.']);
    assert(g.dirs =~= seq![seq!['.']]);
    let n = entries.len() as int;
    let found = selected("."@, pattern, true, entries, n);
    let mid = GlobView {
        steps: g.steps,
        dirs: g.dirs.drop_first() + Seq::<Seq<char>>::empty(),
        found: g.found + found,
    };
    assert(mid.dirs.len() == 0);
    reveal_with_fuel(GlobView::settled, 3);
    assert(g.found + found =~= found);
    let done = g.fed(entries);
    assert(done.dirs == found);
    assert(done.steps.len() == 0);
    lemma_selected_members("."@, pattern, true, entries, n, name);
    assert forall|k: int| 0 <= k < pattern.len() implies (#[trigger] pattern[k]) != LITERAL by {
        assert(pattern.contains(pattern[k]));
    }
    lemma_marked_plain(pattern, 0);
    assert(plain_places(pattern).skip(0) =~= plain_places(pattern));
    assert forall|i: int| 0 <= i < n implies selects(pattern, true, #[trigger] entries[i])
        == is_found(pattern, entries[i]) by {
        let e = entries[i];
        if has_control(e.name@) {
            let j = choose|j: int|
                0 <= j < e.name@.len() && crate::expand::spec_is_control(#[trigger] e.name@[j]);
            assert(!(e.name@[j] as u32 >= 32 && e.name@[j] as u32 != 127));
        } else {
            assert forall|j: int| 0 <= j < e.name@.len() implies (#[trigger] e.name@[j]) as u32
                >= 32 && e.name@[j] as u32 != 127 by {
                assert(!crate::expand::spec_is_control(e.name@[j]));
            }
        }
    }
    if done.dirs.contains(name) {
        let i = choose|i: int|
            0 <= i < n && selects(pattern, true, #[trigger] entries[i]) && name == joined_path(
                "."@,
                entries[i].name@,
            );
        assert(is_found(pattern, entries[i]));
    }
    if exists|i: int|
        0 <= i < n && is_found(pattern, #[trigger] entries[i]) && entries[i].name@ == name {
        let i = choose|i: int|
            0 <= i < n && is_found(pattern, #[trigger] entries[i]) && entries[i].name@ == name;
        assert(selects(pattern, true, entries[i]));
    }
}

/// A path below the current directory is its name alone, one below the root has one slash before
/// it, and any other has a slash between the directory and the name.
pub proof fn law_joined_path(dir: Seq<char>, name: Seq<char>)
    ensures
        joined_path(seq!['.'], name) == name,
        joined_path(seq!['/'], name) == seq!['/'] + name,
        dir != seq!['.'] && dir != seq!['/'] ==> joined_path(dir, name) == dir + seq!['/'] + name,
{
    reveal_strlit(".");
    reveal_strlit("/");
    assert("."@ =~= seq!['.']);
    assert("/"@ =~= seq!['/']);
    assert(seq!['/'][0] != seq!['.'][0]);
}

/// `${NAME#text}` takes a text off the front of the value, and `${NAME%text}` off its end, where
/// it stands there; else the value stays.
pub proof fn law_fixed_part_is_stripped(p: Seq<char>, rest: Seq<char>, other: Seq<char>)
    requires
        is_literal(p),
        p.len() > 0,
    ensures
        prefix_stripped(p + rest, p) == rest,
        suffix_stripped(rest + p, p) == rest,
        other.len() < p.len() || other.take(p.len() as int) != p ==> prefix_stripped(other, p)
            == other,
        other.len() < p.len() || other.skip(other.len() - p.len()) != p ==> suffix_stripped(
            other,
            p,
        ) == other,
{
    assert(p[0] != '*');
    assert(p[p.len() - 1] != '*');
    assert(p != seq!['*']);
    let a = p + rest;
    assert(a.subrange(0, p.len() as int) =~= p);
    assert(a.skip(p.len() as int) =~= rest);
    let b = rest + p;
    assert(b.subrange(b.len() - p.len(), b.len() - p.len() + p.len()) =~= p);
    assert(b.take(b.len() - p.len()) =~= rest);
    if other.len() >= p.len() {
        assert(other.subrange(0, p.len() as int) =~= other.take(p.len() as int));
        assert(other.subrange(other.len() - p.len(), other.len() - p.len() + p.len())
            =~= other.skip(other.len() - p.len()));
    }
}

/// `${NAME#*c}` takes off all up to the first `c`, and `${NAME%c*}` all from the last one on.
pub proof fn law_shortest_part_is_stripped(x: Seq<char>, c: char, y: Seq<char>)
    requires
        c != '*',
    ensures
        !x.contains(c) ==> prefix_stripped(x + seq![c] + y, seq!['*', c]) == y,
        !y.contains(c) ==> suffix_stripped(x + seq![c] + y, seq![c, '*']) == x,
        prefix_stripped(x, seq!['*']).len() == 0,
        suffix_stripped(x, seq!['*']).len() == 0,
{
    let s = x + seq![c] + y;
    let n = x.len() as int;
    assert(s[n] == c);
    if !x.contains(c) {
        let p = seq!['*', c];
        let f = p.skip(1);
        assert(f =~= seq![c]);
        assert(p != seq!['*']) by {
            assert(p.len() == 2);
        }
        assert(s.subrange(n, n + 1) =~= f);
        assert(crate::text::first_occurrence(s, f, n)) by {
            assert forall|k: int| 0 <= k < n implies !#[trigger] crate::text::occurs_at(s, f, k) by {
                if crate::text::occurs_at(s, f, k) {
                    assert(s.subrange(k, k + 1)[0] == s[k]);
                    assert(s[k] == x[k]);
                    assert(x.contains(x[k]));
                }
            }
        }
        let i = choose|i: int| crate::text::first_occurrence(s, f, i);
        assert(i == n);
        assert(s.skip(n + 1) =~= y);
    }
    if !y.contains(c) {
        let p = seq![c, '*'];
        let f = p.drop_last();
        assert(f =~= seq![c]);
        assert(p != seq!['*']) by {
            assert(p.len() == 2);
        }
        assert(s.subrange(n, n + 1) =~= f);
        assert(crate::text::last_occurrence(s, f, n)) by {
            assert forall|k: int| n < k implies !#[trigger] crate::text::occurs_at(s, f, k) by {
                if crate::text::occurs_at(s, f, k) {
                    assert(s.subrange(k, k + 1)[0] == s[k]);
                    assert(s[k] == y[k - n - 1]);
                    assert(y.contains(y[k - n - 1]));
                }
            }
        }
        let i = choose|i: int| crate::text::last_occurrence(s, f, i);
        assert(i == n);
        assert(s.take(n) =~= x);
    }
}

/// `**` before the last part of a pattern looks for that part in every directory below.
pub proof fn law_double_star_goes_below(p: Seq<char>, entries: Seq<DirEntry>, dir: Seq<char>, n: int)
    requires
        p.len() > 0,
        !p.contains('/'),
        0 < n <= entries.len(),
    ensures
        ({
            let g = GlobView::start(seq!['*', '*', '/'] + p);
            &&& g.steps == seq![StepView { pattern: p, recursive: true, is_last: true }]
            &&& g.dirs == seq![seq!['.']]
        }),
        ({
            let e = entries[n - 1];
            let hidden = e.name@.len() > 0 && e.name@[0] == '.';
            &&& e.is_dir && !hidden && !has_control(e.name@) ==> descended(dir, entries, n)
                == descended(dir, entries, n - 1).push(joined_path(dir, e.name@))
            &&& !e.is_dir || hidden ==> descended(dir, entries, n) == descended(
                dir,
                entries,
                n - 1,
            )
        }),
        descended(dir, entries, 0).len() == 0,
{
    reveal_strlit(".");
    reveal_strlit("**");
    let two = seq!['*', '*'];
    assert("."@ =~= seq!['.']);
    assert("**"@ =~= two);
    assert(!two.contains('/'));
    crate::laws::texts::law_split(two, '/', p);
    crate::laws::texts::law_split(p, '/', p);
    let pattern = seq!['*', '*', '/'] + p;
    assert(two + seq!['/'] + p =~= pattern);
    let segs = split(pattern, '/');
    assert(segs =~= seq![two, p]);
    assert(pattern[0] == '*');
    let step = StepView { pattern: p, recursive: true, is_last: true };
    assert(steps_from(segs, 2) =~= Seq::empty());
    assert(seq![step] + Seq::<StepView>::empty() =~= seq![step]);
    assert(steps_from(segs, 0) =~= seq![step]);
    assert(seq!["."@] =~= seq![seq!['.']]);
}

/// A pattern of several parts is matched part by part; one that starts with a slash from the root.
pub proof fn law_parts_of_pattern(p: Seq<char>, q: Seq<char>)
    requires
        p.len() > 0,
        q.len() > 0,
        !p.contains('/'),
        !q.contains('/'),
        p != seq!['*', '*'],
        q != seq!['*', '*'],
    ensures
        ({
            let first = StepView { pattern: p, recursive: false, is_last: false };
            let last = StepView { pattern: q, recursive: false, is_last: true };
            &&& GlobView::start(p + seq!['/'] + q).steps == seq![first, last]
            &&& GlobView::start(p + seq!['/'] + q).dirs == seq![seq!['.']]
            &&& GlobView::start(seq!['/'] + q).steps == seq![last]
            &&& GlobView::start(seq!['/'] + q).dirs == seq![seq!['/']]
        }),
{
    reveal_strlit(".");
    reveal_strlit("/");
    reveal_strlit("**");
    assert("."@ =~= seq!['.']);
    assert("/"@ =~= seq!['/']);
    assert("**"@ =~= seq!['*', '*']);
    let first = StepView { pattern: p, recursive: false, is_last: false };
    let last = StepView { pattern: q, recursive: false, is_last: true };
    let e = Seq::<char>::empty();
    crate::laws::texts::law_split(p, '/', q);
    crate::laws::texts::law_split(q, '/', q);
    crate::laws::texts::law_split(e, '/', q);
    let s = p + seq!['/'] + q;
    let segs = split(s, '/');
    assert(segs =~= seq![p, q]);
    assert(s[0] == p[0]);
    assert(p.contains(p[0]));
    let none = Seq::<StepView>::empty();
    assert(steps_from(segs, 2) =~= none);
    assert(steps_from(segs, 1) =~= seq![last]);
    assert(seq![first] + seq![last] =~= seq![first, last]);
    assert(steps_from(segs, 0) =~= seq![first, last]);
    assert(seq!["."@] =~= seq![seq!['.']]);
    let t = seq!['/'] + q;
    assert(e + seq!['/'] + q =~= t);
    let segt = split(t, '/');
    assert(segt =~= seq![e, q]);
    assert(steps_from(segt, 2) =~= none);
    assert(steps_from(segt, 1) =~= seq![last]);
    assert(seq!["/"@] =~= seq![seq!['/']]);
}

/// What stands behind the name of a variable in braces: a word for one that is not set, a word for
/// one that is, and a pattern that is taken off its front or its end. With a colon an empty variable
/// counts as not set.
pub proof fn law_forms_of_variables(x: Seq<char>, v: Seq<char>)
    requires
        v.len() > 0,
    ensures
        operand_text(seq![':', '-'] + x, Some(v)) == v,
        operand_text(seq![':', '-'] + x, None) == x,
        operand_text(seq![':', '-'] + x, Some(Seq::empty())) == x,
        operand_text(seq!['-'] + x, Some(v)) == v,
        operand_text(seq!['-'] + x, None) == x,
        operand_text(seq!['-'] + x, Some(Seq::empty())) == Seq::<char>::empty(),
        operand_text(seq![':', '+'] + x, Some(v)) == x,
        operand_text(seq![':', '+'] + x, None) == Seq::<char>::empty(),
        operand_text(seq![':', '+'] + x, Some(Seq::empty())) == Seq::<char>::empty(),
        operand_text(seq!['+'] + x, Some(v)) == x,
        operand_text(seq!['+'] + x, None) == Seq::<char>::empty(),
        operand_text(seq!['+'] + x, Some(Seq::empty())) == x,
        operand_text(seq!['#'] + x, Some(v)) == prefix_stripped(v, x),
        operand_text(seq!['%'] + x, Some(v)) == suffix_stripped(v, x),
{
    reveal_strlit(":-");
    reveal_strlit("-");
    reveal_strlit(":+");
    reveal_strlit("+");
    reveal_strlit("#");
    reveal_strlit("%");
    let a = seq![':', '-'] + x;
    assert(a.subrange(0, 2) =~= ":-"@);
    assert(a.skip(2) =~= x);
    lemma_front_is(seq!['-'], x);
    lemma_front_is(seq!['+'], x);
    lemma_front_is(seq!['#'], x);
    lemma_front_is(seq!['%'], x);
    let c = seq![':', '+'] + x;
    assert(c.subrange(0, 2) =~= ":+"@);
    assert(c.subrange(0, 2)[1] == '+' && ":-"@[1] == '-');
    assert(c.subrange(0, 1)[0] == ':' && "-"@[0] == '-');
    assert(c.skip(2) =~= x);
    assert("-"@ =~= seq!['-']);
    assert("+"@ =~= seq!['+']);
    assert("#"@ =~= seq!['#']);
    assert("%"@ =~= seq!['%']);
}

proof fn lemma_front_is(o: Seq<char>, x: Seq<char>)
    requires
        o.len() == 1,
        o[0] != ':',
    ensures
        (o + x).subrange(0, 1) == o,
        (o + x).skip(1) == x,
        !crate::text::starts_with(o + x, ":-"@),
        !crate::text::starts_with(o + x, ":+"@),
        o[0] != '-' ==> !crate::text::starts_with(o + x, "-"@),
        o[0] != '+' ==> !crate::text::starts_with(o + x, "+"@),
        o[0] != '#' ==> !crate::text::starts_with(o + x, "#"@),
{
    reveal_strlit(":-");
    reveal_strlit("-");
    reveal_strlit(":+");
    reveal_strlit("+");
    reveal_strlit("#");
    let s = o + x;
    assert(s.subrange(0, 1) =~= o);
    assert(s.skip(1) =~= x);
    assert(s.subrange(0, 1)[0] == o[0]);
    if s.len() >= 2 {
        assert(s.subrange(0, 2)[0] == o[0]);
    }
    assert(":-"@[0] == ':' && ":+"@[0] == ':' && "-"@[0] == '-' && "+"@[0] == '+' && "#"@[0] == '#');
}

} // verus!
