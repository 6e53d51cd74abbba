//! How an expression is calculated: which operator comes first.
use vstd::prelude::*;

use crate::math::{
    binary_op, compiled, expr_at, number_end, operators_at, parens, points, spec_is_digit, token_at,
    tokens_from, COMPARISON, MULTIPLICATIVE, OpView, POWER, PRIMARY, TokenView, UNARY,
};

verus! {

/// How an operator is written.
pub open spec fn sign(o: OpView) -> Seq<char> {
    match o {
        OpView::Add => seq!['+'],
        OpView::Sub => seq!['-'],
        OpView::Mul => seq!['*'],
        OpView::Div => seq!['/'],
        OpView::Rem => seq!['%'],
        OpView::Pow => seq!['*', '*'],
        OpView::Lt => seq!['<'],
        OpView::Gt => seq!['>'],
        OpView::Le => seq!['<', '='],
        OpView::Ge => seq!['>', '='],
        OpView::Eq => seq!['=', '='],
        OpView::Ne => seq!['!', '='],
        _ => Seq::empty(),
    }
}

/// How strongly an operator binds: powers most, then products, then sums, then comparisons.
pub open spec fn strength(o: OpView) -> int {
    match o {
        OpView::Pow => 3,
        OpView::Mul | OpView::Div | OpView::Rem => 2,
        OpView::Add | OpView::Sub => 1,
        _ => 0,
    }
}

/// An operator between two numbers.
pub open spec fn is_operator(o: OpView) -> bool {
    !(o is Num) && !(o is Neg)
}

/// A number without a point.
pub open spec fn is_digits(s: Seq<char>) -> bool {
    s.len() > 0 && forall|i: int| 0 <= i < s.len() ==> '0' <= #[trigger] s[i] <= '9'
}

spec fn token_of(o: OpView) -> TokenView {
    match o {
        OpView::Add => TokenView::Plus,
        OpView::Sub => TokenView::Minus,
        OpView::Mul => TokenView::Star,
        OpView::Div => TokenView::Slash,
        OpView::Rem => TokenView::Percent,
        OpView::Pow => TokenView::StarStar,
        OpView::Lt => TokenView::Lt,
        OpView::Gt => TokenView::Gt,
        OpView::Le => TokenView::Le,
        OpView::Ge => TokenView::Ge,
        OpView::Eq => TokenView::Eq,
        _ => TokenView::Ne,
    }
}

proof fn lemma_number_at(pre: Seq<char>, n: Seq<char>, rest: Seq<char>, i: int)
    requires
        is_digits(n),
        0 <= i <= n.len(),
        rest.len() == 0 || !spec_is_digit(rest[0]) && rest[0] != '.',
    ensures
        number_end(pre + n + rest, pre.len() + i) == pre.len() + n.len(),
    decreases n.len() - i,
{
    let s = pre + n + rest;
    let k = pre.len() + i;
    if i < n.len() {
        assert(s[k] == n[i]);
        lemma_number_at(pre, n, rest, i + 1);
    } else if rest.len() > 0 {
        assert(s[k] == rest[0]);
    }
}

proof fn lemma_no_points(n: Seq<char>, k: int)
    requires
        is_digits(n),
        0 <= k <= n.len(),
    ensures
        points(n, k) == 0,
    decreases k,
{
    if k > 0 {
        lemma_no_points(n, k - 1);
        assert('0' <= n[k - 1]);
    }
}

proof fn lemma_number_token(pre: Seq<char>, n: Seq<char>, rest: Seq<char>)
    requires
        is_digits(n),
        rest.len() == 0 || !spec_is_digit(rest[0]) && rest[0] != '.',
    ensures
        token_at(pre + n + rest, pre.len() as int) == Ok::<(TokenView, int), Seq<char>>(
            (TokenView::Num(n), (pre.len() + n.len()) as int),
        ),
        tokens_from(pre + n + rest, pre.len() as int) == (match tokens_from(
            pre + n + rest,
            (pre.len() + n.len()) as int,
        ) {
            Ok(v) => Ok::<Seq<TokenView>, Seq<char>>(seq![TokenView::Num(n)] + v),
            Err(e) => Err(e),
        }),
{
    let s = pre + n + rest;
    let i = pre.len() as int;
    lemma_number_at(pre, n, rest, 0);
    lemma_no_points(n, n.len() as int);
    assert(s[i] == n[0]);
    assert('0' <= n[0] <= '9');
    assert(s.subrange(i, i + n.len()) =~= n);
}

proof fn lemma_sign_token(pre: Seq<char>, o: OpView, rest: Seq<char>)
    requires
        is_operator(o),
        rest.len() > 0,
        rest[0] != '=',
        rest[0] != '*',
    ensures
        token_at(pre + sign(o) + rest, pre.len() as int) == Ok::<(TokenView, int), Seq<char>>(
            (token_of(o), (pre.len() + sign(o).len()) as int),
        ),
        tokens_from(pre + sign(o) + rest, pre.len() as int) == (match tokens_from(
            pre + sign(o) + rest,
            (pre.len() + sign(o).len()) as int,
        ) {
            Ok(v) => Ok::<Seq<TokenView>, Seq<char>>(seq![token_of(o)] + v),
            Err(e) => Err(e),
        }),
        !spec_is_digit(sign(o)[0]) && sign(o)[0] != '.' && sign(o).len() > 0,
{
    let s = pre + sign(o) + rest;
    let i = pre.len() as int;
    assert(s[i] == sign(o)[0]);
    if sign(o).len() == 1 {
        assert(s[i + 1] == rest[0]);
    } else {
        assert(s[i + 1] == sign(o)[1]);
    }
}

proof fn lemma_tokens(a: Seq<char>, o: OpView, b: Seq<char>, p: OpView, c: Seq<char>)
    requires
        is_digits(a),
        is_digits(b),
        is_digits(c),
        is_operator(o),
        is_operator(p),
    ensures
        tokens_from(a + sign(o) + b + sign(p) + c, 0) == Ok::<Seq<TokenView>, Seq<char>>(
            seq![
                TokenView::Num(a),
                token_of(o),
                TokenView::Num(b),
                token_of(p),
                TokenView::Num(c),
            ],
        ),
{
    let e = Seq::<char>::empty();
    let s = a + sign(o) + b + sign(p) + c;
    assert('0' <= b[0] <= '9' && '0' <= c[0] <= '9');
    let r4 = c;
    let r3 = sign(p) + c;
    let r2 = b + r3;
    let r1 = sign(o) + r2;
    assert(sign(o).len() > 0 && sign(p).len() > 0);
    assert(r3[0] == sign(p)[0]);
    assert(r1[0] == sign(o)[0]);
    assert(r2[0] == b[0]);
    let p1 = a;
    let p2 = a + sign(o);
    let p3 = p2 + b;
    let p4 = p3 + sign(p);
    assert(s =~= e + a + r1);
    lemma_sign_token(p1, o, r2);
    assert(s =~= p1 + sign(o) + r2);
    lemma_number_token(e, a, r1);
    assert(s =~= p2 + b + r3);
    lemma_sign_token(p3, p, r4);
    lemma_number_token(p2, b, r3);
    assert(s =~= p3 + sign(p) + r4);
    assert(s =~= p4 + c + e);
    lemma_number_token(p4, c, e);
    assert(tokens_from(s, s.len() as int) == Ok::<Seq<TokenView>, Seq<char>>(Seq::empty()));
    let t5 = seq![TokenView::Num(c)];
    assert(tokens_from(s, p4.len() as int) == Ok::<Seq<TokenView>, Seq<char>>(t5)) by {
        assert(t5 + Seq::<TokenView>::empty() =~= t5);
    }
    let t4 = seq![token_of(p), TokenView::Num(c)];
    assert(seq![token_of(p)] + t5 =~= t4);
    let t3 = seq![TokenView::Num(b), token_of(p), TokenView::Num(c)];
    assert(seq![TokenView::Num(b)] + t4 =~= t3);
    let t2 = seq![token_of(o), TokenView::Num(b), token_of(p), TokenView::Num(c)];
    assert(seq![token_of(o)] + t3 =~= t2);
    assert(seq![TokenView::Num(a)] + t2 =~= seq![
        TokenView::Num(a),
        token_of(o),
        TokenView::Num(b),
        token_of(p),
        TokenView::Num(c),
    ]);
}

/// No operator that binds at least as strongly as `level` stands at `j`.
spec fn ends_level(ts: Seq<TokenView>, j: int, level: int) -> bool {
    j == ts.len() || exists|o: OpView|
        #[trigger] token_of(o) == ts[j] && is_operator(o) && strength(o) < level
}

proof fn lemma_ends(ts: Seq<TokenView>, j: int, level: u8)
    requires
        0 <= j <= ts.len(),
        ends_level(ts, j, level as int),
        level <= MULTIPLICATIVE,
    ensures
        operators_at(ts, j, level) == (Seq::<OpView>::empty(), Ok::<int, Seq<char>>(j)),
{
}

proof fn lemma_operand(ts: Seq<TokenView>, pos: int, n: Seq<char>, level: u8)
    requires
        0 <= pos < ts.len(),
        ts[pos] == TokenView::Num(n),
        ends_level(ts, pos + 1, level as int),
        level <= PRIMARY,
    ensures
        expr_at(ts, pos, level) == (seq![OpView::Num(n)], Ok::<int, Seq<char>>(pos + 1)),
    decreases PRIMARY - level,
{
    if level < PRIMARY {
        lemma_ends_above(ts, pos + 1, level as int, level + 1);
        lemma_operand(ts, pos, n, (level + 1) as u8);
        if level <= MULTIPLICATIVE {
            lemma_ends(ts, pos + 1, level);
            assert(seq![OpView::Num(n)] + Seq::<OpView>::empty() =~= seq![OpView::Num(n)]);
        } else if level == POWER {
            assert(!(pos + 1 < ts.len() && ts[pos + 1] is StarStar));
        }
    }
}

proof fn lemma_ends_above(ts: Seq<TokenView>, j: int, level: int, higher: int)
    requires
        ends_level(ts, j, level),
        level <= higher,
    ensures
        ends_level(ts, j, higher),
{
    if j != ts.len() {
        let o = choose|o: OpView|
            #[trigger] token_of(o) == ts[j] && is_operator(o) && strength(o) < level;
        assert(token_of(o) == ts[j] && strength(o) < higher);
    }
}

proof fn lemma_pair(
    ts: Seq<TokenView>,
    pos: int,
    a: Seq<char>,
    o: OpView,
    b: Seq<char>,
    level: u8,
)
    requires
        0 <= pos,
        pos + 3 <= ts.len(),
        is_operator(o),
        ts[pos] == TokenView::Num(a),
        ts[pos + 1] == token_of(o),
        ts[pos + 2] == TokenView::Num(b),
        level <= strength(o),
        ends_level(ts, pos + 3, level as int),
    ensures
        expr_at(ts, pos, level) == (
            seq![OpView::Num(a), OpView::Num(b), o],
            Ok::<int, Seq<char>>(pos + 3),
        ),
    decreases POWER - level,
{
    let e = Seq::<OpView>::empty();
    let r = seq![OpView::Num(a), OpView::Num(b), o];
    if level < strength(o) {
        lemma_ends_above(ts, pos + 3, level as int, level + 1);
        lemma_pair(ts, pos, a, o, b, (level + 1) as u8);
        lemma_ends(ts, pos + 3, level);
        assert(r + e =~= r);
    } else {
        assert(ends_level(ts, pos + 1, level + 1)) by {
            assert(token_of(o) == ts[pos + 1] && is_operator(o) && strength(o) < level + 1);
        }
        lemma_operand(ts, pos, a, (level + 1) as u8);
        if level == POWER {
            lemma_operand(ts, pos + 2, b, POWER);
            assert((seq![OpView::Num(a)] + seq![OpView::Num(b)]).push(OpView::Pow) =~= r);
        } else {
            lemma_ends_above(ts, pos + 3, level as int, level + 1);
            lemma_operand(ts, pos + 2, b, (level + 1) as u8);
            lemma_ends(ts, pos + 3, level);
            assert(binary_op(ts[pos + 1], level) == Some(o));
            assert(seq![OpView::Num(b)].push(o) + e =~= seq![OpView::Num(b), o]);
            assert(operators_at(ts, pos + 1, level) == (
                seq![OpView::Num(b), o],
                Ok::<int, Seq<char>>(pos + 3),
            ));
            assert(seq![OpView::Num(a)] + seq![OpView::Num(b), o] =~= r);
        }
    }
}

/// What is read at the end of the tokens is read at every weaker level.
proof fn lemma_weaker(ts: Seq<TokenView>, pos: int, ops: Seq<OpView>, high: u8, level: u8)
    requires
        0 <= pos < ts.len(),
        level <= high <= POWER,
        expr_at(ts, pos, high) == (ops, Ok::<int, Seq<char>>(ts.len() as int)),
    ensures
        expr_at(ts, pos, level) == (ops, Ok::<int, Seq<char>>(ts.len() as int)),
    decreases high - level,
{
    if level < high {
        lemma_weaker(ts, pos, ops, high, (level + 1) as u8);
        lemma_ends(ts, ts.len() as int, level);
        assert(ops + Seq::<OpView>::empty() =~= ops);
    }
}

proof fn lemma_three(
    ts: Seq<TokenView>,
    a: Seq<char>,
    o: OpView,
    b: Seq<char>,
    p: OpView,
    c: Seq<char>,
)
    requires
        is_operator(o),
        is_operator(p),
        ts == seq![
            TokenView::Num(a),
            token_of(o),
            TokenView::Num(b),
            token_of(p),
            TokenView::Num(c),
        ],
    ensures
        expr_at(ts, 0, COMPARISON) == (
            if strength(p) > strength(o) || o is Pow && p is Pow {
                seq![OpView::Num(a), OpView::Num(b), OpView::Num(c), p, o]
            } else {
                seq![OpView::Num(a), OpView::Num(b), o, OpView::Num(c), p]
            },
            Ok::<int, Seq<char>>(5),
        ),
{
    let x = strength(o);
    let y = strength(p);
    let e = Seq::<OpView>::empty();
    assert(ends_level(ts, 5, 0) && ends_level(ts, 5, x) && ends_level(ts, 5, y));
    assert(ends_level(ts, 5, x + 1) && ends_level(ts, 5, y + 1));
    assert(token_of(o) == ts[1] && token_of(p) == ts[3]);
    assert(ends_level(ts, 1, x + 1));
    assert(ends_level(ts, 3, y + 1));
    let na = seq![OpView::Num(a)];
    let nb = seq![OpView::Num(b)];
    let nc = seq![OpView::Num(c)];
    if y > x {
        let l = x as u8;
        let m = (x + 1) as u8;
        lemma_operand(ts, 0, a, m);
        lemma_pair(ts, 2, b, p, c, m);
        lemma_ends(ts, 5, l);
        assert(binary_op(ts[1], l) == Some(o));
        let q = seq![OpView::Num(b), OpView::Num(c), p];
        assert(q.push(o) + e =~= q.push(o));
        assert(operators_at(ts, 1, l) == (q.push(o), Ok::<int, Seq<char>>(5)));
        let r = seq![OpView::Num(a), OpView::Num(b), OpView::Num(c), p, o];
        assert(na + q.push(o) =~= r);
        assert(expr_at(ts, 0, l) == (r, Ok::<int, Seq<char>>(5)));
        lemma_weaker(ts, 0, r, l, COMPARISON);
    } else if o is Pow && p is Pow {
        lemma_operand(ts, 0, a, UNARY);
        lemma_pair(ts, 2, b, p, c, POWER);
        let q = seq![OpView::Num(b), OpView::Num(c), p];
        let r = seq![OpView::Num(a), OpView::Num(b), OpView::Num(c), p, o];
        assert((na + q).push(OpView::Pow) =~= r);
        assert(expr_at(ts, 0, POWER) == (r, Ok::<int, Seq<char>>(5)));
        lemma_weaker(ts, 0, r, POWER, COMPARISON);
    } else if y == x {
        let l = x as u8;
        let m = (x + 1) as u8;
        lemma_operand(ts, 0, a, m);
        lemma_operand(ts, 2, b, m);
        lemma_operand(ts, 4, c, m);
        lemma_ends(ts, 5, l);
        assert(binary_op(ts[1], l) == Some(o));
        assert(binary_op(ts[3], l) == Some(p));
        assert(nc.push(p) + e =~= nc.push(p));
        assert(operators_at(ts, 3, l) == (nc.push(p), Ok::<int, Seq<char>>(5)));
        assert(operators_at(ts, 1, l) == (nb.push(o) + nc.push(p), Ok::<int, Seq<char>>(5)));
        let r = seq![OpView::Num(a), OpView::Num(b), o, OpView::Num(c), p];
        assert(na + (nb.push(o) + nc.push(p)) =~= r);
        assert(expr_at(ts, 0, l) == (r, Ok::<int, Seq<char>>(5)));
        lemma_weaker(ts, 0, r, l, COMPARISON);
    } else {
        let l = y as u8;
        let m = (y + 1) as u8;
        lemma_pair(ts, 0, a, o, b, m);
        lemma_operand(ts, 4, c, m);
        lemma_ends(ts, 5, l);
        assert(binary_op(ts[3], l) == Some(p));
        assert(nc.push(p) + e =~= nc.push(p));
        assert(operators_at(ts, 3, l) == (nc.push(p), Ok::<int, Seq<char>>(5)));
        let q = seq![OpView::Num(a), OpView::Num(b), o];
        let r = seq![OpView::Num(a), OpView::Num(b), o, OpView::Num(c), p];
        assert(q + nc.push(p) =~= r);
        assert(expr_at(ts, 0, l) == (r, Ok::<int, Seq<char>>(5)));
        lemma_weaker(ts, 0, r, l, COMPARISON);
    }
}

/// Of two operators the one that binds more strongly is applied first, and of two that bind
/// equally the left one, but for powers, of which the right one is.
pub proof fn law_stronger_operators_come_first(
    a: Seq<char>,
    o: OpView,
    b: Seq<char>,
    p: OpView,
    c: Seq<char>,
)
    requires
        is_digits(a),
        is_digits(b),
        is_digits(c),
        is_operator(o),
        is_operator(p),
    ensures
        compiled(a + sign(o) + b + sign(p) + c) == Ok::<
            (Seq<OpView>, Option<Seq<char>>),
            Seq<char>,
        >(
            (
                if strength(p) > strength(o) || o is Pow && p is Pow {
                    seq![OpView::Num(a), OpView::Num(b), OpView::Num(c), p, o]
                } else {
                    seq![OpView::Num(a), OpView::Num(b), o, OpView::Num(c), p]
                },
                None,
            ),
        ),
{
    lemma_tokens(a, o, b, p, c);
    let ts = seq![
        TokenView::Num(a),
        token_of(o),
        TokenView::Num(b),
        token_of(p),
        TokenView::Num(c),
    ];
    lemma_three(ts, a, o, b, p, c);
    reveal_with_fuel(parens, 7);
    assert(parens(ts, 5) == 0);
}

/// What stands in parentheses is one operand, and a minus before an operand negates it.
pub proof fn law_parentheses_and_signs(
    ts: Seq<TokenView>,
    pos: int,
    ops: Seq<OpView>,
    j: int,
)
    requires
        0 <= pos < ts.len(),
        pos < j,
    ensures
        ts[pos] is LParen && j < ts.len() && ts[j] is RParen && expr_at(ts, pos + 1, COMPARISON)
            == (ops, Ok::<int, Seq<char>>(j)) ==> expr_at(ts, pos, PRIMARY) == (
            ops,
            Ok::<int, Seq<char>>(j + 1),
        ),
        ts[pos] is Minus && expr_at(ts, pos + 1, UNARY) == (ops, Ok::<int, Seq<char>>(j))
            ==> expr_at(ts, pos, UNARY) == (ops.push(OpView::Neg), Ok::<int, Seq<char>>(j)),
        ts[pos] is Plus ==> expr_at(ts, pos, UNARY) == expr_at(ts, pos + 1, UNARY),
{
}

} // verus!
