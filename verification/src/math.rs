//! Arithmetic expressions.
//!
//! Supports: `+`, `-`, `*`, `/`, `%`, `**` (power), parentheses, unary minus,
//! integers and decimals, comparisons (`<`, `>`, `<=`, `>=`, `==`, `!=`).
//!
//! Precedence (low to high): comparison < additive < multiplicative < power < unary.
//!
//! An expression is compiled into operations on a stack of numbers. The caller runs them in
//! order, stops with `DIVISION_BY_ZERO` at a division or remainder by zero, and reports the
//! program's error, if it has one, after the last of them.
use vstd::prelude::*;

use crate::text::{chars_of, substring};

verus! {

/// Reported when a division or remainder has a zero on its right.
pub const DIVISION_BY_ZERO: &'static str = "division by zero";

/// One operation of a compiled expression.
#[derive(Debug)]
pub enum Op {
    /// Pushes the number with this text.
    Num(String),
    /// Negates the top.
    Neg,
    Add,
    Sub,
    Mul,
    Div,
    Rem,
    Pow,
    Lt,
    Gt,
    Le,
    Ge,
    Eq,
    Ne,
}

#[derive(Debug)]
enum Token {
    Num(String),
    Plus,
    Minus,
    Star,
    Slash,
    Percent,
    StarStar,
    LParen,
    RParen,
    Lt,
    Gt,
    Le,
    Ge,
    Eq,
    Ne,
}

/// A compiled expression.
#[derive(Debug)]
pub struct Program {
    pub ops: Vec<Op>,
    /// The syntax error after the operations, if there is one.
    pub error: Option<&'static str>,
}

pub enum OpView {
    Num(Seq<char>),
    Neg,
    Add,
    Sub,
    Mul,
    Div,
    Rem,
    Pow,
    Lt,
    Gt,
    Le,
    Ge,
    Eq,
    Ne,
}

pub enum TokenView {
    Num(Seq<char>),
    Plus,
    Minus,
    Star,
    Slash,
    Percent,
    StarStar,
    LParen,
    RParen,
    Lt,
    Gt,
    Le,
    Ge,
    Eq,
    Ne,
}

impl View for Op {
    type V = OpView;

    open spec fn view(&self) -> OpView {
        match self {
            Op::Num(s) => OpView::Num(s@),
            Op::Neg => OpView::Neg,
            Op::Add => OpView::Add,
            Op::Sub => OpView::Sub,
            Op::Mul => OpView::Mul,
            Op::Div => OpView::Div,
            Op::Rem => OpView::Rem,
            Op::Pow => OpView::Pow,
            Op::Lt => OpView::Lt,
            Op::Gt => OpView::Gt,
            Op::Le => OpView::Le,
            Op::Ge => OpView::Ge,
            Op::Eq => OpView::Eq,
            Op::Ne => OpView::Ne,
        }
    }
}

impl View for Token {
    type V = TokenView;

    closed spec fn view(&self) -> TokenView {
        match self {
            Token::Num(s) => TokenView::Num(s@),
            Token::Plus => TokenView::Plus,
            Token::Minus => TokenView::Minus,
            Token::Star => TokenView::Star,
            Token::Slash => TokenView::Slash,
            Token::Percent => TokenView::Percent,
            Token::StarStar => TokenView::StarStar,
            Token::LParen => TokenView::LParen,
            Token::RParen => TokenView::RParen,
            Token::Lt => TokenView::Lt,
            Token::Gt => TokenView::Gt,
            Token::Le => TokenView::Le,
            Token::Ge => TokenView::Ge,
            Token::Eq => TokenView::Eq,
            Token::Ne => TokenView::Ne,
        }
    }
}

pub open spec fn op_views(v: Seq<Op>) -> Seq<OpView> {
    Seq::new(v.len(), |i: int| v[i]@)
}

spec fn token_views(v: Seq<Token>) -> Seq<TokenView> {
    Seq::new(v.len(), |i: int| v[i]@)
}

// -- Tokens --

pub open spec fn spec_is_digit(c: char) -> bool {
    '0' <= c <= '9'
}

/// Index after the run of digits and points at `i`.
pub open spec fn number_end(s: Seq<char>, i: int) -> int
    decreases s.len() - i,
{
    if 0 <= i < s.len() && (spec_is_digit(s[i]) || s[i] == '.') {
        number_end(s, i + 1)
    } else {
        i
    }
}

/// How often the first `n` characters of `s` hold a point.
pub open spec fn points(s: Seq<char>, n: int) -> int
    decreases n,
{
    if n <= 0 {
        0
    } else {
        points(s, n - 1) + if s[n - 1] == '.' {
            1int
        } else {
            0int
        }
    }
}

/// A run of digits and points is a number when it has a digit and at most one point.
pub open spec fn is_number(s: Seq<char>) -> bool {
    points(s, s.len() as int) <= 1 && points(s, s.len() as int) < s.len()
}

/// The token at `i`, which is not blank, and the index after it.
pub open spec fn token_at(s: Seq<char>, i: int) -> Result<(TokenView, int), Seq<char>> {
    let c = s[i];
    let doubled = i + 1 < s.len() && s[i + 1] == '=';
    if c == '+' {
        Ok((TokenView::Plus, i + 1))
    } else if c == '-' {
        Ok((TokenView::Minus, i + 1))
    } else if c == '*' {
        if i + 1 < s.len() && s[i + 1] == '*' {
            Ok((TokenView::StarStar, i + 2))
        } else {
            Ok((TokenView::Star, i + 1))
        }
    } else if c == '/' {
        Ok((TokenView::Slash, i + 1))
    } else if c == '%' {
        Ok((TokenView::Percent, i + 1))
    } else if c == '(' {
        Ok((TokenView::LParen, i + 1))
    } else if c == ')' {
        Ok((TokenView::RParen, i + 1))
    } else if c == '<' {
        if doubled {
            Ok((TokenView::Le, i + 2))
        } else {
            Ok((TokenView::Lt, i + 1))
        }
    } else if c == '>' {
        if doubled {
            Ok((TokenView::Ge, i + 2))
        } else {
            Ok((TokenView::Gt, i + 1))
        }
    } else if c == '=' {
        if doubled {
            Ok((TokenView::Eq, i + 2))
        } else {
            Err("unexpected '=', did you mean '=='?"@)
        }
    } else if c == '!' {
        if doubled {
            Ok((TokenView::Ne, i + 2))
        } else {
            Err("unexpected '!', did you mean '!='?"@)
        }
    } else if spec_is_digit(c) || c == '.' {
        let text = s.subrange(i, number_end(s, i));
        if is_number(text) {
            Ok((TokenView::Num(text), number_end(s, i)))
        } else {
            Err("invalid number"@)
        }
    } else {
        Err("unexpected character"@)
    }
}

pub proof fn lemma_number_end(s: Seq<char>, i: int)
    requires
        0 <= i <= s.len(),
    ensures
        i <= number_end(s, i) <= s.len(),
        i < s.len() && (spec_is_digit(s[i]) || s[i] == '.') ==> i < number_end(s, i),
    decreases s.len() - i,
{
    if i < s.len() && (spec_is_digit(s[i]) || s[i] == '.') {
        lemma_number_end(s, i + 1);
    }
}

/// The tokens from `i` on; spaces and tabs separate.
pub open spec fn tokens_from(s: Seq<char>, i: int) -> Result<Seq<TokenView>, Seq<char>>
    decreases s.len() - i,
{
    if i < 0 || i >= s.len() {
        Ok(Seq::empty())
    } else if s[i] == ' ' || s[i] == '\t' {
        tokens_from(s, i + 1)
    } else {
        match token_at(s, i) {
            Err(e) => Err(e),
            Ok((t, j)) => {
                proof {
                    lemma_number_end(s, i);
                }
                match tokens_from(s, j) {
                    Err(e) => Err(e),
                    Ok(rest) => Ok(seq![t] + rest),
                }
            },
        }
    }
}

fn is_digit(c: char) -> (r: bool)
    ensures
        r == spec_is_digit(c),
{
    48 <= c as u32 && c as u32 <= 57
}

/// The number at `i` and the index after it.
fn scan_number(s: &Vec<char>, i: usize) -> (r: Result<(Token, usize), &'static str>)
    requires
        i < s.len(),
        spec_is_digit(s@[i as int]) || s@[i as int] == '.',
    ensures
        match token_at(s@, i as int) {
            Ok((t, j)) => r matches Ok((x, k)) && x@ == t && k == j && i < k <= s.len(),
            Err(e) => r matches Err(x) && x@ == e,
        },
{
    proof {
        lemma_number_end(s@, i as int);
    }
    let mut j: usize = i;
    let mut seen: usize = 0;
    while j < s.len() && (is_digit(s[j]) || s[j] == '.')
        invariant
            i <= j <= s.len(),
            number_end(s@, i as int) == number_end(s@, j as int),
            seen <= j - i,
            seen == points(s@.subrange(i as int, j as int), j - i),
        decreases s.len() - j,
    {
        proof {
            lemma_points_prefix(
                s@.subrange(i as int, j as int),
                s@.subrange(i as int, j + 1),
                j - i,
            );
        }
        if s[j] == '.' {
            seen += 1;
        }
        j += 1;
    }
    let text = substring(s, i, j);
    if seen <= 1 && seen < j - i {
        Ok((Token::Num(text), j))
    } else {
        Err("invalid number")
    }
}

proof fn lemma_points_prefix(a: Seq<char>, b: Seq<char>, n: int)
    requires
        0 <= n <= a.len(),
        n <= b.len(),
        forall|k: int| 0 <= k < n ==> a[k] == b[k],
    ensures
        points(a, n) == points(b, n),
    decreases n,
{
    if n > 0 {
        lemma_points_prefix(a, b, n - 1);
    }
}

fn next_token(s: &Vec<char>, i: usize) -> (r: Result<(Token, usize), &'static str>)
    requires
        i < s.len(),
    ensures
        match token_at(s@, i as int) {
            Ok((t, j)) => r matches Ok((x, k)) && x@ == t && k == j && i < k <= s.len(),
            Err(e) => r matches Err(x) && x@ == e,
        },
{
    let c = s[i];
    let doubled = i + 1 < s.len() && s[i + 1] == '=';
    if c == '+' {
        Ok((Token::Plus, i + 1))
    } else if c == '-' {
        Ok((Token::Minus, i + 1))
    } else if c == '*' {
        if i + 1 < s.len() && s[i + 1] == '*' {
            Ok((Token::StarStar, i + 2))
        } else {
            Ok((Token::Star, i + 1))
        }
    } else if c == '/' {
        Ok((Token::Slash, i + 1))
    } else if c == '%' {
        Ok((Token::Percent, i + 1))
    } else if c == '(' {
        Ok((Token::LParen, i + 1))
    } else if c == ')' {
        Ok((Token::RParen, i + 1))
    } else if c == '<' {
        if doubled {
            Ok((Token::Le, i + 2))
        } else {
            Ok((Token::Lt, i + 1))
        }
    } else if c == '>' {
        if doubled {
            Ok((Token::Ge, i + 2))
        } else {
            Ok((Token::Gt, i + 1))
        }
    } else if c == '=' {
        if doubled {
            Ok((Token::Eq, i + 2))
        } else {
            Err("unexpected '=', did you mean '=='?")
        }
    } else if c == '!' {
        if doubled {
            Ok((Token::Ne, i + 2))
        } else {
            Err("unexpected '!', did you mean '!='?")
        }
    } else if is_digit(c) || c == '.' {
        scan_number(s, i)
    } else {
        Err("unexpected character")
    }
}

fn tokenize(expr: &str) -> (r: Result<Vec<Token>, &'static str>)
    ensures
        match tokens_from(expr@, 0) {
            Ok(ts) => r matches Ok(v) && token_views(v@) == ts,
            Err(e) => r matches Err(x) && x@ == e,
        },
{
    let s = chars_of(expr);
    let mut tokens: Vec<Token> = Vec::new();
    let mut i: usize = 0;
    proof {
        if let Ok(ts) = tokens_from(s@, 0) {
            assert(token_views(tokens@) + ts =~= ts);
        }
    }
    while i < s.len()
        invariant
            i <= s.len(),
            s@ == expr@,
            tokens_from(s@, 0) == match tokens_from(s@, i as int) {
                Ok(rest) => Ok(token_views(tokens@) + rest),
                Err(e) => Err(e),
            },
        decreases s.len() - i,
    {
        if s[i] == ' ' || s[i] == '\t' {
            i += 1;
        } else {
            match next_token(&s, i) {
                Ok((t, j)) => {
                    let ghost had = token_views(tokens@);
                    let ghost tv = t@;
                    tokens.push(t);
                    proof {
                        assert(token_views(tokens@) =~= had + seq![tv]);
                        if let Ok(rest) = tokens_from(s@, j as int) {
                            assert(had + (seq![tv] + rest) =~= (had + seq![tv]) + rest);
                        }
                    }
                    i = j;
                },
                Err(e) => {
                    return Err(e);
                },
            }
        }
    }
    assert(token_views(tokens@) + Seq::<TokenView>::empty() =~= token_views(tokens@));
    Ok(tokens)
}

// -- Expressions --

/// The operations read, and the index after them or the error that stops the reading.
pub type Read = (Seq<OpView>, Result<int, Seq<char>>);

/// The levels of precedence, low to high.
pub const COMPARISON: u8 = 0;

pub const ADDITIVE: u8 = 1;

pub const MULTIPLICATIVE: u8 = 2;

pub const POWER: u8 = 3;

pub const UNARY: u8 = 4;

pub const PRIMARY: u8 = 5;

/// The operation of a token that is a left-associative operator of the given level.
pub open spec fn binary_op(t: TokenView, level: u8) -> Option<OpView> {
    if level == COMPARISON {
        match t {
            TokenView::Lt => Some(OpView::Lt),
            TokenView::Gt => Some(OpView::Gt),
            TokenView::Le => Some(OpView::Le),
            TokenView::Ge => Some(OpView::Ge),
            TokenView::Eq => Some(OpView::Eq),
            TokenView::Ne => Some(OpView::Ne),
            _ => None,
        }
    } else if level == ADDITIVE {
        match t {
            TokenView::Plus => Some(OpView::Add),
            TokenView::Minus => Some(OpView::Sub),
            _ => None,
        }
    } else {
        match t {
            TokenView::Star => Some(OpView::Mul),
            TokenView::Slash => Some(OpView::Div),
            TokenView::Percent => Some(OpView::Rem),
            _ => None,
        }
    }
}

/// The expression of the given level at `pos`.
pub open spec fn expr_at(ts: Seq<TokenView>, pos: int, level: u8) -> Read
    decreases ts.len() - pos, 10 - level,
    when 0 <= pos <= ts.len() && level <= PRIMARY
{
    if level <= MULTIPLICATIVE {
        let (ops, r) = expr_at(ts, pos, (level + 1) as u8);
        match r {
            Ok(j) if pos < j <= ts.len() => {
                let (more, end) = operators_at(ts, j, level);
                (ops + more, end)
            },
            _ => (ops, r),
        }
    } else if level == POWER {
        let (ops, r) = expr_at(ts, pos, UNARY);
        match r {
            Ok(j) if pos < j < ts.len() && ts[j] is StarStar => {
                let (more, end) = expr_at(ts, j + 1, POWER);
                (
                    if end is Ok {
                        (ops + more).push(OpView::Pow)
                    } else {
                        ops + more
                    },
                    end,
                )
            },
            _ => (ops, r),
        }
    } else if level == UNARY {
        if pos < ts.len() && ts[pos] is Minus {
            let (ops, r) = expr_at(ts, pos + 1, UNARY);
            (
                if r is Ok {
                    ops.push(OpView::Neg)
                } else {
                    ops
                },
                r,
            )
        } else if pos < ts.len() && ts[pos] is Plus {
            expr_at(ts, pos + 1, UNARY)
        } else {
            expr_at(ts, pos, PRIMARY)
        }
    } else if pos >= ts.len() {
        (Seq::empty(), Err("unexpected end of expression"@))
    } else {
        match ts[pos] {
            TokenView::Num(n) => (seq![OpView::Num(n)], Ok(pos + 1)),
            TokenView::LParen => {
                let (ops, r) = expr_at(ts, pos + 1, COMPARISON);
                match r {
                    Ok(j) => if 0 <= j < ts.len() && ts[j] is RParen {
                        (ops, Ok(j + 1))
                    } else {
                        (ops, Err("unclosed parenthesis"@))
                    },
                    Err(e) => (ops, Err(e)),
                }
            },
            _ => (Seq::empty(), Err("expected number or '('"@)),
        }
    }
}

/// The operators of the given level at `j`, after a left operand, and their right operands.
pub open spec fn operators_at(ts: Seq<TokenView>, j: int, level: u8) -> Read
    decreases ts.len() - j, 11int,
    when 0 <= j <= ts.len() && level <= MULTIPLICATIVE
{
    if j < ts.len() && binary_op(ts[j], level) is Some {
        let (ops, r) = expr_at(ts, j + 1, (level + 1) as u8);
        match r {
            Ok(k) if j + 1 < k <= ts.len() => {
                let (more, end) = operators_at(ts, k, level);
                (ops.push(binary_op(ts[j], level)->0) + more, end)
            },
            _ => (ops, r),
        }
    } else {
        (Seq::empty(), Ok(j))
    }
}

/// An expression takes at least one token, its operators may take none.
pub proof fn lemma_expr_bounds(ts: Seq<TokenView>, pos: int, level: u8)
    requires
        0 <= pos <= ts.len(),
        level <= PRIMARY,
    ensures
        expr_at(ts, pos, level).1 matches Ok(j) ==> pos < j <= ts.len(),
    decreases ts.len() - pos, 10 - level,
{
    if level <= MULTIPLICATIVE {
        lemma_expr_bounds(ts, pos, (level + 1) as u8);
        if let Ok(j) = expr_at(ts, pos, (level + 1) as u8).1 {
            lemma_operators_bounds(ts, j, level);
        }
    } else if level == POWER {
        lemma_expr_bounds(ts, pos, UNARY);
        if let Ok(j) = expr_at(ts, pos, UNARY).1 {
            if j < ts.len() {
                lemma_expr_bounds(ts, j + 1, POWER);
            }
        }
    } else if level == UNARY {
        if pos < ts.len() {
            lemma_expr_bounds(ts, pos + 1, UNARY);
        }
        lemma_expr_bounds(ts, pos, PRIMARY);
    } else if pos < ts.len() {
        lemma_expr_bounds(ts, pos + 1, COMPARISON);
    }
}

pub proof fn lemma_operators_bounds(ts: Seq<TokenView>, j: int, level: u8)
    requires
        0 <= j <= ts.len(),
        level <= MULTIPLICATIVE,
    ensures
        operators_at(ts, j, level).1 matches Ok(k) ==> j <= k <= ts.len(),
    decreases ts.len() - j, 11int,
{
    if j < ts.len() && binary_op(ts[j], level) is Some {
        lemma_expr_bounds(ts, j + 1, (level + 1) as u8);
        if let Ok(k) = expr_at(ts, j + 1, (level + 1) as u8).1 {
            lemma_operators_bounds(ts, k, level);
        }
    }
}

fn operator(t: &Token, level: u8) -> (r: Option<Op>)
    requires
        level <= MULTIPLICATIVE,
    ensures
        match binary_op(t@, level) {
            Some(o) => r matches Some(x) && x@ == o,
            None => r is None,
        },
{
    if level == COMPARISON {
        match t {
            Token::Lt => Some(Op::Lt),
            Token::Gt => Some(Op::Gt),
            Token::Le => Some(Op::Le),
            Token::Ge => Some(Op::Ge),
            Token::Eq => Some(Op::Eq),
            Token::Ne => Some(Op::Ne),
            _ => None,
        }
    } else if level == ADDITIVE {
        match t {
            Token::Plus => Some(Op::Add),
            Token::Minus => Some(Op::Sub),
            _ => None,
        }
    } else {
        match t {
            Token::Star => Some(Op::Mul),
            Token::Slash => Some(Op::Div),
            Token::Percent => Some(Op::Rem),
            _ => None,
        }
    }
}

/// `r` and the operations appended to `old` are what `read` says.
spec fn agrees(
    before: Seq<Op>,
    after: Seq<Op>,
    r: Result<usize, &'static str>,
    read: Read,
    len: nat,
) -> bool {
    &&& op_views(after) == op_views(before) + read.0
    &&& match read.1 {
        Ok(j) => r matches Ok(k) && k == j && k <= len,
        Err(e) => r matches Err(x) && x@ == e,
    }
}

fn push_op(ops: &mut Vec<Op>, op: Op)
    ensures
        op_views(final(ops)@) == op_views(old(ops)@).push(op@),
{
    ops.push(op);
    assert(op_views(ops@) =~= op_views(old(ops)@).push(op@));
}

/// Compiles the left-associative operators of one level and their operands.
fn parse_binary(tokens: &Vec<Token>, pos: usize, level: u8, ops: &mut Vec<Op>) -> (r: Result<
    usize,
    &'static str,
>)
    requires
        pos <= tokens.len(),
        level <= MULTIPLICATIVE,
    ensures
        agrees(
            old(ops)@,
            final(ops)@,
            r,
            expr_at(token_views(tokens@), pos as int, level),
            tokens@.len(),
        ),
    decreases tokens.len() - pos, 10 - level,
{
    let ghost ts = token_views(tokens@);
    let ghost o0 = op_views(ops@);
    proof {
        lemma_expr_bounds(ts, pos as int, (level + 1) as u8);
    }
    let first = if level == MULTIPLICATIVE {
        parse_power(tokens, pos, ops)
    } else {
        parse_binary(tokens, pos, level + 1, ops)
    };
    let mut j: usize = match first {
        Ok(j) => j,
        Err(e) => {
            return Err(e);
        },
    };
    let ghost start = j as int;
    let ghost mut more: Seq<OpView> = Seq::empty();
    let ghost left = expr_at(ts, pos as int, (level + 1) as u8).0;
    proof {
        let (rest, end) = operators_at(ts, start, level);
        assert(more + rest =~= rest);
        assert(op_views(ops@) =~= o0 + (left + more));
    }
    while j < tokens.len()
        invariant
            ts == token_views(tokens@),
            pos < start <= j <= tokens.len(),
            level <= MULTIPLICATIVE,
            op_views(ops@) == o0 + (left + more),
            operators_at(ts, start, level) == ({
                let (rest, end) = operators_at(ts, j as int, level);
                (more + rest, end)
            }),
            expr_at(ts, pos as int, level) == ({
                let (rest, end) = operators_at(ts, start, level);
                (left + rest, end)
            }),
            o0 == op_views(old(ops)@),
        ensures
            operators_at(ts, j as int, level) == (Seq::<OpView>::empty(), Ok::<int, Seq<char>>(
                j as int,
            )),
        decreases tokens.len() - j,
    {
        assert(ts[j as int] == tokens@[j as int]@);
        match operator(&tokens[j], level) {
            None => {
                break;
            },
            Some(op) => {
                let ghost ov = op@;
                proof {
                    lemma_expr_bounds(ts, j + 1, (level + 1) as u8);
                }
                let ghost (sub, sub_end) = expr_at(ts, j + 1, (level + 1) as u8);
                let right = if level == MULTIPLICATIVE {
                    parse_power(tokens, j + 1, ops)
                } else {
                    parse_binary(tokens, j + 1, level + 1, ops)
                };
                match right {
                    Err(e) => {
                        assert(o0 + (left + (more + sub)) =~= (o0 + (left + more)) + sub);
                        return Err(e);
                    },
                    Ok(k) => {
                        push_op(ops, op);
                        proof {
                            let (rest, end) = operators_at(ts, k as int, level);
                            assert(more + (sub.push(ov) + rest) =~= (more + sub.push(ov)) + rest);
                            assert(op_views(ops@) =~= o0 + (left + (more + sub.push(ov))));
                            more = more + sub.push(ov);
                        }
                        j = k;
                    },
                }
            },
        }
    }
    proof {
        assert(more + Seq::<OpView>::empty() =~= more);
    }
    Ok(j)
}

/// Compiles a comparison, the operation of lowest precedence.
fn parse_comparison(tokens: &Vec<Token>, pos: usize, ops: &mut Vec<Op>) -> (r: Result<
    usize,
    &'static str,
>)
    requires
        pos <= tokens.len(),
    ensures
        agrees(
            old(ops)@,
            final(ops)@,
            r,
            expr_at(token_views(tokens@), pos as int, COMPARISON),
            tokens@.len(),
        ),
    decreases tokens.len() - pos, 11int,
{
    parse_binary(tokens, pos, COMPARISON, ops)
}

/// Compiles a power, which is right-associative.
fn parse_power(tokens: &Vec<Token>, pos: usize, ops: &mut Vec<Op>) -> (r: Result<
    usize,
    &'static str,
>)
    requires
        pos <= tokens.len(),
    ensures
        agrees(
            old(ops)@,
            final(ops)@,
            r,
            expr_at(token_views(tokens@), pos as int, POWER),
            tokens@.len(),
        ),
    decreases tokens.len() - pos, 7int,
{
    let ghost ts = token_views(tokens@);
    let ghost o0 = op_views(ops@);
    proof {
        lemma_expr_bounds(ts, pos as int, UNARY);
    }
    match parse_unary(tokens, pos, ops) {
        Err(e) => Err(e),
        Ok(j) => {
            if j < tokens.len() {
                assert(ts[j as int] == tokens@[j as int]@);
                if let Token::StarStar = tokens[j] {
                    let ghost ops1 = expr_at(ts, pos as int, UNARY).0;
                    let ghost more = expr_at(ts, j + 1, POWER).0;
                    let r = parse_power(tokens, j + 1, ops);
                    assert((o0 + ops1) + more =~= o0 + (ops1 + more));
                    if r.is_ok() {
                        push_op(ops, Op::Pow);
                        assert(op_views(ops@) =~= o0 + (ops1 + more).push(OpView::Pow));
                    }
                    return r;
                }
            }
            Ok(j)
        },
    }
}

fn parse_unary(tokens: &Vec<Token>, pos: usize, ops: &mut Vec<Op>) -> (r: Result<
    usize,
    &'static str,
>)
    requires
        pos <= tokens.len(),
    ensures
        agrees(
            old(ops)@,
            final(ops)@,
            r,
            expr_at(token_views(tokens@), pos as int, UNARY),
            tokens@.len(),
        ),
    decreases tokens.len() - pos, 6int,
{
    let ghost ts = token_views(tokens@);
    let ghost o0 = op_views(ops@);
    if pos < tokens.len() {
        assert(ts[pos as int] == tokens@[pos as int]@);
        if let Token::Minus = tokens[pos] {
            let ghost inner = expr_at(ts, pos + 1, UNARY).0;
            let r = parse_unary(tokens, pos + 1, ops);
            if r.is_ok() {
                push_op(ops, Op::Neg);
                assert(op_views(ops@) =~= o0 + inner.push(OpView::Neg));
            }
            return r;
        }
        if let Token::Plus = tokens[pos] {
            return parse_unary(tokens, pos + 1, ops);
        }
    }
    parse_primary(tokens, pos, ops)
}

fn parse_primary(tokens: &Vec<Token>, pos: usize, ops: &mut Vec<Op>) -> (r: Result<
    usize,
    &'static str,
>)
    requires
        pos <= tokens.len(),
    ensures
        agrees(
            old(ops)@,
            final(ops)@,
            r,
            expr_at(token_views(tokens@), pos as int, PRIMARY),
            tokens@.len(),
        ),
    decreases tokens.len() - pos, 5int,
{
    let ghost ts = token_views(tokens@);
    let ghost o0 = op_views(ops@);
    assert(o0 + Seq::<OpView>::empty() =~= o0);
    if pos >= tokens.len() {
        return Err("unexpected end of expression");
    }
    assert(ts[pos as int] == tokens@[pos as int]@);
    match &tokens[pos] {
        Token::Num(n) => {
            push_op(ops, Op::Num(n.clone()));
            assert(op_views(ops@) =~= o0 + seq![OpView::Num(n@)]);
            Ok(pos + 1)
        },
        Token::LParen => {
            match parse_comparison(tokens, pos + 1, ops) {
                Err(e) => Err(e),
                Ok(j) => {
                    if j < tokens.len() {
                        assert(ts[j as int] == tokens@[j as int]@);
                        if let Token::RParen = tokens[j] {
                            return Ok(j + 1);
                        }
                    }
                    Err("unclosed parenthesis")
                },
            }
        },
        _ => Err("expected number or '('"),
    }
}

/// How many of the first `n` tokens open a parenthesis.
pub open spec fn parens(ts: Seq<TokenView>, n: int) -> int
    decreases n,
{
    if n <= 0 {
        0
    } else {
        parens(ts, n - 1) + if ts[n - 1] is LParen {
            1int
        } else {
            0int
        }
    }
}

/// Most parentheses that an expression may open.
pub const MAX_PARENS: usize = 64;

fn count_parens(tokens: &Vec<Token>) -> (r: usize)
    ensures
        r == parens(token_views(tokens@), tokens@.len() as int),
{
    let mut n: usize = 0;
    let mut i: usize = 0;
    while i < tokens.len()
        invariant
            i <= tokens.len(),
            n <= i,
            n == parens(token_views(tokens@), i as int),
        decreases tokens.len() - i,
    {
        assert(token_views(tokens@)[i as int] == tokens@[i as int]@);
        if let Token::LParen = tokens[i] {
            n += 1;
        }
        i += 1;
    }
    n
}

/// What an expression compiles to: an error of its tokens or its nesting stands alone, a
/// syntax error follows the operations before it.
pub open spec fn compiled(s: Seq<char>) -> Result<(Seq<OpView>, Option<Seq<char>>), Seq<char>> {
    match tokens_from(s, 0) {
        Err(e) => Err(e),
        Ok(ts) => if parens(ts, ts.len() as int) > MAX_PARENS {
            Err("expression too deeply nested"@)
        } else {
            let (ops, r) = expr_at(ts, 0, COMPARISON);
            match r {
                Err(e) => Ok((ops, Some(e))),
                Ok(j) => if j < ts.len() {
                    Ok((ops, Some("unexpected token after expression"@)))
                } else {
                    Ok((ops, None))
                },
            }
        },
    }
}

/// Compiles an expression.
pub fn eval(expr: &str) -> (r: Result<Program, &'static str>)
    ensures
        match compiled(expr@) {
            Err(e) => r matches Err(x) && x@ == e,
            Ok((ops, error)) => {
                &&& r matches Ok(p)
                &&& op_views(p.ops@) == ops
                &&& match error {
                    Some(e) => p.error matches Some(x) && x@ == e,
                    None => p.error is None,
                }
            },
        },
{
    let tokens = match tokenize(expr) {
        Ok(t) => t,
        Err(e) => {
            return Err(e);
        },
    };
    if count_parens(&tokens) > MAX_PARENS {
        return Err("expression too deeply nested");
    }
    let mut ops: Vec<Op> = Vec::new();
    assert(op_views(ops@) =~= Seq::empty());
    let r = parse_comparison(&tokens, 0, &mut ops);
    proof {
        let all = expr_at(token_views(tokens@), 0, COMPARISON).0;
        assert(Seq::<OpView>::empty() + all =~= all);
    }
    match r {
        Err(e) => Ok(Program { ops, error: Some(e) }),
        Ok(j) => if j < tokens.len() {
            Ok(Program { ops, error: Some("unexpected token after expression") })
        } else {
            Ok(Program { ops, error: None })
        },
    }
}

// -- Laws --

/// Height of the stack after the first `n` operations, if none of them finds too few numbers.
pub open spec fn height(ops: Seq<OpView>, n: int) -> Option<int>
    decreases n,
{
    if n <= 0 {
        Some(0)
    } else {
        match height(ops, n - 1) {
            None => None,
            Some(h) => match ops[n - 1] {
                OpView::Num(_) => Some(h + 1),
                OpView::Neg => if h >= 1 {
                    Some(h)
                } else {
                    None
                },
                _ => if h >= 2 {
                    Some(h - 1)
                } else {
                    None
                },
            },
        }
    }
}

/// After the operations `head`, the operations `tail` never find too few numbers, and leave
/// `gain` more.
spec fn gains(head: Seq<OpView>, tail: Seq<OpView>, gain: int) -> bool {
    let all = head + tail;
    &&& height(all, all.len() as int) matches Some(h)
    &&& h == height(head, head.len() as int)->0 + gain
}

spec fn runs(head: Seq<OpView>, tail: Seq<OpView>) -> bool {
    height(head + tail, (head + tail).len() as int) is Some && height(
        head + tail,
        (head + tail).len() as int,
    )->0 >= height(head, head.len() as int)->0
}

proof fn lemma_height_prefix(a: Seq<OpView>, b: Seq<OpView>, n: int)
    requires
        0 <= n <= a.len(),
        n <= b.len(),
        forall|k: int| 0 <= k < n ==> a[k] == b[k],
    ensures
        height(a, n) == height(b, n),
    decreases n,
{
    if n > 0 {
        lemma_height_prefix(a, b, n - 1);
    }
}

proof fn lemma_height_push(ops: Seq<OpView>, op: OpView)
    ensures
        height(ops.push(op), ops.len() as int) == height(ops, ops.len() as int),
{
    lemma_height_prefix(ops.push(op), ops, ops.len() as int);
}

proof fn lemma_height_nonnegative(ops: Seq<OpView>, n: int)
    ensures
        height(ops, n) matches Some(h) ==> h >= 0,
    decreases n,
{
    if n > 0 {
        lemma_height_nonnegative(ops, n - 1);
    }
}

proof fn lemma_expr_runs(head: Seq<OpView>, ts: Seq<TokenView>, pos: int, level: u8)
    requires
        0 <= pos <= ts.len(),
        level <= PRIMARY,
        height(head, head.len() as int) is Some,
    ensures
        runs(head, expr_at(ts, pos, level).0),
        expr_at(ts, pos, level).1 is Ok ==> gains(head, expr_at(ts, pos, level).0, 1),
    decreases ts.len() - pos, 10 - level,
{
    lemma_height_nonnegative(head, head.len() as int);
    if level <= MULTIPLICATIVE {
        let (ops, r) = expr_at(ts, pos, (level + 1) as u8);
        lemma_expr_runs(head, ts, pos, (level + 1) as u8);
        lemma_expr_bounds(ts, pos, (level + 1) as u8);
        if let Ok(j) = r {
            lemma_height_nonnegative(head + ops, (head + ops).len() as int);
            lemma_operators_run(head + ops, ts, j, level);
            assert(head + ops + operators_at(ts, j, level).0 =~= head + (ops + operators_at(
                ts,
                j,
                level,
            ).0));
        }
    } else if level == POWER {
        let (ops, r) = expr_at(ts, pos, UNARY);
        lemma_expr_runs(head, ts, pos, UNARY);
        lemma_expr_bounds(ts, pos, UNARY);
        if let Ok(j) = r {
            if j < ts.len() && ts[j] is StarStar {
                let (more, end) = expr_at(ts, j + 1, POWER);
                lemma_expr_runs(head + ops, ts, j + 1, POWER);
                assert(head + ops + more =~= head + (ops + more));
                let all = head + (ops + more);
                lemma_height_push(all, OpView::Pow);
                assert(head + (ops + more).push(OpView::Pow) =~= all.push(OpView::Pow));
                assert(all.push(OpView::Pow)[all.len() as int] == OpView::Pow);
            }
        }
    } else if level == UNARY {
        if pos < ts.len() && (ts[pos] is Minus || ts[pos] is Plus) {
            lemma_expr_runs(head, ts, pos + 1, UNARY);
            let all = head + expr_at(ts, pos + 1, UNARY).0;
            lemma_height_push(all, OpView::Neg);
            assert(head + expr_at(ts, pos + 1, UNARY).0.push(OpView::Neg) =~= all.push(
                OpView::Neg,
            ));
            assert(all.push(OpView::Neg)[all.len() as int] == OpView::Neg);
        } else {
            lemma_expr_runs(head, ts, pos, PRIMARY);
        }
    } else {
        assert(head + Seq::<OpView>::empty() =~= head);
        if pos < ts.len() {
            if let TokenView::Num(n) = ts[pos] {
                lemma_height_push(head, OpView::Num(n));
                assert(head + seq![OpView::Num(n)] =~= head.push(OpView::Num(n)));
                assert(head.push(OpView::Num(n))[head.len() as int] == OpView::Num(n));
            } else if ts[pos] is LParen {
                lemma_expr_runs(head, ts, pos + 1, COMPARISON);
            }
        }
    }
}

proof fn lemma_operators_run(head: Seq<OpView>, ts: Seq<TokenView>, j: int, level: u8)
    requires
        0 <= j <= ts.len(),
        level <= MULTIPLICATIVE,
        height(head, head.len() as int) matches Some(h) && h >= 1,
    ensures
        runs(head, operators_at(ts, j, level).0),
        operators_at(ts, j, level).1 is Ok ==> gains(head, operators_at(ts, j, level).0, 0),
    decreases ts.len() - j, 11int,
{
    assert(head + Seq::<OpView>::empty() =~= head);
    if j < ts.len() && binary_op(ts[j], level) is Some {
        let (ops, r) = expr_at(ts, j + 1, (level + 1) as u8);
        lemma_expr_runs(head, ts, j + 1, (level + 1) as u8);
        lemma_expr_bounds(ts, j + 1, (level + 1) as u8);
        if let Ok(k) = r {
            let op = binary_op(ts[j], level)->0;
            let all = head + ops;
            lemma_height_push(all, op);
            assert(all.push(op)[all.len() as int] == op);
            assert(head + ops.push(op) =~= all.push(op));
            lemma_operators_run(all.push(op), ts, k, level);
            assert(all.push(op) + operators_at(ts, k, level).0 =~= head + (ops.push(op)
                + operators_at(ts, k, level).0));
        }
    }
}

/// The operations of a compiled expression never find too few numbers on the stack, and
/// those of one without an error leave exactly one.
pub proof fn law_program_is_balanced(s: Seq<char>)
    ensures
        compiled(s) matches Ok((ops, error)) ==> height(ops, ops.len() as int) is Some && (error
            is None ==> height(ops, ops.len() as int) == Some(1int)),
{
    if let Ok(ts) = tokens_from(s, 0) {
        let head = Seq::<OpView>::empty();
        lemma_expr_runs(head, ts, 0, COMPARISON);
        let ops = expr_at(ts, 0, COMPARISON).0;
        assert(head + ops =~= ops);
    }
}

} // verus!
