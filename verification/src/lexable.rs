//! The texts that the shell's lexer can be given.
//!
//! The lexer parses what stands in a substitution while it reads the word that holds it. On
//! some texts that parse does not return: it recurses once per nested construct, and it stops
//! the program where a number follows a compound command, where an arithmetic expansion holds
//! a closing parenthesis too many, and where a backquote in a here-document ends in a
//! backslash. The predicate below leaves those texts out. It looks at characters alone, so it
//! also leaves out a few texts in which such a sequence is only quoted.
use vstd::prelude::*;

use crate::text::chars_of;

verus! {

/// The most places at which a construct that nests may start. Each takes a few stack frames for
/// every function of the lexer and of the parser that it passes through.
pub const MAX_NESTED: usize = 30;

/// The most commands that may be chained. A chain is a tree as deep as it is long.
pub const MAX_CHAINED: usize = 200;

// -- Characters --

pub open spec fn has_at(s: Seq<char>, i: int, c: char) -> bool {
    0 <= i < s.len() && s[i] == c
}

fn test_at(s: &Vec<char>, i: usize, c: char) -> (r: bool)
    ensures
        r == has_at(s@, i as int, c),
{
    i < s.len() && s[i] == c
}

/// `c` right before `i`.
fn test_before(s: &Vec<char>, i: usize, c: char) -> (r: bool)
    ensures
        r == has_at(s@, i - 1, c),
{
    i > 0 && i - 1 < s.len() && s[i - 1] == c
}

pub open spec fn digit(c: char) -> bool {
    '0' <= c <= '9'
}

pub open spec fn quote(c: char) -> bool {
    c == '\'' || c == '"' || c == '\\' || c == '`'
}

fn is_quote(c: char) -> (r: bool)
    ensures
        r == quote(c),
{
    c == '\'' || c == '"' || c == '\\' || c == '`'
}

/// A character at which an unquoted word ends.
pub open spec fn delimiter(c: char) -> bool {
    c == ' ' || c == '\t' || c == '\n' || c == ';' || c == '&' || c == '(' || c == ')' || c == '|'
        || c == '<' || c == '>'
}

fn is_delimiter(c: char) -> (r: bool)
    ensures
        r == delimiter(c),
{
    c == ' ' || c == '\t' || c == '\n' || c == ';' || c == '&' || c == '(' || c == ')' || c == '|'
        || c == '<' || c == '>'
}

/// The part of a text from `i` on starts with a word.
pub open spec fn reads(s: Seq<char>, i: int, w: Seq<char>) -> bool {
    0 <= i && i + w.len() <= s.len() && s.subrange(i, i + w.len()) == w
}

fn test_reads(s: &Vec<char>, i: usize, w: &str) -> (r: bool)
    requires
        i <= s.len(),
    ensures
        r == reads(s@, i as int, w@),
{
    let word = chars_of(w);
    if word.len() > s.len() - i {
        return false;
    }
    let mut k: usize = 0;
    while k < word.len()
        invariant
            k <= word.len(),
            i + word.len() <= s.len(),
            word@ == w@,
            forall|j: int| 0 <= j < k ==> s@[i + j] == word@[j],
        decreases word.len() - k,
    {
        if s[i + k] != word[k] {
            proof {
                if reads(s@, i as int, w@) {
                    assert(s@.subrange(i as int, i + w@.len())[k as int] == w@[k as int]);
                }
            }
            return false;
        }
        k += 1;
    }
    assert(s@.subrange(i as int, i + w@.len()) =~= w@);
    true
}

// -- Nested constructs --

/// A substitution, or an expansion in braces, may start at `i`.
pub open spec fn expands_at(s: Seq<char>, i: int) -> bool {
    ||| has_at(s, i, '`')
    ||| has_at(s, i, '$') && (has_at(s, i + 1, '(') || has_at(s, i + 1, '{') || has_at(
        s,
        i + 1,
        '\\',
    ))
}

/// The text may hold a nested construct.
pub open spec fn expands(s: Seq<char>) -> bool {
    exists|i: int| expands_at(s, i)
}

fn test_expands(s: &Vec<char>) -> (r: bool)
    ensures
        r == expands(s@),
{
    let n = s.len();
    let mut i: usize = 0;
    while i < n
        invariant
            i <= n,
            n == s.len(),
            forall|k: int| k < i ==> !expands_at(s@, k),
        decreases n - i,
    {
        if s[i] == '`' {
            assert(expands_at(s@, i as int));
            return true;
        }
        if s[i] == '$' && (test_at(s, i + 1, '(') || test_at(s, i + 1, '{') || test_at(
            s,
            i + 1,
            '\\',
        )) {
            assert(expands_at(s@, i as int));
            return true;
        }
        i += 1;
    }
    false
}

/// A name behind a tilde may reach up to `i`. The lexer takes all up to a delimiter, a slash or a
/// colon for it, quotes and `$` too.
pub open spec fn behind_tilde(s: Seq<char>, i: int) -> bool
    decreases i,
{
    if i <= 0 || i > s.len() || delimiter(s[i - 1]) || s[i - 1] == '/' || s[i - 1] == ':' {
        false
    } else {
        s[i - 1] == '~' || behind_tilde(s, i - 1)
    }
}

fn test_tilde(s: &Vec<char>, start: usize) -> (r: bool)
    requires
        start <= s.len(),
    ensures
        r == behind_tilde(s@, start as int),
{
    let mut i: usize = start;
    while i > 0 && !(is_delimiter(s[i - 1]) || s[i - 1] == '/' || s[i - 1] == ':')
        invariant
            i <= start <= s.len(),
            behind_tilde(s@, start as int) == behind_tilde(s@, i as int),
        decreases i,
    {
        if s[i - 1] == '~' {
            return true;
        }
        i -= 1;
    }
    false
}

/// A `$` at `i` that is no part of `\$`, of `$$` or of a name behind a tilde.
pub open spec fn dollar_at(s: Seq<char>, i: int) -> bool {
    has_at(s, i, '$') && !has_at(s, i - 1, '\\') && !has_at(s, i - 1, '$') && !behind_tilde(s, i)
}

fn test_dollar(s: &Vec<char>, i: usize) -> (r: bool)
    ensures
        r == dollar_at(s@, i as int),
{
    test_at(s, i, '$') && !test_before(s, i, '\\') && !test_before(s, i, '$') && !test_tilde(s, i)
}

/// A character that neither opens, closes, quotes nor separates.
pub open spec fn quiet(c: char) -> bool {
    !quote(c) && !delimiter(c) && c != '{' && c != '}' && c != '$' && c != '#' || c == ' ' || c
        == '\t'
}

fn is_quiet(c: char) -> (r: bool)
    ensures
        r == quiet(c),
{
    !is_quote(c) && !is_delimiter(c) && c != '{' && c != '}' && c != '$' && c != '#' || c == ' '
        || c == '\t'
}

/// Where the quiet characters from `i` on end.
pub open spec fn quiet_end(s: Seq<char>, i: int) -> int
    decreases s.len() - i,
{
    if 0 <= i < s.len() && quiet(s[i]) {
        quiet_end(s, i + 1)
    } else {
        i
    }
}

fn find_quiet_end(s: &Vec<char>, start: usize) -> (r: usize)
    requires
        start <= s.len(),
    ensures
        r == quiet_end(s@, start as int),
{
    let mut i: usize = start;
    while i < s.len() && is_quiet(s[i])
        invariant
            start <= i <= s.len(),
            quiet_end(s@, start as int) == quiet_end(s@, i as int),
        decreases s.len() - i,
    {
        i += 1;
    }
    i
}

/// A word that starts at `i` and ends where it does.
pub open spec fn word_at(s: Seq<char>, i: int, w: Seq<char>) -> bool {
    let e = i + w.len();
    &&& reads(s, i, w)
    &&& i == 0 || delimiter(s[i - 1]) || s[i - 1] == '`'
    &&& e == s.len() || delimiter(s[e]) || s[e] == '`'
}

fn test_word(s: &Vec<char>, i: usize, w: &str) -> (r: bool)
    requires
        i < s.len(),
    ensures
        r == word_at(s@, i as int, w@),
{
    if !test_reads(s, i, w) {
        return false;
    }
    let e = i + chars_of(w).len();
    (i == 0 || is_delimiter(s[i - 1]) || s[i - 1] == '`') && (e == s.len() || is_delimiter(s[e])
        || s[e] == '`')
}

/// The parenthesis at `i` belongs to a `$(` or to a `$((`.
pub open spec fn expansion_paren_at(s: Seq<char>, i: int) -> bool {
    dollar_at(s, i - 1) || has_at(s, i - 1, '(') && dollar_at(s, i - 2)
}

fn test_expansion_paren(s: &Vec<char>, i: usize) -> (r: bool)
    requires
        i < s.len(),
    ensures
        r == expansion_paren_at(s@, i as int),
{
    i >= 1 && test_dollar(s, i - 1) || i >= 2 && s[i - 1] == '(' && test_dollar(s, i - 2)
}

/// A construct that can hold another one may start at `i`: parentheses, but for an expansion with
/// quiet characters alone, a `${` with more than those, a backquote inside backquotes, or a word
/// that opens a compound command.
pub open spec fn opens_at(s: Seq<char>, i: int) -> bool {
    ||| s[i] == '(' && !(expansion_paren_at(s, i) && has_at(s, quiet_end(s, i + 1), ')'))
    ||| s[i] == '{' && has_at(s, i - 1, '$') && !has_at(s, quiet_end(s, i + 1), '}')
    ||| s[i] == '`' && has_at(s, i - 1, '\\')
    ||| word_at(s, i, "{"@)
    ||| word_at(s, i, "if"@)
    ||| word_at(s, i, "elif"@)
    ||| word_at(s, i, "for"@)
    ||| word_at(s, i, "case"@)
    ||| word_at(s, i, "while"@)
    ||| word_at(s, i, "until"@)
}

fn test_opens(s: &Vec<char>, i: usize) -> (r: bool)
    requires
        i < s.len(),
    ensures
        r == opens_at(s@, i as int),
{
    let c = s[i];
    if c == '(' && !(test_expansion_paren(s, i) && test_at(s, find_quiet_end(s, i + 1), ')')) {
        return true;
    }
    if c == '{' && test_before(s, i, '$') && !test_at(s, find_quiet_end(s, i + 1), '}') {
        return true;
    }
    c == '`' && test_before(s, i, '\\') || test_word(s, i, "{") || test_word(s, i, "if")
        || test_word(s, i, "elif") || test_word(s, i, "for") || test_word(s, i, "case")
        || test_word(s, i, "while") || test_word(s, i, "until")
}

/// How many constructs that can hold another one may start before `i`.
pub open spec fn openers(s: Seq<char>, i: nat) -> nat
    decreases i,
{
    if i == 0 {
        0
    } else {
        openers(s, (i - 1) as nat) + if opens_at(s, i - 1) {
            1nat
        } else {
            0nat
        }
    }
}

fn count_openers(s: &Vec<char>) -> (r: usize)
    ensures
        r == openers(s@, s@.len()),
{
    let mut n: usize = 0;
    let mut i: usize = 0;
    while i < s.len()
        invariant
            n <= i <= s.len(),
            n == openers(s@, i as nat),
        decreases s.len() - i,
    {
        if test_opens(s, i) {
            n += 1;
        }
        i += 1;
    }
    n
}

/// How many characters that chain commands stand before `i`.
pub open spec fn chained(s: Seq<char>, i: nat) -> nat
    decreases i,
{
    if i == 0 {
        0
    } else {
        let c = s[i - 1];
        chained(s, (i - 1) as nat) + if c == ';' || c == '&' || c == '|' || c == '\n' {
            1nat
        } else {
            0nat
        }
    }
}

fn count_chained(s: &Vec<char>) -> (r: usize)
    ensures
        r == chained(s@, s@.len()),
{
    let mut n: usize = 0;
    let mut i: usize = 0;
    while i < s.len()
        invariant
            n <= i <= s.len(),
            n == chained(s@, i as nat),
        decreases s.len() - i,
    {
        let c = s[i];
        if c == ';' || c == '&' || c == '|' || c == '\n' {
            n += 1;
        }
        i += 1;
    }
    n
}

/// A backslash before a line end, which the lexer drops wherever it stands.
pub open spec fn continued(s: Seq<char>) -> bool {
    exists|i: int| has_at(s, i, '\\') && #[trigger] has_at(s, i + 1, '\n')
}

fn test_continued(s: &Vec<char>) -> (r: bool)
    ensures
        r == continued(s@),
{
    let mut i: usize = 0;
    while i < s.len()
        invariant
            i <= s.len(),
            forall|k: int| k < i && has_at(s@, k, '\\') ==> !#[trigger] has_at(s@, k + 1, '\n'),
        decreases s.len() - i,
    {
        if s[i] == '\\' && test_at(s, i + 1, '\n') {
            assert(has_at(s@, i as int, '\\') && has_at(s@, i + 1, '\n'));
            return true;
        }
        i += 1;
    }
    false
}

fn holds(s: &Vec<char>, c: char) -> (r: bool)
    ensures
        r == s@.contains(c),
{
    let mut i: usize = 0;
    while i < s.len()
        invariant
            i <= s.len(),
            forall|k: int| 0 <= k < i ==> s@[k] != c,
        decreases s.len() - i,
    {
        if s[i] == c {
            return true;
        }
        i += 1;
    }
    false
}

// -- Arithmetic --

pub open spec fn arithmetic_at(s: Seq<char>, i: int) -> bool {
    has_at(s, i, '$') && has_at(s, i + 1, '(') && has_at(s, i + 2, '(')
}

/// Where the reading of an arithmetic expansion stands.
pub struct Arithmetic {
    /// Open parentheses.
    pub depth: nat,
    /// How many were open once the outermost `$(` in it had opened; none are outside of one.
    pub inner: nat,
    /// The quote that is open in that `$(`.
    pub quoted: Option<char>,
    /// Whether a `${` is open.
    pub braced: bool,
}

/// From `i` on an arithmetic expansion ends in two closing parentheses before a single one could
/// end it, and holds nothing by which the lexer could pass over a parenthesis: in a `$(` no
/// escape, comment or backquote and no quoted parenthesis, and in a `${` no escape, quote,
/// backquote or parenthesis. Escapes and backquotes do not stand in the same text.
pub open spec fn arithmetic_ends(s: Seq<char>, i: int, a: Arithmetic) -> bool
    decreases s.len() - i,
{
    if i < 0 || i >= s.len() {
        true
    } else if s[i] == '\\' {
        a.inner == 0 && !a.braced && !s.contains('`') && arithmetic_ends(s, i + 1, a)
    } else if s[i] == '`' {
        a.inner == 0 && !a.braced && arithmetic_ends(s, i + 1, a)
    } else if s[i] == '\'' || s[i] == '"' {
        !a.braced && arithmetic_ends(
            s,
            i + 1,
            Arithmetic {
                quoted: if a.inner == 0 {
                    None
                } else if a.quoted is None {
                    Some(s[i])
                } else if a.quoted == Some(s[i]) {
                    None
                } else {
                    a.quoted
                },
                ..a
            },
        )
    } else if s[i] == '#' {
        (a.inner == 0 || has_at(s, i - 1, '{') && has_at(s, i - 2, '$')) && arithmetic_ends(
            s,
            i + 1,
            a,
        )
    } else if s[i] == '{' && has_at(s, i - 1, '$') {
        !a.braced && arithmetic_ends(s, i + 1, Arithmetic { braced: true, ..a })
    } else if s[i] == '}' {
        arithmetic_ends(s, i + 1, Arithmetic { braced: false, ..a })
    } else if s[i] == '(' {
        !a.braced && a.quoted is None && arithmetic_ends(
            s,
            i + 1,
            Arithmetic {
                depth: a.depth + 1,
                inner: if a.inner == 0 && has_at(s, i - 1, '$') && !has_at(s, i + 1, '(') {
                    a.depth + 1
                } else {
                    a.inner
                },
                ..a
            },
        )
    } else if s[i] == ')' {
        !a.braced && a.quoted is None && if a.depth <= 1 {
            a.depth == 1 && has_at(s, i + 1, ')')
        } else {
            arithmetic_ends(
                s,
                i + 1,
                Arithmetic {
                    depth: (a.depth - 1) as nat,
                    inner: if a.inner == a.depth {
                        0
                    } else {
                        a.inner
                    },
                    ..a
                },
            )
        }
    } else {
        arithmetic_ends(s, i + 1, a)
    }
}

/// Behind the two parentheses that open an arithmetic expansion.
pub open spec fn arithmetic_start() -> Arithmetic {
    Arithmetic { depth: 1, inner: 0, quoted: None, braced: false }
}

fn test_arithmetic(s: &Vec<char>, start: usize) -> (r: bool)
    requires
        0 < start <= s.len(),
    ensures
        r == arithmetic_ends(s@, start as int, arithmetic_start()),
{
    let backquoted = holds(s, '`');
    let mut i: usize = start;
    let mut depth: usize = 1;
    let mut inner: usize = 0;
    let mut quoted: Option<char> = None;
    let mut braced = false;
    while i < s.len()
        invariant
            0 < start <= i <= s.len(),
            depth <= i - start + 1,
            backquoted == s@.contains('`'),
            arithmetic_ends(s@, start as int, arithmetic_start()) == arithmetic_ends(
                s@,
                i as int,
                (Arithmetic { depth: depth as nat, inner: inner as nat, quoted, braced }),
            ),
        decreases s.len() - i,
    {
        let c = s[i];
        if c == '\\' {
            if inner != 0 || braced || backquoted {
                return false;
            }
        } else if c == '`' {
            if inner != 0 || braced {
                return false;
            }
        } else if c == '\'' || c == '"' {
            if braced {
                return false;
            }
            if inner == 0 {
                quoted = None;
            } else {
                match quoted {
                    None => {
                        quoted = Some(c);
                    },
                    Some(q) => if q == c {
                        quoted = None;
                    },
                }
            }
        } else if c == '#' {
            if inner != 0 && !(i >= 2 && s[i - 1] == '{' && s[i - 2] == '$') {
                return false;
            }
        } else if c == '{' && test_before(s, i, '$') {
            if braced {
                return false;
            }
            braced = true;
        } else if c == '}' {
            braced = false;
        } else if c == '(' {
            if braced || quoted.is_some() {
                return false;
            }
            depth += 1;
            if inner == 0 && test_before(s, i, '$') && !test_at(s, i + 1, '(') {
                inner = depth;
            }
        } else if c == ')' {
            if braced || quoted.is_some() {
                return false;
            }
            if depth <= 1 {
                return depth == 1 && test_at(s, i + 1, ')');
            }
            if inner == depth {
                inner = 0;
            }
            depth -= 1;
        }
        i += 1;
    }
    true
}

pub open spec fn arithmetic_sound(s: Seq<char>) -> bool {
    forall|i: int| #[trigger] arithmetic_at(s, i) ==> arithmetic_ends(
        s,
        i + 3,
        arithmetic_start(),
    )
}

fn test_arithmetic_sound(s: &Vec<char>) -> (r: bool)
    ensures
        r == arithmetic_sound(s@),
{
    let mut i: usize = 0;
    while i < s.len()
        invariant
            i <= s.len(),
            forall|k: int|
                k < i && #[trigger] arithmetic_at(s@, k) ==> arithmetic_ends(
                    s@,
                    k + 3,
                    arithmetic_start(),
                ),
        decreases s.len() - i,
    {
        if s[i] == '$' && test_at(s, i + 1, '(') && test_at(s, i + 2, '(') {
            assert(arithmetic_at(s@, i as int));
            if !test_arithmetic(s, i + 3) {
                return false;
            }
        }
        i += 1;
    }
    true
}

// -- Numbers behind compound commands --
//
// Behind a compound command a list of redirections is read, each with a number before it or
// none. A number that no redirection follows is given back to the lexer twice.

/// Index after the two parentheses that close an arithmetic expansion with `depth` open
/// parentheses at `i`.
pub open spec fn arithmetic_end(s: Seq<char>, i: int, depth: nat) -> int
    decreases s.len() - i,
{
    if i < 0 || i >= s.len() {
        i
    } else if s[i] == ')' && depth == 1 && has_at(s, i + 1, ')') {
        i + 2
    } else if s[i] == ')' && depth > 0 {
        arithmetic_end(s, i + 1, (depth - 1) as nat)
    } else if s[i] == '(' {
        arithmetic_end(s, i + 1, depth + 1)
    } else {
        arithmetic_end(s, i + 1, depth)
    }
}

proof fn lemma_arithmetic_end(s: Seq<char>, i: int, depth: nat)
    requires
        0 <= i <= s.len(),
    ensures
        i <= arithmetic_end(s, i, depth) <= s.len(),
    decreases s.len() - i,
{
    if i < s.len() {
        if s[i] == ')' && depth == 1 && has_at(s, i + 1, ')') {
        } else if s[i] == ')' && depth > 0 {
            lemma_arithmetic_end(s, i + 1, (depth - 1) as nat);
        } else if s[i] == '(' {
            lemma_arithmetic_end(s, i + 1, depth + 1);
        } else {
            lemma_arithmetic_end(s, i + 1, depth);
        }
    }
}

fn find_arithmetic_end(s: &Vec<char>, start: usize) -> (r: usize)
    requires
        0 < start <= s.len(),
    ensures
        r == arithmetic_end(s@, start as int, 1),
        start <= r <= s.len(),
{
    proof {
        lemma_arithmetic_end(s@, start as int, 1);
    }
    let mut i: usize = start;
    let mut depth: usize = 1;
    while i < s.len()
        invariant
            0 < start <= i <= s.len(),
            depth <= i - start + 1,
            start <= arithmetic_end(s@, start as int, 1) <= s.len(),
            arithmetic_end(s@, start as int, 1) == arithmetic_end(s@, i as int, depth as nat),
        decreases s.len() - i,
    {
        if s[i] == ')' && depth == 1 && test_at(s, i + 1, ')') {
            return i + 2;
        }
        if s[i] == ')' && depth > 0 {
            depth -= 1;
        } else if s[i] == '(' {
            depth += 1;
        }
        i += 1;
    }
    i
}

/// Nothing from `i` up to `e` could end a quotation or a comment, or hold a command.
pub open spec fn clear(s: Seq<char>, i: int, e: int) -> bool {
    forall|k: int|
        i <= k < e ==> !quote(#[trigger] s[k]) && s[k] != '\n' && !(s[k] == '$' && has_at(
            s,
            k + 1,
            '(',
        ))
}

fn test_clear(s: &Vec<char>, from: usize, e: usize) -> (r: bool)
    requires
        from <= e <= s.len(),
    ensures
        r == clear(s@, from as int, e as int),
{
    let mut i: usize = from;
    while i < e
        invariant
            from <= i <= e <= s.len(),
            clear(s@, from as int, i as int),
        decreases e - i,
    {
        if is_quote(s[i]) || s[i] == '\n' || s[i] == '$' && test_at(s, i + 1, '(') {
            return false;
        }
        i += 1;
    }
    true
}

/// The first parenthesis from `i` on that opens no expansion; the end of the text where there is
/// none. An arithmetic expansion is passed over where it holds no command and cannot be the part
/// of a quotation.
pub open spec fn first_plain(s: Seq<char>, i: int) -> int
    decreases s.len() - i,
    via first_plain_decreases
{
    if i < 0 || i >= s.len() {
        s.len() as int
    } else if dollar_at(s, i) && arithmetic_at(s, i) {
        let e = arithmetic_end(s, i + 3, 1);
        first_plain(
            s,
            if clear(s, i + 3, e) {
                e
            } else {
                i + 3
            },
        )
    } else if s[i] == '(' && !dollar_at(s, i - 1) {
        i
    } else {
        first_plain(s, i + 1)
    }
}

#[via_fn]
proof fn first_plain_decreases(s: Seq<char>, i: int) {
    if 0 <= i && i + 3 <= s.len() {
        lemma_arithmetic_end(s, i + 3, 1);
    }
}

fn find_plain(s: &Vec<char>, start: usize) -> (r: usize)
    requires
        start <= s.len(),
    ensures
        r == first_plain(s@, start as int),
{
    let mut i: usize = start;
    while i < s.len()
        invariant
            i <= s.len(),
            first_plain(s@, start as int) == first_plain(s@, i as int),
        decreases s.len() - i,
    {
        if test_dollar(s, i) && test_at(s, i + 1, '(') && test_at(s, i + 2, '(') {
            let e = find_arithmetic_end(s, i + 3);
            if test_clear(s, i + 3, e) {
                i = e;
            } else {
                i += 3;
            }
        } else if s[i] == '(' && !(i > 0 && test_dollar(s, i - 1)) {
            return i;
        } else {
            i += 1;
        }
    }
    s.len()
}

/// Where the first command substitution may start from `i` on; the end of the text where there
/// is none.
pub open spec fn first_command(s: Seq<char>, i: int) -> int
    decreases s.len() - i,
{
    if i < 0 || i >= s.len() {
        s.len() as int
    } else if s[i] == '`' || s[i] == '$' && has_at(s, i + 1, '(') {
        i
    } else {
        first_command(s, i + 1)
    }
}

fn find_command(s: &Vec<char>) -> (r: usize)
    ensures
        r == first_command(s@, 0),
        r <= s.len(),
{
    let mut i: usize = 0;
    while i < s.len()
        invariant
            i <= s.len(),
            first_command(s@, 0) == first_command(s@, i as int),
        decreases s.len() - i,
    {
        if s[i] == '`' || s[i] == '$' && test_at(s, i + 1, '(') {
            return i;
        }
        i += 1;
    }
    s.len()
}

/// A word that stands alone and ends at `i`.
pub open spec fn word_ends_at(s: Seq<char>, i: int, w: Seq<char>) -> bool {
    let start = i + 1 - w.len();
    &&& reads(s, start, w)
    &&& start == 0 || delimiter(s[start - 1])
    &&& i + 1 == s.len() || delimiter(s[i + 1])
}

fn test_word_ends(s: &Vec<char>, i: usize, w: &str) -> (r: bool)
    requires
        i < s.len(),
        w@.len() > 0,
    ensures
        r == word_ends_at(s@, i as int, w@),
{
    let len = chars_of(w).len();
    if len > i + 1 {
        return false;
    }
    let start = i + 1 - len;
    test_reads(s, start, w) && (start == 0 || is_delimiter(s[start - 1])) && (i + 1 == s.len()
        || is_delimiter(s[i + 1]))
}

/// A compound command of a substitution may end at `i`: one that started behind the first
/// command substitution.
pub open spec fn compound_ends_at(s: Seq<char>, i: int) -> bool {
    let start = first_command(s, 0);
    &&& start < i
    &&& {
        ||| has_at(s, i, ')') && first_plain(s, start) < i
        ||| word_ends_at(s, i, "}"@)
        ||| word_ends_at(s, i, "fi"@)
        ||| word_ends_at(s, i, "done"@)
        ||| word_ends_at(s, i, "esac"@)
    }
}

fn test_compound_ends(s: &Vec<char>, i: usize, start: usize, plain: usize) -> (r: bool)
    requires
        i < s.len(),
        start == first_command(s@, 0),
        plain == first_plain(s@, start as int),
    ensures
        r == compound_ends_at(s@, i as int),
{
    proof {
        reveal_strlit("}");
        reveal_strlit("fi");
        reveal_strlit("done");
        reveal_strlit("esac");
    }
    start < i && (s[i] == ')' && plain < i || test_word_ends(s, i, "}") || test_word_ends(
        s,
        i,
        "fi",
    ) || test_word_ends(s, i, "done") || test_word_ends(s, i, "esac"))
}

/// A character that the lexer leaves out of the text of a word: its own mark, or one that stands
/// for a byte of that mark.
pub open spec fn unseen(c: char) -> bool {
    c == '\u{FFFE}' || '\u{E080}' <= c <= '\u{E0FF}'
}

fn is_unseen(c: char) -> (r: bool)
    ensures
        r == unseen(c),
{
    c == '\u{FFFE}' || '\u{E080}' <= c && c <= '\u{E0FF}'
}

/// Index of the last character before `i` that is seen, or -1.
pub open spec fn seen_before(s: Seq<char>, i: int) -> int
    decreases i,
{
    if i <= 0 || i > s.len() {
        -1
    } else if unseen(s[i - 1]) {
        seen_before(s, i - 1)
    } else {
        i - 1
    }
}

/// Where the digits from `i` on end.
pub open spec fn digits_end(s: Seq<char>, i: int) -> int
    decreases s.len() - i,
{
    if 0 <= i < s.len() && (digit(s[i]) || unseen(s[i])) {
        digits_end(s, i + 1)
    } else {
        i
    }
}

/// A number may stand at `i` as a word of its own, with no redirection right behind it. Only
/// substitutions may stand in the word beside it, since they add nothing to its text.
pub open spec fn number_at(s: Seq<char>, i: int) -> bool {
    let b = seen_before(s, i);
    let e = digits_end(s, i);
    &&& 0 <= i < s.len() && digit(s[i])
    &&& has_at(s, b, ' ') || has_at(s, b, '\t') || has_at(s, b, ')') || has_at(s, b, '`')
    &&& e == s.len() || s[e] == '$' || s[e] == '`' || s[e] == '\\' || delimiter(s[e]) && s[e] != '<'
        && s[e] != '>'
}

fn test_number(s: &Vec<char>, i: usize) -> (r: bool)
    requires
        i < s.len(),
    ensures
        r == number_at(s@, i as int),
{
    if !('0' <= s[i] && s[i] <= '9') {
        return false;
    }
    let mut b: usize = i;
    while b > 0 && is_unseen(s[b - 1])
        invariant
            b <= i < s.len(),
            seen_before(s@, i as int) == seen_before(s@, b as int),
        decreases b,
    {
        b -= 1;
    }
    assert(seen_before(s@, b as int) == b - 1);
    let mut e: usize = i;
    while e < s.len() && ('0' <= s[e] && s[e] <= '9' || is_unseen(s[e]))
        invariant
            i <= e <= s.len(),
            digits_end(s@, i as int) == digits_end(s@, e as int),
        decreases s.len() - e,
    {
        e += 1;
    }
    assert(digits_end(s@, e as int) == e);
    (test_before(s, b, ' ') || test_before(s, b, '\t') || test_before(s, b, ')') || test_before(
        s,
        b,
        '`',
    )) && (e == s.len() || s[e] == '$' || s[e] == '`' || s[e] == '\\' || is_delimiter(s[e]) && s[e]
        != '<' && s[e] != '>')
}

/// A list of redirections cannot reach past `i`.
pub open spec fn separator_at(s: Seq<char>, i: int) -> bool {
    s[i] == ';' || s[i] == '\n' || s[i] == '|' && !has_at(s, i - 1, '>')
}

/// A number may follow in the list of redirections that goes on at `i`. While `plain`, nothing
/// was passed by which a separator could be quoted.
pub open spec fn number_follows(s: Seq<char>, i: int, plain: bool) -> bool
    decreases s.len() - i,
{
    if i < 0 || i >= s.len() {
        false
    } else if number_at(s, i) {
        true
    } else if plain && separator_at(s, i) {
        false
    } else {
        number_follows(s, i + 1, plain && !quote(s[i]) && s[i] != '$')
    }
}

fn test_number_follows(s: &Vec<char>, start: usize) -> (r: bool)
    ensures
        r == number_follows(s@, start as int, true),
{
    let mut i: usize = start;
    let mut plain = true;
    while i < s.len()
        invariant
            start <= i,
            number_follows(s@, start as int, true) == number_follows(s@, i as int, plain),
        decreases s.len() - i,
    {
        if test_number(s, i) {
            return true;
        }
        let c = s[i];
        if plain && (c == ';' || c == '\n' || c == '|' && !test_before(s, i, '>')) {
            return false;
        }
        plain = plain && !is_quote(c) && c != '$';
        i += 1;
    }
    false
}

pub open spec fn numbers_sound(s: Seq<char>) -> bool {
    forall|i: int|
        0 <= i < s.len() && #[trigger] compound_ends_at(s, i) ==> !number_follows(s, i + 1, true)
}

fn test_numbers_sound(s: &Vec<char>) -> (r: bool)
    ensures
        r == numbers_sound(s@),
{
    let start = find_command(s);
    let plain = find_plain(s, start);
    let mut i: usize = 0;
    while i < s.len()
        invariant
            i <= s.len(),
            start == first_command(s@, 0),
            plain == first_plain(s@, start as int),
            forall|k: int|
                0 <= k < i && #[trigger] compound_ends_at(s@, k) ==> !number_follows(
                    s@,
                    k + 1,
                    true,
                ),
        decreases s.len() - i,
    {
        if test_compound_ends(s, i, start, plain) && test_number_follows(s, i + 1) {
            assert(compound_ends_at(s@, i as int));
            return false;
        }
        i += 1;
    }
    true
}

// -- Here-documents --

/// A here-document may start at `i`.
pub open spec fn document_at(s: Seq<char>, i: int) -> bool {
    has_at(s, i, '<') && has_at(s, i + 1, '<')
}

pub open spec fn has_document(s: Seq<char>) -> bool {
    exists|i: int| document_at(s, i)
}

fn test_document(s: &Vec<char>) -> (r: bool)
    ensures
        r == has_document(s@),
{
    let mut i: usize = 0;
    while i < s.len()
        invariant
            i <= s.len(),
            forall|k: int| k < i ==> !document_at(s@, k),
        decreases s.len() - i,
    {
        if s[i] == '<' && test_at(s, i + 1, '<') {
            assert(document_at(s@, i as int));
            return true;
        }
        i += 1;
    }
    false
}

// -- The predicate --

/// The shell's lexer can be given the text. A text without substitutions and expansions in
/// braces only has to be short enough for its line and column numbers.
pub open spec fn lexable(s: Seq<char>) -> bool {
    &&& s.len() < u32::MAX
    &&& expands(s) ==> {
        &&& openers(s, s.len()) <= MAX_NESTED
        &&& chained(s, s.len()) <= MAX_CHAINED
        &&& !continued(s)
        &&& !(has_document(s) && s.contains('`') && s.contains('\\'))
        &&& arithmetic_sound(s)
        &&& numbers_sound(s)
    }
}

/// Whether the shell's lexer can be given the text.
pub fn is_lexable(source: &str) -> (r: bool)
    ensures
        r == lexable(source@),
{
    let s = chars_of(source);
    if s.len() >= u32::MAX as usize {
        return false;
    }
    if !test_expands(&s) {
        return true;
    }
    count_openers(&s) <= MAX_NESTED && count_chained(&s) <= MAX_CHAINED && !test_continued(&s) && !(
    test_document(&s) && holds(&s, '`') && holds(&s, '\\')) && test_arithmetic_sound(&s)
        && test_numbers_sound(&s)
}

/// A text without `$` and backquote can be given to the lexer, if its length fits.
pub proof fn law_plain_text_is_lexable(s: Seq<char>)
    requires
        s.len() < u32::MAX,
        !s.contains('$'),
        !s.contains('`'),
    ensures
        lexable(s),
{
    assert(!expands(s)) by {
        if expands(s) {
            let i = choose|i: int| expands_at(s, i);
            assert(s.contains(s[i]));
        }
    }
}

} // verus!
