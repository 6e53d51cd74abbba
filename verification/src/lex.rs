//! The words of a command line, as the shell's own lexer splits it.
use vstd::prelude::*;

use crate::lexable::{is_lexable, lexable};
use crate::text::{chars_of, strs, substring, trim_back_from, trimmed_end};

verus! {

/// A token of a command line.
pub enum LexToken {
    /// A word: its text without quotes, whether it holds quoting or an expansion, and the
    /// place of its first character.
    Word { text: String, quoted: bool, offset: usize },
    /// The end of the line.
    End { offset: usize },
    /// An operator or an assignment.
    Operator { offset: usize },
    /// The text cannot be split.
    Failure,
}

pub enum TokenView {
    Word { text: Seq<char>, quoted: bool, offset: nat },
    End { offset: nat },
    Operator { offset: nat },
    Failure,
}

impl View for LexToken {
    type V = TokenView;

    open spec fn view(&self) -> TokenView {
        match self {
            LexToken::Word { text, quoted, offset } => TokenView::Word {
                text: text@,
                quoted: *quoted,
                offset: *offset as nat,
            },
            LexToken::End { offset } => TokenView::End { offset: *offset as nat },
            LexToken::Operator { offset } => TokenView::Operator { offset: *offset as nat },
            LexToken::Failure => TokenView::Failure,
        }
    }
}

/// What call number `n`, counted from zero, of `epsh::lexer::Lexer::next_token` returns for a
/// text when reserved words are not recognised.
pub uninterp spec fn token_at(source: Seq<char>, n: nat) -> TokenView;

/// `epsh::lexer::Lexer::next_token`, called `n + 1` times on a fresh lexer that takes reserved
/// words for words: what the last call returns depends on the text and on `n` alone. The text
/// of a word is that of `epsh::lexer::parts_to_text`, and it is quoted if
/// `epsh::lexer::parts_have_quoting` says so.
///
/// The lexer parses the commands in a substitution. On the texts that `lexable` leaves out
/// that may overflow the stack, push a second token back, or take one from a count of zero.
#[verifier::external_body]
pub(crate) fn nth_token(source: &str, n: usize) -> (r: LexToken)
    requires
        lexable(source@),
    ensures
        r@ == token_at(source@, n as nat),
{
    let mut lex = epsh::lexer::Lexer::new(source);
    lex.recognize_reserved = false;
    for _ in 0..n {
        let _ = lex.next_token();
    }
    match lex.next_token() {
        Ok((epsh::lexer::Token::Word(parts, _), span)) => LexToken::Word {
            text: epsh::lexer::parts_to_text(&parts),
            quoted: epsh::lexer::parts_have_quoting(&parts),
            offset: span.offset,
        },
        Ok((epsh::lexer::Token::Eof, span)) => LexToken::End { offset: span.offset },
        Ok((_, span)) => LexToken::Operator { offset: span.offset },
        Err(_) => LexToken::Failure,
    }
}

// -- Simple commands --

/// A word of a command.
pub struct SimpleWord {
    pub text: String,
    pub quoted: bool,
}

pub struct SimpleView {
    pub text: Seq<char>,
    pub quoted: bool,
}

impl View for SimpleWord {
    type V = SimpleView;

    open spec fn view(&self) -> SimpleView {
        SimpleView { text: self.text@, quoted: self.quoted }
    }
}

pub open spec fn word_views(v: Seq<SimpleWord>) -> Seq<SimpleView> {
    Seq::new(v.len(), |i: int| v[i]@)
}

/// Token `n` of a text. One that the lexer cannot be given cannot be split.
pub open spec fn token_or_failure(source: Seq<char>, n: nat) -> TokenView {
    if lexable(source) {
        token_at(source, n)
    } else {
        TokenView::Failure
    }
}

/// The number of the token at which the text ends, from token `i` on. Each but the last takes at
/// least one character, so there is at most one token more than characters.
pub open spec fn last_token(source: Seq<char>, i: nat) -> nat
    decreases source.len() - i,
{
    if i >= source.len() || token_or_failure(source, i) is End {
        i
    } else {
        last_token(source, i + 1)
    }
}

/// The tokens of a text up to its end.
pub open spec fn tokens(source: Seq<char>) -> Seq<TokenView> {
    Seq::new(last_token(source, 0) + 1, |i: int| token_or_failure(source, i as nat))
}

/// The words from token `i` on, if nothing but words stands before the end.
pub open spec fn words_only(ts: Seq<TokenView>, i: int) -> Option<Seq<SimpleView>>
    decreases ts.len() - i,
{
    if i < 0 || i >= ts.len() {
        None
    } else {
        match ts[i] {
            TokenView::Word { text, quoted, offset } => match words_only(ts, i + 1) {
                Some(rest) => Some(seq![SimpleView { text, quoted }] + rest),
                None => None,
            },
            TokenView::End { offset } => Some(Seq::empty()),
            _ => None,
        }
    }
}

/// The words of a simple command, from its tokens.
pub open spec fn simple_words(ts: Seq<TokenView>) -> Option<Seq<SimpleView>> {
    match words_only(ts, 0) {
        Some(ws) => if ws.len() == 0 {
            None
        } else {
            Some(ws)
        },
        None => None,
    }
}

pub open spec fn token_views(v: Seq<LexToken>) -> Seq<TokenView> {
    Seq::new(v.len(), |i: int| v[i]@)
}

/// The tokens of a text.
pub fn tokens_of(source: &str) -> (r: Vec<LexToken>)
    ensures
        token_views(r@) == tokens(source@),
{
    let n = chars_of(source).len();
    let readable = is_lexable(source);
    let mut out: Vec<LexToken> = Vec::new();
    let mut i: usize = 0;
    loop
        invariant
            i <= n,
            n == source@.len(),
            readable == lexable(source@),
            out.len() == i,
            last_token(source@, 0) == last_token(source@, i as nat),
            forall|k: int|
                0 <= k < i ==> (#[trigger] out@[k])@ == token_or_failure(source@, k as nat),
        decreases n - i,
    {
        let token = if readable {
            nth_token(source, i)
        } else {
            LexToken::Failure
        };
        let ended = matches!(token, LexToken::End { .. });
        out.push(token);
        if i == n || ended {
            assert(token_views(out@) =~= tokens(source@));
            return out;
        }
        i += 1;
    }
}

/// Whether a text starts with a word.
pub fn starts_with_word(source: &str) -> (r: bool)
    ensures
        r == (tokens(source@)[0] is Word),
{
    is_lexable(source) && matches!(nth_token(source, 0), LexToken::Word { .. })
}

/// The words of a simple command.
/// Returns `None` if the line contains operators, redirections, or lexer errors.
pub fn simple_words_of(ts: &Vec<LexToken>) -> (r: Option<Vec<SimpleWord>>)
    ensures
        (match r {
            Some(v) => Some(word_views(v@)),
            None => None,
        }) == simple_words(token_views(ts@)),
{
    let mut out: Vec<SimpleWord> = Vec::new();
    let mut i: usize = 0;
    let ghost tv = token_views(ts@);
    assert(word_views(out@) =~= Seq::empty());
    proof {
        lemma_prepend_none(tv, 0);
    }
    loop
        invariant
            i <= ts.len(),
            tv == token_views(ts@),
            words_only(tv, 0) == prepend(word_views(out@), words_only(tv, i as int)),
        decreases ts.len() - i,
    {
        if i >= ts.len() {
            return None;
        }
        assert(tv[i as int] == ts@[i as int]@);
        match &ts[i] {
            LexToken::Word { text, quoted, offset: _ } => {
                let ghost had = word_views(out@);
                let ghost w = SimpleView { text: text@, quoted: *quoted };
                out.push(SimpleWord { text: text.clone(), quoted: *quoted });
                proof {
                    assert(word_views(out@) =~= had + seq![w]);
                    if words_only(tv, i + 1) is Some {
                        let rest = words_only(tv, i + 1)->0;
                        assert(had + (seq![w] + rest) =~= (had + seq![w]) + rest);
                    }
                }
            },
            LexToken::End { offset: _ } => {
                assert(word_views(out@) + Seq::empty() =~= word_views(out@));
                if out.len() == 0 {
                    return None;
                }
                return Some(out);
            },
            _ => {
                return None;
            },
        }
        i += 1;
    }
}

spec fn prepend(front: Seq<SimpleView>, rest: Option<Seq<SimpleView>>) -> Option<Seq<SimpleView>> {
    match rest {
        Some(r) => Some(front + r),
        None => None,
    }
}

proof fn lemma_prepend_none(ts: Seq<TokenView>, i: int)
    ensures
        words_only(ts, i) == prepend(Seq::empty(), words_only(ts, i)),
{
    if words_only(ts, i) is Some {
        assert(Seq::empty() + words_only(ts, i)->0 =~= words_only(ts, i)->0);
    }
}

/// Parse a command line into shell words only.
/// Returns `None` if the line contains operators, redirections, or lexer errors, and for a line
/// that the lexer cannot be given.
pub fn parse_simple_command_words(line: &str) -> (r: Option<Vec<SimpleWord>>)
    ensures
        (match r {
            Some(v) => Some(word_views(v@)),
            None => None,
        }) == simple_words(tokens(line@)),
{
    let ts = tokens_of(line);
    simple_words_of(&ts)
}

// -- Raw words --

/// The part of a text between two places, which are taken for its end where they are past it.
pub open spec fn between(s: Seq<char>, from: nat, to: nat) -> Seq<char> {
    let b = if to <= s.len() {
        to as int
    } else {
        s.len() as int
    };
    let a = if from <= b {
        from as int
    } else {
        b
    };
    s.subrange(a, b)
}

pub fn slice_between(s: &Vec<char>, from: usize, to: usize) -> (r: Vec<char>)
    ensures
        r@ == between(s@, from as nat, to as nat),
{
    let n = s.len();
    let b = if to <= n {
        to
    } else {
        n
    };
    let a = if from <= b {
        from
    } else {
        b
    };
    chars_of(substring(s, a, b).as_str())
}

/// Where the token stands, or the end of the text if it could not be read.
pub open spec fn place_of(t: TokenView, len: nat) -> nat {
    match t {
        TokenView::Word { text, quoted, offset } => offset,
        TokenView::End { offset } => offset,
        TokenView::Operator { offset } => offset,
        TokenView::Failure => len,
    }
}

/// The words from token `i` on with their quoting: each reaches to where the next token
/// starts. A token that could not be read is passed over once.
pub open spec fn raw_words(s: Seq<char>, ts: Seq<TokenView>, i: int) -> Seq<Seq<char>>
    decreases ts.len() - i,
{
    if i < 0 || i + 1 >= ts.len() {
        Seq::empty()
    } else {
        match ts[i] {
            TokenView::Word { text, quoted, offset } => seq![
                trimmed_end(between(s, offset, place_of(ts[i + 1], s.len()))),
            ] + raw_words(
                s,
                ts,
                if ts[i + 1] is Failure {
                    i + 2
                } else {
                    i + 1
                },
            ),
            _ => Seq::empty(),
        }
    }
}

fn token_place(t: &LexToken, len: usize) -> (r: usize)
    ensures
        r == place_of(t@, len as nat),
{
    match t {
        LexToken::Word { text: _, quoted: _, offset } => *offset,
        LexToken::End { offset } => *offset,
        LexToken::Operator { offset } => *offset,
        LexToken::Failure => len,
    }
}

/// The raw words of a text, from its tokens.
pub fn raw_words_of(source: &str, ts: &Vec<LexToken>) -> (r: Vec<String>)
    ensures
        strs(r@) == raw_words(source@, token_views(ts@), 0),
{
    let s = chars_of(source);
    let n = s.len();
    let mut out: Vec<String> = Vec::new();
    let mut i: usize = 0;
    let ghost tv = token_views(ts@);
    let count = ts.len();
    assert(strs(out@) + raw_words(s@, tv, 0) =~= raw_words(s@, tv, 0));
    while i < count && count - i > 1
        invariant
            i <= count + 1,
            count == ts.len(),
            n == s.len(),
            s@ == source@,
            tv == token_views(ts@),
            raw_words(s@, tv, 0) == strs(out@) + raw_words(s@, tv, i as int),
        decreases count + 1 - i,
    {
        assert(tv[i as int] == ts@[i as int]@);
        assert(tv[i + 1] == ts@[i + 1]@);
        match &ts[i] {
            LexToken::Word { text: _, quoted: _, offset } => {
                let part = slice_between(&s, *offset, token_place(&ts[i + 1], n));
                let len = part.len();
                let k = trim_back_from(&part, len, true);
                assert(part@.take(len as int) =~= part@);
                let word = substring(&part, 0, k);
                let ghost had = strs(out@);
                let ghost wv = word@;
                assert(wv =~= trimmed_end(part@));
                out.push(word);
                let next: usize = match &ts[i + 1] {
                    LexToken::Failure => i + 2,
                    _ => i + 1,
                };
                proof {
                    assert(strs(out@) =~= had + seq![wv]);
                    let rest = raw_words(s@, tv, next as int);
                    assert(had + (seq![wv] + rest) =~= (had + seq![wv]) + rest);
                }
                i = next;
            },
            _ => {
                assert(strs(out@) + Seq::empty() =~= strs(out@));
                return out;
            },
        }
    }
    assert(strs(out@) + Seq::empty() =~= strs(out@));
    out
}

/// Lex a shell fragment into its raw word tokens, preserving quoting and
/// substitutions in the returned strings.
pub fn lex_words(source: &str) -> (r: Vec<String>)
    ensures
        strs(r@) == raw_words(source@, tokens(source@), 0),
{
    let ts = tokens_of(source);
    raw_words_of(source, &ts)
}

// -- Leading words --

/// The texts of the words from token `i` on, up to the first token that is none.
pub open spec fn leading_texts(ts: Seq<TokenView>, i: int) -> Seq<Seq<char>>
    decreases ts.len() - i,
{
    if i < 0 || i >= ts.len() {
        Seq::empty()
    } else {
        match ts[i] {
            TokenView::Word { text, quoted, offset } => seq![text] + leading_texts(ts, i + 1),
            _ => Seq::empty(),
        }
    }
}

/// The texts of the words at the start of a line, from its tokens.
pub fn leading_texts_of(ts: &Vec<LexToken>) -> (r: Vec<String>)
    ensures
        strs(r@) == leading_texts(token_views(ts@), 0),
{
    let mut out: Vec<String> = Vec::new();
    let mut i: usize = 0;
    let ghost tv = token_views(ts@);
    assert(strs(out@) + leading_texts(tv, 0) =~= leading_texts(tv, 0));
    while i < ts.len()
        invariant
            i <= ts.len(),
            tv == token_views(ts@),
            leading_texts(tv, 0) == strs(out@) + leading_texts(tv, i as int),
        decreases ts.len() - i,
    {
        assert(tv[i as int] == ts@[i as int]@);
        match &ts[i] {
            LexToken::Word { text, quoted: _, offset: _ } => {
                let ghost had = strs(out@);
                out.push(text.clone());
                proof {
                    assert(strs(out@) =~= had + seq![text@]);
                    let rest = leading_texts(tv, i + 1);
                    assert(had + (seq![text@] + rest) =~= (had + seq![text@]) + rest);
                }
            },
            _ => {
                assert(strs(out@) + Seq::empty() =~= strs(out@));
                return out;
            },
        }
        i += 1;
    }
    assert(strs(out@) + Seq::empty() =~= strs(out@));
    out
}

/// A text that the lexer cannot be given is no simple command and has no words.
pub proof fn law_unlexable_text_has_no_words(source: Seq<char>)
    requires
        !lexable(source),
    ensures
        simple_words(tokens(source)) is None,
        raw_words(source, tokens(source), 0).len() == 0,
        leading_texts(tokens(source), 0).len() == 0,
{
    assert(tokens(source)[0] is Failure);
}

} // verus!
