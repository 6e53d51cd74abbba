//! The command line grammar: words with quoting, redirections, pipelines and the
//! connectors between them.
use vstd::prelude::*;

use crate::error::{Error, ErrorView};
use crate::text::{chars_of, string_of, strs, trim_back, trim_back_from};

verus! {

/// Internal literal marker: a character after this one is not expanded.
pub const LITERAL: char = '\x00';

#[derive(Debug, Clone)]
pub struct CommandLine {
    pub segments: Vec<(Pipeline, Option<Connector>)>,
}

#[derive(Debug, Clone)]
pub struct Pipeline {
    pub commands: Vec<PipedCommand>,
}

#[derive(Debug, Clone)]
pub struct PipedCommand {
    pub cmd: Command,
    pub pipe_stderr: bool,
}

#[derive(Debug, Clone)]
pub struct Command {
    pub argv: Vec<String>,
    pub redirects: Vec<Redirect>,
}

#[derive(Debug, Clone)]
pub struct Redirect {
    pub kind: RedirectKind,
    pub target: String,
}

#[derive(Debug, Clone, Copy, PartialEq, Eq, Structural)]
pub enum RedirectKind {
    /// `>`
    Out,
    /// `>>`
    Append,
    /// `<`
    In,
    /// `2>`
    Stderr,
    /// `&>`
    All,
}

#[derive(Debug, Clone, Copy, PartialEq, Eq, Structural)]
pub enum Connector {
    And,
    Or,
    Semi,
}

#[derive(Debug)]
enum Token {
    Word(String),
    Pipe,
    PipeStderr,
    And,
    Or,
    Semi,
    Redirect(RedirectKind),
}

// -- What the types hold --

pub enum TokenView {
    Word(Seq<char>),
    Pipe,
    PipeStderr,
    And,
    Or,
    Semi,
    Redirect(RedirectKind),
}

#[verifier::ext_equal]
pub struct CommandView {
    pub argv: Seq<Seq<char>>,
    pub redirects: Seq<(RedirectKind, Seq<char>)>,
}

#[verifier::ext_equal]
pub struct PipedView {
    pub cmd: CommandView,
    pub pipe_stderr: bool,
}

pub type PipelineView = Seq<PipedView>;

pub type LineView = Seq<(PipelineView, Option<Connector>)>;

impl View for Token {
    type V = TokenView;

    closed spec fn view(&self) -> TokenView {
        match self {
            Token::Word(w) => TokenView::Word(w@),
            Token::Pipe => TokenView::Pipe,
            Token::PipeStderr => TokenView::PipeStderr,
            Token::And => TokenView::And,
            Token::Or => TokenView::Or,
            Token::Semi => TokenView::Semi,
            Token::Redirect(k) => TokenView::Redirect(*k),
        }
    }
}

impl View for Command {
    type V = CommandView;

    open spec fn view(&self) -> CommandView {
        CommandView {
            argv: strs(self.argv@),
            redirects: Seq::new(
                self.redirects@.len(),
                |i: int| (self.redirects@[i].kind, self.redirects@[i].target@),
            ),
        }
    }
}

impl View for PipedCommand {
    type V = PipedView;

    open spec fn view(&self) -> PipedView {
        PipedView { cmd: self.cmd@, pipe_stderr: self.pipe_stderr }
    }
}

impl View for Pipeline {
    type V = PipelineView;

    open spec fn view(&self) -> PipelineView {
        Seq::new(self.commands@.len(), |i: int| self.commands@[i]@)
    }
}

impl View for CommandLine {
    type V = LineView;

    open spec fn view(&self) -> LineView {
        Seq::new(
            self.segments@.len(),
            |i: int| (self.segments@[i].0@, self.segments@[i].1),
        )
    }
}

spec fn token_views(ts: Seq<Token>) -> Seq<TokenView> {
    Seq::new(ts.len(), |i: int| ts[i]@)
}

// -- Words --

pub open spec fn spec_is_blank(c: char) -> bool {
    c == ' ' || c == '\t' || c == '\n'
}

/// The characters that end an unquoted word.
pub open spec fn spec_is_meta(c: char) -> bool {
    spec_is_blank(c) || c == '|' || c == '&' || c == '>' || c == '<' || c == ';' || c == '#'
}

/// The characters that some expansion looks at.
pub open spec fn spec_is_expandable(c: char) -> bool {
    c == '$' || c == '`' || spec_is_glob_or_tilde(c)
}

pub open spec fn spec_is_glob_or_tilde(c: char) -> bool {
    c == '*' || c == '?' || c == '[' || c == '~'
}

/// The characters that a backslash escapes inside double quotes.
pub open spec fn spec_is_double_escapable(c: char) -> bool {
    c == '$' || c == '"' || c == '\\' || c == '`'
}

/// A character, with the marker before it where `marked`.
pub open spec fn mark(c: char, marked: bool) -> Seq<char> {
    if marked {
        seq![LITERAL, c]
    } else {
        seq![c]
    }
}

/// What a scanner at some place returns, with `head` read before that place.
pub open spec fn after_reading(
    head: Seq<char>,
    r: Result<(Seq<char>, int), ErrorView>,
) -> Result<(Seq<char>, int), ErrorView> {
    match r {
        Ok((w, j)) => Ok((head + w, j)),
        Err(e) => Err(e),
    }
}

/// Text of a single-quoted part that is open at `i`, and the index after its closing quote.
pub open spec fn single_quoted(s: Seq<char>, i: int) -> Result<(Seq<char>, int), ErrorView>
    decreases s.len() - i,
{
    if i < 0 || i >= s.len() {
        Err(ErrorView::Msg("unclosed single quote"@))
    } else if s[i] == '\'' {
        Ok((Seq::empty(), i + 1))
    } else {
        after_reading(mark(s[i], spec_is_expandable(s[i])), single_quoted(s, i + 1))
    }
}

/// Text of a double-quoted part that is open at `i`, and the index after its closing quote.
pub open spec fn double_quoted(s: Seq<char>, i: int) -> Result<(Seq<char>, int), ErrorView>
    decreases s.len() - i,
{
    if i < 0 || i >= s.len() {
        Err(ErrorView::Msg("unclosed double quote"@))
    } else if s[i] == '"' {
        Ok((Seq::empty(), i + 1))
    } else if s[i] == '\\' && i + 1 < s.len() {
        if spec_is_double_escapable(s[i + 1]) {
            after_reading(mark(s[i + 1], true), double_quoted(s, i + 2))
        } else {
            after_reading(mark('\\', true), double_quoted(s, i + 1))
        }
    } else {
        after_reading(mark(s[i], spec_is_glob_or_tilde(s[i])), double_quoted(s, i + 1))
    }
}

pub proof fn lemma_quoted_bounds(s: Seq<char>, i: int)
    requires
        0 <= i,
    ensures
        single_quoted(s, i) matches Ok((w, j)) ==> i < j <= s.len(),
        double_quoted(s, i) matches Ok((w, j)) ==> i < j <= s.len(),
    decreases s.len() - i,
{
    if i < s.len() {
        lemma_quoted_bounds(s, i + 1);
        if i + 1 < s.len() {
            lemma_quoted_bounds(s, i + 2);
        }
    }
}

/// The word that starts at `i`, with its quoting resolved into markers, and the index
/// after it. A backslash that ends the input stands for itself.
pub open spec fn word_at(s: Seq<char>, i: int) -> Result<(Seq<char>, int), ErrorView>
    decreases s.len() - i,
{
    if i < 0 || i >= s.len() || spec_is_meta(s[i]) {
        Ok((Seq::empty(), i))
    } else if s[i] == '\'' {
        match single_quoted(s, i + 1) {
            Err(e) => Err(e),
            Ok((w, j)) => {
                proof {
                    lemma_quoted_bounds(s, i + 1);
                }
                after_reading(w, word_at(s, j))
            },
        }
    } else if s[i] == '"' {
        match double_quoted(s, i + 1) {
            Err(e) => Err(e),
            Ok((w, j)) => {
                proof {
                    lemma_quoted_bounds(s, i + 1);
                }
                after_reading(w, word_at(s, j))
            },
        }
    } else if s[i] == '\\' && i + 1 < s.len() {
        after_reading(mark(s[i + 1], true), word_at(s, i + 2))
    } else {
        after_reading(seq![s[i]], word_at(s, i + 1))
    }
}

pub proof fn lemma_word_bounds(s: Seq<char>, i: int)
    requires
        0 <= i <= s.len(),
    ensures
        word_at(s, i) matches Ok((w, j)) ==> i <= j <= s.len() && (i < s.len() && !spec_is_meta(
            s[i],
        ) ==> i < j),
    decreases s.len() - i,
{
    if i < s.len() && !spec_is_meta(s[i]) {
        lemma_quoted_bounds(s, i + 1);
        if s[i] == '\'' {
            if let Ok((w, j)) = single_quoted(s, i + 1) {
                lemma_word_bounds(s, j);
            }
        } else if s[i] == '"' {
            if let Ok((w, j)) = double_quoted(s, i + 1) {
                lemma_word_bounds(s, j);
            }
        } else if s[i] == '\\' && i + 1 < s.len() {
            lemma_word_bounds(s, i + 2);
        } else {
            lemma_word_bounds(s, i + 1);
        }
    }
}

proof fn lemma_after_reading(a: Seq<char>, b: Seq<char>, r: Result<(Seq<char>, int), ErrorView>)
    ensures
        after_reading(a, after_reading(b, r)) == after_reading(a + b, r),
{
    if let Ok((w, j)) = r {
        assert(a + (b + w) =~= (a + b) + w);
    }
}

// -- Tokens --

/// The operator or word at `i`, which is neither blank nor a comment, and the index after it.
pub open spec fn token_at(s: Seq<char>, i: int) -> Result<(TokenView, int), ErrorView> {
    let next = if i + 1 < s.len() {
        s[i + 1]
    } else {
        LITERAL
    };
    let third = if i + 2 < s.len() {
        s[i + 2]
    } else {
        LITERAL
    };
    if s[i] == '|' {
        if next == '|' {
            Ok((TokenView::Or, i + 2))
        } else if next == '&' && third != '|' && third != '>' && third != '&' {
            Ok((TokenView::PipeStderr, i + 2))
        } else {
            Ok((TokenView::Pipe, i + 1))
        }
    } else if s[i] == '&' {
        if next == '|' {
            Ok((TokenView::PipeStderr, i + 2))
        } else if next == '>' {
            Ok((TokenView::Redirect(RedirectKind::All), i + 2))
        } else if next == '&' {
            Ok((TokenView::And, i + 2))
        } else {
            Err(ErrorView::Msg("background (&) not supported"@))
        }
    } else if s[i] == '>' {
        if next == '>' {
            Ok((TokenView::Redirect(RedirectKind::Append), i + 2))
        } else {
            Ok((TokenView::Redirect(RedirectKind::Out), i + 1))
        }
    } else if s[i] == '<' {
        Ok((TokenView::Redirect(RedirectKind::In), i + 1))
    } else if s[i] == ';' {
        Ok((TokenView::Semi, i + 1))
    } else if s[i] == '2' && next == '>' {
        Ok((TokenView::Redirect(RedirectKind::Stderr), i + 2))
    } else {
        match word_at(s, i) {
            Ok((w, j)) => Ok((TokenView::Word(w), j)),
            Err(e) => Err(e),
        }
    }
}

/// The tokens from `i` on: blanks separate, `#` starts a comment.
pub open spec fn tokens_from(s: Seq<char>, i: int) -> Result<Seq<TokenView>, ErrorView>
    decreases s.len() - i,
{
    if i < 0 || i >= s.len() || s[i] == '#' {
        Ok(Seq::empty())
    } else if spec_is_blank(s[i]) {
        tokens_from(s, i + 1)
    } else {
        match token_at(s, i) {
            Err(e) => Err(e),
            Ok((t, j)) => {
                proof {
                    lemma_word_bounds(s, i);
                }
                match tokens_from(s, j) {
                    Err(e) => Err(e),
                    Ok(rest) => Ok(seq![t] + rest),
                }
            },
        }
    }
}

spec fn after_tokens(
    head: Seq<TokenView>,
    r: Result<Seq<TokenView>, ErrorView>,
) -> Result<Seq<TokenView>, ErrorView> {
    match r {
        Ok(rest) => Ok(head + rest),
        Err(e) => Err(e),
    }
}

fn is_meta(c: char) -> (r: bool)
    ensures
        r == spec_is_meta(c),
{
    c == ' ' || c == '\t' || c == '\n' || c == '|' || c == '&' || c == '>' || c == '<' || c == ';'
        || c == '#'
}

fn is_expandable(c: char) -> (r: bool)
    ensures
        r == spec_is_expandable(c),
{
    c == '$' || c == '`' || is_glob_or_tilde(c)
}

fn is_glob_or_tilde(c: char) -> (r: bool)
    ensures
        r == spec_is_glob_or_tilde(c),
{
    c == '*' || c == '?' || c == '[' || c == '~'
}

/// The view of a scanner's result.
spec fn scan_view(r: Result<(String, usize), Error>) -> Result<(Seq<char>, int), ErrorView> {
    match r {
        Ok((w, j)) => Ok((w@, j as int)),
        Err(e) => Err(e@),
    }
}

/// Reads a single-quoted part into `word`; returns the index after its closing quote.
fn scan_single(s: &Vec<char>, start: usize, word: &mut Vec<char>) -> (r: Result<usize, Error>)
    requires
        start <= s.len(),
    ensures
        match single_quoted(s@, start as int) {
            Ok((w, j)) => r matches Ok(k) && k == j && k <= s.len() && final(word)@ == old(word)@
                + w,
            Err(e) => r matches Err(x) && x@ == e,
        },
{
    let mut i: usize = start;
    let ghost mut got: Seq<char> = Seq::empty();
    proof {
        assert(after_reading(got, single_quoted(s@, start as int)) == single_quoted(
            s@,
            start as int,
        )) by {
            if let Ok((w, j)) = single_quoted(s@, start as int) {
                assert(got + w =~= w);
            }
        }
    }
    while i < s.len() && s[i] != '\''
        invariant
            start <= i <= s.len(),
            word@ == old(word)@ + got,
            single_quoted(s@, start as int) == after_reading(got, single_quoted(s@, i as int)),
        decreases s.len() - i,
    {
        proof {
            let m = mark(s@[i as int], spec_is_expandable(s@[i as int]));
            lemma_after_reading(got, m, single_quoted(s@, i + 1));
            got = got + m;
        }
        if is_expandable(s[i]) {
            word.push(LITERAL);
        }
        word.push(s[i]);
        i += 1;
        assert(word@ =~= old(word)@ + got);
    }
    if i >= s.len() {
        return Err(Error::msg("unclosed single quote"));
    }
    assert(got + Seq::<char>::empty() =~= got);
    Ok(i + 1)
}

/// Reads a double-quoted part into `word`; returns the index after its closing quote.
fn scan_double(s: &Vec<char>, start: usize, word: &mut Vec<char>) -> (r: Result<usize, Error>)
    requires
        start <= s.len(),
    ensures
        match double_quoted(s@, start as int) {
            Ok((w, j)) => r matches Ok(k) && k == j && k <= s.len() && final(word)@ == old(word)@
                + w,
            Err(e) => r matches Err(x) && x@ == e,
        },
{
    let mut i: usize = start;
    let ghost mut got: Seq<char> = Seq::empty();
    proof {
        assert(after_reading(got, double_quoted(s@, start as int)) == double_quoted(
            s@,
            start as int,
        )) by {
            if let Ok((w, j)) = double_quoted(s@, start as int) {
                assert(got + w =~= w);
            }
        }
    }
    while i < s.len() && s[i] != '"'
        invariant
            start <= i <= s.len(),
            word@ == old(word)@ + got,
            double_quoted(s@, start as int) == after_reading(got, double_quoted(s@, i as int)),
        decreases s.len() - i,
    {
        if s[i] == '\\' && i + 1 < s.len() {
            let next = s[i + 1];
            word.push(LITERAL);
            if next == '$' || next == '"' || next == '\\' || next == '`' {
                proof {
                    let m = mark(next, true);
                    lemma_after_reading(got, m, double_quoted(s@, i + 2));
                    got = got + m;
                }
                word.push(next);
                i += 2;
            } else {
                proof {
                    let m = mark('\\', true);
                    lemma_after_reading(got, m, double_quoted(s@, i + 1));
                    got = got + m;
                }
                word.push('\\');
                i += 1;
            }
        } else {
            proof {
                let m = mark(s@[i as int], spec_is_glob_or_tilde(s@[i as int]));
                lemma_after_reading(got, m, double_quoted(s@, i + 1));
                got = got + m;
            }
            if is_glob_or_tilde(s[i]) {
                word.push(LITERAL);
            }
            word.push(s[i]);
            i += 1;
        }
        assert(word@ =~= old(word)@ + got);
    }
    if i >= s.len() {
        return Err(Error::msg("unclosed double quote"));
    }
    assert(got + Seq::<char>::empty() =~= got);
    Ok(i + 1)
}

/// Scan a word token, handling quoting. Returns the word and the index after it.
/// Uses the marker `LITERAL` for characters that should not be expanded.
fn scan_word(s: &Vec<char>, start: usize) -> (r: Result<(String, usize), Error>)
    requires
        start <= s.len(),
    ensures
        scan_view(r) == word_at(s@, start as int),
        r matches Ok((_, j)) ==> j <= s.len(),
{
    let mut word: Vec<char> = Vec::new();
    let mut i: usize = start;
    proof {
        if let Ok((w, j)) = word_at(s@, start as int) {
            assert(word@ + w =~= w);
        }
    }
    while i < s.len() && !is_meta(s[i])
        invariant
            start <= i <= s.len(),
            word_at(s@, start as int) == after_reading(word@, word_at(s@, i as int)),
        decreases s.len() - i,
    {
        let c = s[i];
        if c == '\'' {
            let ghost had = word@;
            proof {
                lemma_quoted_bounds(s@, i + 1);
            }
            match scan_single(s, i + 1, &mut word) {
                Ok(j) => {
                    proof {
                        let w = single_quoted(s@, i + 1)->Ok_0.0;
                        lemma_after_reading(had, w, word_at(s@, j as int));
                    }
                    i = j;
                },
                Err(e) => {
                    return Err(e);
                },
            }
        } else if c == '"' {
            let ghost had = word@;
            proof {
                lemma_quoted_bounds(s@, i + 1);
            }
            match scan_double(s, i + 1, &mut word) {
                Ok(j) => {
                    proof {
                        let w = double_quoted(s@, i + 1)->Ok_0.0;
                        lemma_after_reading(had, w, word_at(s@, j as int));
                    }
                    i = j;
                },
                Err(e) => {
                    return Err(e);
                },
            }
        } else if c == '\\' && i + 1 < s.len() {
            proof {
                lemma_after_reading(word@, mark(s@[i + 1], true), word_at(s@, i + 2));
                assert(word@ + mark(s@[i + 1], true) =~= word@.push(LITERAL).push(s@[i + 1]));
            }
            word.push(LITERAL);
            word.push(s[i + 1]);
            i += 2;
        } else {
            proof {
                lemma_after_reading(word@, seq![c], word_at(s@, i + 1));
                assert(word@ + seq![c] =~= word@.push(c));
            }
            word.push(c);
            i += 1;
        }
    }
    assert(word@ + Seq::<char>::empty() =~= word@);
    Ok((string_of(word.as_slice()), i))
}

fn char_at(s: &Vec<char>, i: usize) -> (r: char)
    ensures
        r == (if i < s.len() {
            s@[i as int]
        } else {
            LITERAL
        }),
{
    if i < s.len() {
        s[i]
    } else {
        LITERAL
    }
}

/// The operator or word at `i`.
fn next_token(s: &Vec<char>, i: usize) -> (r: Result<(Token, usize), Error>)
    requires
        i < s.len(),
        !spec_is_blank(s@[i as int]),
        s@[i as int] != '#',
    ensures
        match token_at(s@, i as int) {
            Ok((t, j)) => r matches Ok((x, k)) && x@ == t && k == j && i < k <= s.len(),
            Err(e) => r matches Err(x) && x@ == e,
        },
{
    let c = s[i];
    let next = if i + 1 < s.len() {
        s[i + 1]
    } else {
        LITERAL
    };
    if c == '|' {
        let third = if i + 1 < s.len() {
            char_at(s, i + 2)
        } else {
            LITERAL
        };
        if next == '|' {
            Ok((Token::Or, i + 2))
        } else if next == '&' && third != '|' && third != '>' && third != '&' {
            Ok((Token::PipeStderr, i + 2))
        } else {
            Ok((Token::Pipe, i + 1))
        }
    } else if c == '&' {
        if next == '|' {
            Ok((Token::PipeStderr, i + 2))
        } else if next == '>' {
            Ok((Token::Redirect(RedirectKind::All), i + 2))
        } else if next == '&' {
            Ok((Token::And, i + 2))
        } else {
            Err(Error::msg("background (&) not supported"))
        }
    } else if c == '>' {
        if next == '>' {
            Ok((Token::Redirect(RedirectKind::Append), i + 2))
        } else {
            Ok((Token::Redirect(RedirectKind::Out), i + 1))
        }
    } else if c == '<' {
        Ok((Token::Redirect(RedirectKind::In), i + 1))
    } else if c == ';' {
        Ok((Token::Semi, i + 1))
    } else if c == '2' && next == '>' {
        Ok((Token::Redirect(RedirectKind::Stderr), i + 2))
    } else {
        proof {
            lemma_word_bounds(s@, i as int);
        }
        match scan_word(s, i) {
            Ok((w, j)) => Ok((Token::Word(w), j)),
            Err(e) => Err(e),
        }
    }
}

fn tokenize(input: &str) -> (r: Result<Vec<Token>, Error>)
    ensures
        match tokens_from(input@, 0) {
            Ok(ts) => r matches Ok(v) && token_views(v@) == ts,
            Err(e) => r matches Err(x) && x@ == e,
        },
{
    let s = chars_of(input);
    let mut tokens: Vec<Token> = Vec::new();
    let mut i: usize = 0;
    proof {
        if let Ok(ts) = tokens_from(s@, 0) {
            assert(token_views(tokens@) + ts =~= ts);
        }
    }
    while i < s.len() && s[i] != '#'
        invariant
            i <= s.len(),
            s@ == input@,
            tokens_from(s@, 0) == after_tokens(token_views(tokens@), tokens_from(s@, i as int)),
        decreases s.len() - i,
    {
        if s[i] == ' ' || s[i] == '\t' || s[i] == '\n' {
            i += 1;
        } else {
            match next_token(&s, i) {
                Ok((t, j)) => {
                    let ghost had = token_views(tokens@);
                    let ghost tv = t@;
                    tokens.push(t);
                    proof {
                        assert(token_views(tokens@) =~= had + seq![tv]);
                        if let Ok(rest) = tokens_from(s@, j as int) {
                            assert(had + (seq![tv] + rest) =~= (had + seq![tv]) + rest);
                        }
                    }
                    i = j;
                },
                Err(e) => {
                    return Err(e);
                },
            }
        }
    }
    assert(token_views(tokens@) + Seq::<TokenView>::empty() =~= token_views(tokens@));
    Ok(tokens)
}

// -- Commands --

/// The command that goes on at `i`, of which `cmd` has been read, and the index after it.
pub open spec fn command_from(ts: Seq<TokenView>, i: int, cmd: CommandView) -> Result<
    (CommandView, int),
    ErrorView,
>
    decreases ts.len() - i,
{
    if 0 <= i < ts.len() && ts[i] is Word {
        command_from(ts, i + 1, CommandView { argv: cmd.argv.push(ts[i]->Word_0), ..cmd })
    } else if 0 <= i < ts.len() && ts[i] is Redirect {
        if i + 1 < ts.len() && ts[i + 1] is Word {
            command_from(
                ts,
                i + 2,
                CommandView {
                    redirects: cmd.redirects.push((ts[i]->Redirect_0, ts[i + 1]->Word_0)),
                    ..cmd
                },
            )
        } else {
            Err(ErrorView::Msg("expected filename after redirect"@))
        }
    } else if cmd.argv.len() == 0 {
        Err(ErrorView::Msg("expected command name"@))
    } else {
        Ok((cmd, i))
    }
}

pub open spec fn empty_command() -> CommandView {
    CommandView { argv: Seq::empty(), redirects: Seq::empty() }
}

pub proof fn lemma_command_bounds(ts: Seq<TokenView>, i: int, cmd: CommandView)
    requires
        0 <= i <= ts.len(),
    ensures
        command_from(ts, i, cmd) matches Ok((c, j)) ==> i <= j <= ts.len() && (cmd.argv.len() == 0
            ==> i < j) && (j < ts.len() ==> !(ts[j] is Word) && !(ts[j] is Redirect)),
    decreases ts.len() - i,
{
    if i < ts.len() && ts[i] is Word {
        lemma_command_bounds(
            ts,
            i + 1,
            CommandView { argv: cmd.argv.push(ts[i]->Word_0), ..cmd },
        );
    } else if i + 1 < ts.len() && ts[i] is Redirect && ts[i + 1] is Word {
        lemma_command_bounds(
            ts,
            i + 2,
            CommandView {
                redirects: cmd.redirects.push((ts[i]->Redirect_0, ts[i + 1]->Word_0)),
                ..cmd
            },
        );
    }
}

/// The pipeline that goes on at `i` after the commands `done`, and the index after it.
pub open spec fn pipeline_from(ts: Seq<TokenView>, i: int, done: PipelineView) -> Result<
    (PipelineView, int),
    ErrorView,
>
    decreases ts.len() - i,
    when 0 <= i <= ts.len()
{
    match command_from(ts, i, empty_command()) {
        Err(e) => Err(e),
        Ok((cmd, j)) => {
            proof {
                lemma_command_bounds(ts, i, empty_command());
            }
            if j < ts.len() && (ts[j] is Pipe || ts[j] is PipeStderr) {
                pipeline_from(
                    ts,
                    j + 1,
                    done.push(PipedView { cmd, pipe_stderr: ts[j] is PipeStderr }),
                )
            } else {
                Ok((done.push(PipedView { cmd, pipe_stderr: false }), j))
            }
        },
    }
}

pub proof fn lemma_pipeline_bounds(ts: Seq<TokenView>, i: int, done: PipelineView)
    requires
        0 <= i <= ts.len(),
    ensures
        pipeline_from(ts, i, done) matches Ok((p, j)) ==> i < j <= ts.len() && (j < ts.len()
            ==> ts[j] is And || ts[j] is Or || ts[j] is Semi),
    decreases ts.len() - i,
{
    lemma_command_bounds(ts, i, empty_command());
    if let Ok((cmd, j)) = command_from(ts, i, empty_command()) {
        if j < ts.len() && (ts[j] is Pipe || ts[j] is PipeStderr) {
            lemma_pipeline_bounds(
                ts,
                j + 1,
                done.push(PipedView { cmd, pipe_stderr: ts[j] is PipeStderr }),
            );
        }
    }
}

pub open spec fn connector_of(t: TokenView) -> Connector {
    match t {
        TokenView::And => Connector::And,
        TokenView::Or => Connector::Or,
        _ => Connector::Semi,
    }
}

/// The segments that go on at `i` after the segments `done`. A pipeline ends at a connector
/// or at the end of the line; a connector may end the line.
pub open spec fn segments_from(ts: Seq<TokenView>, i: int, done: LineView) -> Result<
    LineView,
    ErrorView,
>
    decreases ts.len() - i,
    when 0 <= i <= ts.len()
{
    match pipeline_from(ts, i, Seq::empty()) {
        Err(e) => Err(e),
        Ok((p, j)) => {
            proof {
                lemma_pipeline_bounds(ts, i, Seq::empty());
            }
            if j < ts.len() {
                let line = done.push((p, Some(connector_of(ts[j]))));
                if j + 1 < ts.len() {
                    segments_from(ts, j + 1, line)
                } else {
                    Ok(line)
                }
            } else {
                Ok(done.push((p, None)))
            }
        },
    }
}

/// What a command line means.
pub open spec fn parsed(input: Seq<char>) -> Result<LineView, ErrorView> {
    match tokens_from(input, 0) {
        Err(e) => Err(e),
        Ok(ts) => if ts.len() == 0 {
            Err(ErrorView::Msg("empty command"@))
        } else {
            segments_from(ts, 0, Seq::empty())
        },
    }
}

/// Parses a command line.
pub fn parse(input: &str) -> (r: Result<CommandLine, Error>)
    ensures
        match parsed(input@) {
            Ok(line) => r matches Ok(c) && c@ == line,
            Err(e) => r matches Err(x) && x@ == e,
        },
{
    match tokenize(input) {
        Err(e) => Err(e),
        Ok(tokens) => {
            if tokens.len() == 0 {
                return Err(Error::msg("empty command"));
            }
            parse_tokens(&tokens)
        },
    }
}

fn parse_tokens(tokens: &Vec<Token>) -> (r: Result<CommandLine, Error>)
    requires
        tokens.len() > 0,
    ensures
        match segments_from(token_views(tokens@), 0, Seq::empty()) {
            Ok(line) => r matches Ok(c) && c@ == line,
            Err(e) => r matches Err(x) && x@ == e,
        },
{
    let mut line = CommandLine { segments: Vec::new() };
    let mut i: usize = 0;
    let ghost ts = token_views(tokens@);
    assert(line@ =~= Seq::empty());
    loop
        invariant
            ts == token_views(tokens@),
            i < tokens.len(),
            segments_from(ts, 0, Seq::empty()) == segments_from(ts, i as int, line@),
        decreases tokens.len() - i,
    {
        proof {
            lemma_pipeline_bounds(ts, i as int, Seq::empty());
        }
        match parse_pipeline(tokens, i) {
            Err(e) => {
                return Err(e);
            },
            Ok((pipeline, j)) => {
                let ghost had = line@;
                let ghost pv = pipeline@;
                if j < tokens.len() {
                    assert(ts[j as int] == tokens@[j as int]@);
                    let connector = match &tokens[j] {
                        Token::And => Connector::And,
                        Token::Or => Connector::Or,
                        _ => Connector::Semi,
                    };
                    line.segments.push((pipeline, Some(connector)));
                    assert(line@ =~= had.push((pv, Some(connector_of(ts[j as int])))));
                    if j + 1 >= tokens.len() {
                        return Ok(line);
                    }
                    i = j + 1;
                } else {
                    line.segments.push((pipeline, None));
                    assert(line@ =~= had.push((pv, None)));
                    return Ok(line);
                }
            },
        }
    }
}

fn parse_pipeline(tokens: &Vec<Token>, start: usize) -> (r: Result<(Pipeline, usize), Error>)
    requires
        start <= tokens.len(),
    ensures
        match pipeline_from(token_views(tokens@), start as int, Seq::empty()) {
            Ok((p, j)) => r matches Ok((x, k)) && x@ == p && k == j,
            Err(e) => r matches Err(x) && x@ == e,
        },
{
    let mut pipeline = Pipeline { commands: Vec::new() };
    let mut i: usize = start;
    let ghost ts = token_views(tokens@);
    assert(pipeline@ =~= Seq::empty());
    loop
        invariant
            ts == token_views(tokens@),
            start <= i <= tokens.len(),
            pipeline_from(ts, start as int, Seq::empty()) == pipeline_from(
                ts,
                i as int,
                pipeline@,
            ),
        decreases tokens.len() - i,
    {
        proof {
            lemma_command_bounds(ts, i as int, empty_command());
        }
        match parse_command(tokens, i) {
            Err(e) => {
                return Err(e);
            },
            Ok((cmd, j)) => {
                let ghost had = pipeline@;
                let ghost cv = cmd@;
                if j < tokens.len() {
                    assert(ts[j as int] == tokens@[j as int]@);
                    match &tokens[j] {
                        Token::Pipe => {
                            pipeline.commands.push(PipedCommand { cmd, pipe_stderr: false });
                            assert(pipeline@ =~= had.push(
                                PipedView { cmd: cv, pipe_stderr: false },
                            ));
                            i = j + 1;
                            continue;
                        },
                        Token::PipeStderr => {
                            pipeline.commands.push(PipedCommand { cmd, pipe_stderr: true });
                            assert(pipeline@ =~= had.push(
                                PipedView { cmd: cv, pipe_stderr: true },
                            ));
                            i = j + 1;
                            continue;
                        },
                        _ => {},
                    }
                }
                pipeline.commands.push(PipedCommand { cmd, pipe_stderr: false });
                assert(pipeline@ =~= had.push(PipedView { cmd: cv, pipe_stderr: false }));
                return Ok((pipeline, j));
            },
        }
    }
}

fn parse_command(tokens: &Vec<Token>, start: usize) -> (r: Result<(Command, usize), Error>)
    requires
        start <= tokens.len(),
    ensures
        match command_from(token_views(tokens@), start as int, empty_command()) {
            Ok((c, j)) => r matches Ok((x, k)) && x@ == c && k == j,
            Err(e) => r matches Err(x) && x@ == e,
        },
{
    let mut cmd = Command { argv: Vec::new(), redirects: Vec::new() };
    let mut i: usize = start;
    let ghost ts = token_views(tokens@);
    assert(cmd@ =~= empty_command());
    while i < tokens.len()
        invariant
            ts == token_views(tokens@),
            start <= i <= tokens.len(),
            command_from(ts, start as int, empty_command()) == command_from(ts, i as int, cmd@),
        ensures
            i == tokens.len() || !(ts[i as int] is Word || ts[i as int] is Redirect),
        decreases tokens.len() - i,
    {
        let ghost had = cmd@;
        assert(ts[i as int] == tokens@[i as int]@);
        match &tokens[i] {
            Token::Word(w) => {
                cmd.argv.push(w.clone());
                assert(cmd@ =~= (CommandView { argv: had.argv.push(w@), ..had }));
                i += 1;
            },
            Token::Redirect(kind) => {
                if i + 1 >= tokens.len() {
                    return Err(Error::msg("expected filename after redirect"));
                }
                assert(ts[i + 1] == tokens@[i + 1]@);
                match &tokens[i + 1] {
                    Token::Word(w) => {
                        cmd.redirects.push(Redirect { kind: *kind, target: w.clone() });
                        assert(cmd@ =~= (CommandView {
                            redirects: had.redirects.push((*kind, w@)),
                            ..had
                        }));
                        i += 2;
                    },
                    _ => {
                        return Err(Error::msg("expected filename after redirect"));
                    },
                }
            },
            _ => {
                break;
            },
        }
    }
    if cmd.argv.len() == 0 {
        return Err(Error::msg("expected command name"));
    }
    Ok((cmd, i))
}

// -- Continuation lines --

/// The quotes that are open after `s`.
#[verifier::ext_equal]
pub struct QuoteState {
    pub single: bool,
    pub double: bool,
    pub escape: bool,
}

pub open spec fn quote_state(s: Seq<char>) -> QuoteState
    decreases s.len(),
{
    if s.len() == 0 {
        QuoteState { single: false, double: false, escape: false }
    } else {
        let q = quote_state(s.drop_last());
        let c = s.last();
        if q.escape {
            QuoteState { escape: false, ..q }
        } else if c == '\\' && !q.single {
            QuoteState { escape: true, ..q }
        } else if c == '\'' && !q.double {
            QuoteState { single: !q.single, ..q }
        } else if c == '"' && !q.single {
            QuoteState { double: !q.double, ..q }
        } else {
            q
        }
    }
}

/// A line goes on when it, without trailing white space, leaves a quote open or ends in an
/// operator that needs a right side.
pub open spec fn continues(input: Seq<char>) -> bool {
    let t = input.take(trim_back(input, true));
    &&& t.len() > 0
    &&& {
        ||| quote_state(t).single
        ||| quote_state(t).double
        ||| t.last() == '|'
        ||| t.len() >= 2 && t.last() == '&' && t[t.len() - 2] == '&'
    }
}

/// Check if input needs a continuation line.
pub fn needs_continuation(input: &str) -> (r: bool)
    ensures
        r == continues(input@),
{
    let s = chars_of(input);
    let n = trim_back_from(&s, s.len(), true);
    assert(s@.take(s@.len() as int) =~= s@);
    if n == 0 {
        return false;
    }
    let mut in_single = false;
    let mut in_double = false;
    let mut escape = false;
    let mut i: usize = 0;
    while i < n
        invariant
            i <= n <= s.len(),
            quote_state(s@.take(i as int)) == (QuoteState {
                single: in_single,
                double: in_double,
                escape,
            }),
        decreases n - i,
    {
        let c = s[i];
        assert(s@.take(i + 1).drop_last() =~= s@.take(i as int));
        if escape {
            escape = false;
        } else if c == '\\' && !in_single {
            escape = true;
        } else if c == '\'' && !in_double {
            in_single = !in_single;
        } else if c == '"' && !in_single {
            in_double = !in_double;
        }
        i += 1;
    }
    if in_single || in_double {
        return true;
    }
    s[n - 1] == '|' || (n >= 2 && s[n - 1] == '&' && s[n - 2] == '&')
}

/// `s` without its markers.
pub open spec fn unmarked(s: Seq<char>) -> Seq<char>
    decreases s.len(),
{
    if s.len() == 0 {
        s
    } else if s.last() == LITERAL {
        unmarked(s.drop_last())
    } else {
        unmarked(s.drop_last()).push(s.last())
    }
}

/// Remove the `LITERAL` markers, producing a clean string.
pub fn unescape(s: &str) -> (r: String)
    ensures
        r@ == unmarked(s@),
{
    let v = chars_of(s);
    let mut out = String::new();
    let mut i: usize = 0;
    while i < v.len()
        invariant
            i <= v.len(),
            out@ == unmarked(v@.take(i as int)),
        decreases v.len() - i,
    {
        assert(v@.take(i + 1).drop_last() =~= v@.take(i as int));
        if v[i] != LITERAL {
            out.push(v[i]);
        }
        i += 1;
    }
    assert(v@.take(i as int) =~= v@);
    out
}

// -- Laws --

/// No expansion looks at the character at `i` of a word: it is no special character, or the
/// marker stands before it.
pub open spec fn all_protected(w: Seq<char>) -> bool {
    forall|i: int|
        0 <= i < w.len() && spec_is_expandable(#[trigger] w[i]) ==> i > 0 && w[i - 1] == LITERAL
}

pub proof fn lemma_unmarked_concat(a: Seq<char>, b: Seq<char>)
    ensures
        unmarked(a + b) == unmarked(a) + unmarked(b),
    decreases b.len(),
{
    if b.len() == 0 {
        assert(a + b =~= a);
        assert(unmarked(a) + unmarked(b) =~= unmarked(a));
    } else {
        lemma_unmarked_concat(a, b.drop_last());
        assert((a + b).drop_last() =~= a + b.drop_last());
        assert((a + b).last() == b.last());
        if b.last() != LITERAL {
            assert((unmarked(a) + unmarked(b.drop_last())).push(b.last()) =~= unmarked(a)
                + unmarked(b.drop_last()).push(b.last()));
        }
    }
}

pub proof fn lemma_unmarked_mark(c: char, m: bool)
    requires
        c != LITERAL,
    ensures
        unmarked(mark(c, m)) == seq![c],
{
    reveal_with_fuel(unmarked, 3);
    if m {
        assert(mark(c, m).drop_last() =~= seq![LITERAL]);
        assert(seq![LITERAL].drop_last() =~= Seq::<char>::empty());
        assert(Seq::<char>::empty().push(c) =~= seq![c]);
    } else {
        assert(mark(c, m).drop_last() =~= Seq::<char>::empty());
        assert(Seq::<char>::empty().push(c) =~= seq![c]);
    }
}

/// Single quotes are literal: what is read of the text between them is that text, and no
/// expansion looks at any character of it.
pub proof fn law_single_quotes_are_literal(s: Seq<char>, i: int)
    requires
        0 <= i <= s.len(),
        forall|k: int| i <= k < s.len() ==> s[k] != LITERAL,
    ensures
        single_quoted(s, i) matches Ok((w, j)) ==> i < j <= s.len() && unmarked(w) == s.subrange(
            i,
            j - 1,
        ) && all_protected(w),
    decreases s.len() - i,
{
    lemma_quoted_bounds(s, i);
    if i < s.len() {
        if s[i] == '\'' {
            assert(s.subrange(i, i) =~= Seq::<char>::empty());
        } else {
            law_single_quotes_are_literal(s, i + 1);
            lemma_quoted_bounds(s, i + 1);
            if let Ok((w, j)) = single_quoted(s, i + 1) {
                let m = mark(s[i], spec_is_expandable(s[i]));
                lemma_unmarked_concat(m, w);
                lemma_unmarked_mark(s[i], spec_is_expandable(s[i]));
                assert(seq![s[i]] + s.subrange(i + 1, j - 1) =~= s.subrange(i, j - 1));
                let whole = m + w;
                assert forall|k: int|
                    0 <= k < whole.len() && spec_is_expandable(#[trigger] whole[k]) implies k > 0
                    && whole[k - 1] == LITERAL by {
                    if k >= m.len() {
                        assert(whole[k] == w[k - m.len()]);
                        if k - m.len() > 0 {
                            assert(whole[k - 1] == w[k - m.len() - 1]);
                        }
                    }
                }
            }
        }
    }
}

} // verus!
