//! How a command line is read.
use vstd::prelude::*;

use crate::error::ErrorView;
use crate::parse::{
    after_reading, command_from, connector_of, continues, double_quoted, empty_command,
    lemma_unmarked_concat, lemma_unmarked_mark, mark, parsed, pipeline_from, quote_state,
    segments_from, spec_is_blank, spec_is_meta, token_at, tokens_from, unmarked, word_at,
    CommandView, Connector, LITERAL, LineView, PipedView, PipelineView, QuoteState, RedirectKind,
    TokenView,
};
use crate::rewrite::line_continues;
use crate::text::{ends_with, lemma_trim_back, spec_is_whitespace, trim_back};

verus! {

/// A character that stands for itself in a word: no blank, no operator, no quote, no comment.
pub open spec fn is_word_char(c: char) -> bool {
    !(c == ' ' || c == '\t' || c == '\n' || c == '|' || c == '&' || c == '>' || c == '<' || c == ';'
        || c == '#' || c == '\'' || c == '"' || c == '\\')
}

/// A word that needs no quotes.
pub open spec fn is_bare(w: Seq<char>) -> bool {
    w.len() > 0 && forall|i: int| 0 <= i < w.len() ==> is_word_char(#[trigger] w[i])
}

/// How an operator or a bare word is written.
pub open spec fn spelled(t: TokenView) -> Seq<char> {
    match t {
        TokenView::Word(w) => w,
        TokenView::Pipe => seq!['|'],
        TokenView::PipeStderr => seq!['|', '&'],
        TokenView::And => seq!['&', '&'],
        TokenView::Or => seq!['|', '|'],
        TokenView::Semi => seq![';'],
        TokenView::Redirect(RedirectKind::Out) => seq!['>'],
        TokenView::Redirect(RedirectKind::Append) => seq!['>', '>'],
        TokenView::Redirect(RedirectKind::In) => seq!['<'],
        TokenView::Redirect(RedirectKind::Stderr) => seq!['2', '>'],
        TokenView::Redirect(RedirectKind::All) => seq!['&', '>'],
    }
}

/// Operators and bare words, each with a space behind it.
pub open spec fn all_spelled(ts: Seq<TokenView>) -> Seq<char>
    decreases ts.len(),
{
    if ts.len() == 0 {
        Seq::empty()
    } else {
        spelled(ts[0]) + seq![' '] + all_spelled(ts.drop_first())
    }
}

pub open spec fn words_are_bare(ts: Seq<TokenView>) -> bool {
    forall|i: int| 0 <= i < ts.len() && (#[trigger] ts[i]) is Word ==> is_bare(ts[i]->Word_0)
}

/// A bare word reaches to the next blank, operator or comment.
proof fn lemma_reads_bare(s: Seq<char>, i: int, e: int)
    requires
        0 <= i <= e <= s.len(),
        forall|k: int| i <= k < e ==> is_word_char(#[trigger] s[k]),
        e == s.len() || spec_is_meta(s[e]),
    ensures
        word_at(s, i) == Ok::<(Seq<char>, int), ErrorView>((s.subrange(i, e), e)),
    decreases e - i,
{
    if i < e {
        assert(is_word_char(s[i]));
        lemma_reads_bare(s, i + 1, e);
        assert(word_at(s, i) == after_reading(seq![s[i]], word_at(s, i + 1)));
        assert(seq![s[i]] + s.subrange(i + 1, e) =~= s.subrange(i, e));
    } else {
        assert(s.subrange(i, e) =~= Seq::empty());
    }
}

/// What is read at a place where an operator or a bare word is written.
proof fn lemma_reads_spelled(s: Seq<char>, i: int, t: TokenView)
    requires
        0 <= i,
        t is Word ==> is_bare(t->Word_0),
        i + spelled(t).len() <= s.len(),
        s.subrange(i, i + spelled(t).len()) == spelled(t),
        i + spelled(t).len() < s.len() ==> {
            let c = s[i + spelled(t).len()];
            spec_is_blank(c) || t !is Word && is_word_char(c) || t is Word && spec_is_meta(c)
                && !(t->Word_0 == seq!['2'] && c == '>')
        },
    ensures
        token_at(s, i) == Ok::<(TokenView, int), ErrorView>((t, i + spelled(t).len())),
{
    let w = spelled(t);
    let n = w.len() as int;
    let p = s.subrange(i, i + n);
    assert(p[0] == s[i]);
    if n > 1 {
        assert(p[1] == s[i + 1]);
    }
    if t is Word {
        assert forall|k: int| i <= k < i + n implies is_word_char(#[trigger] s[k]) by {
            assert(p[k - i] == s[k]);
            assert(is_word_char(w[k - i]));
        }
        lemma_reads_bare(s, i, i + n);
        if s[i] == '2' && n == 1 {
            assert(w =~= seq!['2']);
        }
    }
}

/// A line is read as the operators and words that it is written with.
pub proof fn law_tokens_are_read(ts: Seq<TokenView>)
    requires
        words_are_bare(ts),
    ensures
        tokens_from(all_spelled(ts), 0) == Ok::<Seq<TokenView>, ErrorView>(ts),
{
    assert(Seq::<char>::empty() + all_spelled(ts) =~= all_spelled(ts));
    lemma_tokens_behind(Seq::empty(), ts);
}

proof fn lemma_tokens_behind(a: Seq<char>, ts: Seq<TokenView>)
    requires
        words_are_bare(ts),
    ensures
        tokens_from(a + all_spelled(ts), a.len() as int) == Ok::<Seq<TokenView>, ErrorView>(ts),
    decreases ts.len(),
{
    let s = a + all_spelled(ts);
    if ts.len() == 0 {
        assert(ts =~= Seq::empty());
    } else {
        let t = ts[0];
        let w = spelled(t);
        let rest = ts.drop_first();
        let i = a.len() as int;
        let n = w.len() as int;
        assert(all_spelled(ts) == w + seq![' '] + all_spelled(rest));
        assert(s.subrange(i, i + n) =~= w);
        assert(s[i + n] == ' ');
        lemma_reads_spelled(s, i, t);
        let b = a + w + seq![' '];
        assert(b + all_spelled(rest) =~= s);
        assert forall|k: int| 0 <= k < rest.len() && (#[trigger] rest[k]) is Word implies is_bare(
            rest[k]->Word_0,
        ) by {
            assert(rest[k] == ts[k + 1]);
        }
        lemma_tokens_behind(b, rest);
        assert(tokens_from(s, i + n) == tokens_from(s, i + n + 1));
        assert(w.len() > 0);
        assert(s[i] == w[0]);
        if t is Word {
            assert(is_word_char(w[0]));
        }
        assert(seq![t] + rest =~= ts);
    }
}

/// An operator needs no blanks around it: it ends the word before it, and the word behind it
/// starts there.
pub proof fn law_operators_end_words(w: Seq<char>, t: TokenView, v: Seq<char>)
    requires
        is_bare(w),
        is_bare(v),
        t !is Word,
        t != TokenView::Redirect(RedirectKind::Stderr),
        w == seq!['2'] ==> spelled(t)[0] != '>',
    ensures
        tokens_from(w + spelled(t) + v, 0) == Ok::<Seq<TokenView>, ErrorView>(
            seq![TokenView::Word(w), t, TokenView::Word(v)],
        ),
{
    let o = spelled(t);
    let s = w + o + v;
    let i = w.len() as int;
    let j = i + o.len();
    let n = s.len() as int;
    assert(s.subrange(0, i) =~= w);
    assert(s[i] == o[0]);
    lemma_reads_spelled(s, 0, TokenView::Word(w));
    assert(s.subrange(i, j) =~= o);
    assert(s[j] == v[0]);
    assert(is_word_char(v[0]));
    lemma_reads_spelled(s, i, t);
    assert(s.subrange(j, j + v.len()) =~= v);
    lemma_reads_spelled(s, j, TokenView::Word(v));
    assert(is_word_char(w[0]));
    assert(s[0] == w[0]);
    assert(tokens_from(s, n) == Ok::<Seq<TokenView>, ErrorView>(Seq::empty()));
    assert(tokens_from(s, j) == Ok::<Seq<TokenView>, ErrorView>(seq![TokenView::Word(v)])) by {
        assert(seq![TokenView::Word(v)] + Seq::<TokenView>::empty() =~= seq![TokenView::Word(v)]);
    }
    assert(tokens_from(s, i) == Ok::<Seq<TokenView>, ErrorView>(seq![t, TokenView::Word(v)])) by {
        assert(seq![t] + seq![TokenView::Word(v)] =~= seq![t, TokenView::Word(v)]);
    }
    assert(seq![TokenView::Word(w)] + seq![t, TokenView::Word(v)] =~= seq![
        TokenView::Word(w),
        t,
        TokenView::Word(v),
    ]);
}

/// What stands behind a `#` is not read.
pub proof fn law_comments_are_skipped(w: Seq<char>, x: Seq<char>)
    requires
        is_bare(w),
    ensures
        tokens_from(w + seq!['#'] + x, 0) == Ok::<Seq<TokenView>, ErrorView>(
            seq![TokenView::Word(w)],
        ),
        tokens_from(w + seq![' ', '#'] + x, 0) == Ok::<Seq<TokenView>, ErrorView>(
            seq![TokenView::Word(w)],
        ),
        tokens_from(seq!['#'] + x, 0) == Ok::<Seq<TokenView>, ErrorView>(Seq::empty()),
{
    let n = w.len() as int;
    assert(is_word_char(w[0]));
    let a = w + seq!['#'] + x;
    assert(a.subrange(0, n) =~= w);
    assert(a[n] == '#');
    lemma_reads_spelled(a, 0, TokenView::Word(w));
    assert(tokens_from(a, n) == Ok::<Seq<TokenView>, ErrorView>(Seq::empty()));
    assert(seq![TokenView::Word(w)] + Seq::<TokenView>::empty() =~= seq![TokenView::Word(w)]);
    let b = w + seq![' ', '#'] + x;
    assert(b.subrange(0, n) =~= w);
    assert(b[n] == ' ' && b[n + 1] == '#');
    lemma_reads_spelled(b, 0, TokenView::Word(w));
    assert(tokens_from(b, n + 1) == Ok::<Seq<TokenView>, ErrorView>(Seq::empty()));
    assert(tokens_from(b, n) == tokens_from(b, n + 1));
}

/// The words of a command, then each redirection with its file.
pub open spec fn command_tokens(c: CommandView) -> Seq<TokenView> {
    Seq::new(c.argv.len(), |i: int| TokenView::Word(c.argv[i])) + redirect_tokens(c.redirects)
}

pub open spec fn redirect_tokens(r: Seq<(RedirectKind, Seq<char>)>) -> Seq<TokenView>
    decreases r.len(),
{
    if r.len() == 0 {
        Seq::empty()
    } else {
        seq![TokenView::Redirect(r[0].0), TokenView::Word(r[0].1)] + redirect_tokens(r.drop_first())
    }
}

/// The commands of a pipeline, with what pipes each to the next.
pub open spec fn pipeline_tokens(p: PipelineView) -> Seq<TokenView>
    decreases p.len(),
{
    if p.len() == 0 {
        Seq::empty()
    } else if p.len() == 1 {
        command_tokens(p[0].cmd)
    } else {
        command_tokens(p[0].cmd) + seq![
            if p[0].pipe_stderr {
                TokenView::PipeStderr
            } else {
                TokenView::Pipe
            },
        ] + pipeline_tokens(p.drop_first())
    }
}

/// The pipelines of a line, with what connects each to the next.
pub open spec fn line_tokens(v: LineView) -> Seq<TokenView>
    decreases v.len(),
{
    if v.len() == 0 {
        Seq::empty()
    } else {
        let here = pipeline_tokens(v[0].0) + (match v[0].1 {
            Some(Connector::And) => seq![TokenView::And],
            Some(Connector::Or) => seq![TokenView::Or],
            Some(Connector::Semi) => seq![TokenView::Semi],
            None => Seq::empty(),
        });
        here + line_tokens(v.drop_first())
    }
}

/// Each command has a name, and the last command of a pipeline pipes nothing.
pub open spec fn is_pipeline(p: PipelineView) -> bool {
    &&& p.len() > 0
    &&& !p.last().pipe_stderr
    &&& forall|i: int| 0 <= i < p.len() ==> (#[trigger] p[i]).cmd.argv.len() > 0
}

/// Each pipeline but the last is connected to the next.
pub open spec fn is_command_line(v: LineView) -> bool {
    &&& v.len() > 0
    &&& forall|i: int| 0 <= i < v.len() ==> is_pipeline((#[trigger] v[i]).0)
    &&& forall|i: int| 0 <= i < v.len() - 1 ==> (#[trigger] v[i]).1 is Some
}

proof fn lemma_words_taken(ts: Seq<TokenView>, i: int, n: int, cmd: CommandView)
    requires
        0 <= i,
        0 <= n,
        i + n <= ts.len(),
        forall|k: int| i <= k < i + n ==> (#[trigger] ts[k]) is Word,
    ensures
        command_from(ts, i, cmd) == command_from(
            ts,
            i + n,
            CommandView {
                argv: cmd.argv + Seq::new(n as nat, |k: int| ts[i + k]->Word_0),
                redirects: cmd.redirects,
            },
        ),
    decreases n,
{
    let more = Seq::new(n as nat, |k: int| ts[i + k]->Word_0);
    if n == 0 {
        assert(cmd.argv + more =~= cmd.argv);
    } else {
        assert(ts[i] is Word);
        let c = CommandView { argv: cmd.argv.push(ts[i]->Word_0), ..cmd };
        lemma_words_taken(ts, i + 1, n - 1, c);
        let rest = Seq::new((n - 1) as nat, |k: int| ts[i + 1 + k]->Word_0);
        assert(c.argv + rest =~= cmd.argv + more);
    }
}

proof fn lemma_redirects_taken(
    ts: Seq<TokenView>,
    i: int,
    r: Seq<(RedirectKind, Seq<char>)>,
    cmd: CommandView,
)
    requires
        0 <= i,
        i + redirect_tokens(r).len() <= ts.len(),
        ts.subrange(i, i + redirect_tokens(r).len()) == redirect_tokens(r),
    ensures
        command_from(ts, i, cmd) == command_from(
            ts,
            i + redirect_tokens(r).len(),
            CommandView { argv: cmd.argv, redirects: cmd.redirects + r },
        ),
    decreases r.len(),
{
    let q = redirect_tokens(r);
    if r.len() == 0 {
        assert(cmd.redirects + r =~= cmd.redirects);
    } else {
        let rest = r.drop_first();
        let p = ts.subrange(i, i + q.len());
        assert(p[0] == ts[i]);
        assert(p[1] == ts[i + 1]);
        assert(ts.subrange(i + 2, i + q.len()) =~= redirect_tokens(rest)) by {
            assert(p.skip(2) =~= ts.subrange(i + 2, i + q.len()));
            assert(q.skip(2) =~= redirect_tokens(rest));
        }
        let c = CommandView { redirects: cmd.redirects.push((r[0].0, r[0].1)), ..cmd };
        lemma_redirects_taken(ts, i + 2, rest, c);
        assert(c.redirects + rest =~= cmd.redirects + r);
    }
}

proof fn lemma_command_taken(ts: Seq<TokenView>, i: int, c: CommandView)
    requires
        0 <= i,
        i + command_tokens(c).len() <= ts.len(),
        ts.subrange(i, i + command_tokens(c).len()) == command_tokens(c),
        c.argv.len() > 0,
        i + command_tokens(c).len() < ts.len() ==> !(ts[i + command_tokens(c).len()] is Word)
            && !(ts[i + command_tokens(c).len()] is Redirect),
    ensures
        command_from(ts, i, empty_command()) == Ok::<(CommandView, int), ErrorView>(
            (c, i + command_tokens(c).len()),
        ),
{
    let q = command_tokens(c);
    let n = c.argv.len() as int;
    let p = ts.subrange(i, i + q.len());
    assert forall|k: int| i <= k < i + n implies (#[trigger] ts[k]) is Word by {
        assert(p[k - i] == ts[k]);
    }
    lemma_words_taken(ts, i, n, empty_command());
    let argv = Seq::new(n as nat, |k: int| ts[i + k]->Word_0);
    assert(empty_command().argv + argv =~= c.argv) by {
        assert forall|k: int| 0 <= k < n implies argv[k] == c.argv[k] by {
            assert(p[k] == ts[i + k]);
            assert(q[k] == TokenView::Word(c.argv[k]));
        }
    }
    assert(ts.subrange(i + n, i + q.len()) =~= redirect_tokens(c.redirects)) by {
        assert(p.skip(n) =~= ts.subrange(i + n, i + q.len()));
        assert(q.skip(n) =~= redirect_tokens(c.redirects));
    }
    let half = CommandView { argv: c.argv, redirects: empty_command().redirects };
    lemma_redirects_taken(ts, i + n, c.redirects, half);
    assert(half.redirects + c.redirects =~= c.redirects);
}

proof fn lemma_pipeline_taken(ts: Seq<TokenView>, i: int, p: PipelineView, done: PipelineView)
    requires
        0 <= i,
        is_pipeline(p),
        i + pipeline_tokens(p).len() <= ts.len(),
        ts.subrange(i, i + pipeline_tokens(p).len()) == pipeline_tokens(p),
        i + pipeline_tokens(p).len() < ts.len() ==> {
            let t = ts[i + pipeline_tokens(p).len()];
            t is And || t is Or || t is Semi
        },
    ensures
        pipeline_from(ts, i, done) == Ok::<(PipelineView, int), ErrorView>(
            (done + p, i + pipeline_tokens(p).len()),
        ),
    decreases p.len(),
{
    let q = pipeline_tokens(p);
    let c = p[0].cmd;
    let m = command_tokens(c).len() as int;
    let s = ts.subrange(i, i + q.len());
    assert(ts.subrange(i, i + m) =~= command_tokens(c)) by {
        assert(s.take(m) =~= ts.subrange(i, i + m));
        assert(q.take(m) =~= command_tokens(c));
    }
    assert(p[0].cmd.argv.len() > 0);
    if p.len() == 1 {
        assert(q == command_tokens(c));
        lemma_command_taken(ts, i, c);
        assert(done.push(PipedView { cmd: c, pipe_stderr: false }) =~= done + p);
    } else {
        let rest = p.drop_first();
        assert(s[m] == ts[i + m]);
        assert(q[m] == if p[0].pipe_stderr {
            TokenView::PipeStderr
        } else {
            TokenView::Pipe
        });
        lemma_command_taken(ts, i, c);
        assert(ts.subrange(i + m + 1, i + q.len()) =~= pipeline_tokens(rest)) by {
            assert(s.skip(m + 1) =~= ts.subrange(i + m + 1, i + q.len()));
            assert(q.skip(m + 1) =~= pipeline_tokens(rest));
        }
        assert(is_pipeline(rest)) by {
            assert(rest.last() == p.last());
            assert forall|k: int| 0 <= k < rest.len() implies (#[trigger] rest[k]).cmd.argv.len()
                > 0 by {
                assert(rest[k] == p[k + 1]);
            }
        }
        let d = done.push(PipedView { cmd: c, pipe_stderr: p[0].pipe_stderr });
        lemma_pipeline_taken(ts, i + m + 1, rest, d);
        assert(d + rest =~= done + p);
    }
}

proof fn lemma_line_taken(ts: Seq<TokenView>, i: int, v: LineView, done: LineView)
    requires
        0 <= i,
        is_command_line(v),
        i + line_tokens(v).len() == ts.len(),
        ts.subrange(i, ts.len() as int) == line_tokens(v),
    ensures
        segments_from(ts, i, done) == Ok::<LineView, ErrorView>(done + v),
    decreases v.len(),
{
    let q = line_tokens(v);
    let p = v[0].0;
    let m = pipeline_tokens(p).len() as int;
    let s = ts.subrange(i, ts.len() as int);
    assert(is_pipeline(v[0].0));
    assert(ts.subrange(i, i + m) =~= pipeline_tokens(p)) by {
        assert(s.take(m) =~= ts.subrange(i, i + m));
        assert(q.take(m) =~= pipeline_tokens(p));
    }
    let rest = v.drop_first();
    if v[0].1 is Some {
        assert(s[m] == ts[i + m]);
        assert(q[m] == s[m]);
        lemma_pipeline_taken(ts, i, p, Seq::empty());
        assert(Seq::<PipedView>::empty() + p =~= p);
        let d = done.push((p, v[0].1));
        assert(connector_of(ts[i + m]) == v[0].1->0);
        assert(ts.subrange(i + m + 1, ts.len() as int) =~= line_tokens(rest)) by {
            assert(s.skip(m + 1) =~= ts.subrange(i + m + 1, ts.len() as int));
            assert(q.skip(m + 1) =~= line_tokens(rest));
        }
        if rest.len() == 0 {
            assert(line_tokens(rest).len() == 0);
            assert(d =~= done + v);
        } else {
            assert(is_command_line(rest)) by {
                assert forall|k: int| 0 <= k < rest.len() implies is_pipeline(
                    (#[trigger] rest[k]).0,
                ) by {
                    assert(rest[k] == v[k + 1]);
                }
                assert forall|k: int| 0 <= k < rest.len() - 1 implies (#[trigger] rest[k]).1
                    is Some by {
                    assert(rest[k] == v[k + 1]);
                }
            }
            assert(is_pipeline(rest[0].0));
            lemma_pipeline_tokens_len(rest[0].0);
            assert(line_tokens(rest).len() > 0);
            lemma_line_taken(ts, i + m + 1, rest, d);
            assert(d + rest =~= done + v);
        }
    } else {
        assert(v.len() == 1) by {
            if v.len() > 1 {
                assert(v[0].1 is Some);
            }
        }
        assert(line_tokens(rest).len() == 0);
        assert(q =~= pipeline_tokens(p));
        lemma_pipeline_taken(ts, i, p, Seq::empty());
        assert(Seq::<PipedView>::empty() + p =~= p);
        assert(done.push((p, None)) =~= done + v);
    }
}

proof fn lemma_pipeline_tokens_len(p: PipelineView)
    requires
        is_pipeline(p),
    ensures
        pipeline_tokens(p).len() > 0,
{
    assert(p[0].cmd.argv.len() > 0);
}

/// A line that is written out is read back: its pipelines with what connects them, their commands
/// with what pipes them, and the words and redirections of each.
pub proof fn law_line_is_read_back(v: LineView)
    requires
        is_command_line(v),
        words_are_bare(line_tokens(v)),
    ensures
        parsed(all_spelled(line_tokens(v))) == Ok::<LineView, ErrorView>(v),
{
    let ts = line_tokens(v);
    law_tokens_are_read(ts);
    assert(is_pipeline(v[0].0));
    lemma_pipeline_tokens_len(v[0].0);
    assert(ts.subrange(0, ts.len() as int) =~= ts);
    lemma_line_taken(ts, 0, v, Seq::empty());
    assert(Seq::<(PipelineView, Option<Connector>)>::empty() + v =~= v);
}

/// A single `&` is refused, and so is a line without a command.
pub proof fn law_background_is_refused(w: Seq<char>, c: char, x: Seq<char>)
    requires
        is_bare(w),
        c != '|' && c != '>' && c != '&',
    ensures
        tokens_from(w + seq![' ', '&', c] + x, 0) is Err,
        tokens_from(w + seq![' ', '&'], 0) is Err,
        parsed(Seq::empty()) is Err,
        parsed(seq!['#'] + x) is Err,
{
    let n = w.len() as int;
    assert(is_word_char(w[0]));
    let a = w + seq![' ', '&', c] + x;
    assert(a.subrange(0, n) =~= w);
    assert(a[n] == ' ' && a[n + 1] == '&' && a[n + 2] == c);
    lemma_reads_spelled(a, 0, TokenView::Word(w));
    assert(token_at(a, n + 1) is Err);
    assert(tokens_from(a, n + 1) is Err);
    assert(tokens_from(a, n) == tokens_from(a, n + 1));
    let b = w + seq![' ', '&'];
    assert(b.subrange(0, n) =~= w);
    assert(b[n] == ' ' && b[n + 1] == '&');
    lemma_reads_spelled(b, 0, TokenView::Word(w));
    assert(token_at(b, n + 1) is Err);
    assert(tokens_from(b, n + 1) is Err);
    assert(tokens_from(b, n) == tokens_from(b, n + 1));
    law_comments_are_skipped(w, x);
}

// -- Quotes --

/// A text in double quotes as it is read: a marker stands before each character of a pattern or
/// a tilde, and none before what names a variable or a command.
spec fn double_marked(t: Seq<char>) -> Seq<char>
    decreases t.len(),
{
    if t.len() == 0 {
        Seq::empty()
    } else {
        mark(t[0], t[0] == '*' || t[0] == '?' || t[0] == '[' || t[0] == '~') + double_marked(
            t.drop_first(),
        )
    }
}

/// What is read of a text in double quotes: patterns and tildes stand for themselves, variables
/// and commands do not.
pub open spec fn is_double_read(w: Seq<char>) -> bool {
    forall|i: int|
        0 <= i < w.len() ==> {
            let c = #[trigger] w[i];
            let protected = i > 0 && w[i - 1] == LITERAL;
            &&& c == '*' || c == '?' || c == '[' || c == '~' ==> protected
            &&& c == '$' || c == '`' ==> !protected
        }
}

proof fn lemma_double_marked(t: Seq<char>)
    requires
        !t.contains(LITERAL),
    ensures
        unmarked(double_marked(t)) == t,
        is_double_read(double_marked(t)),
        double_marked(t).len() > 0 ==> double_marked(t).last() != LITERAL,
    decreases t.len(),
{
    if t.len() > 0 {
        let c = t[0];
        let b = c == '*' || c == '?' || c == '[' || c == '~';
        let m = mark(c, b);
        let rest = t.drop_first();
        assert(t.contains(t[0]));
        assert(!rest.contains(LITERAL)) by {
            if rest.contains(LITERAL) {
                let k = choose|k: int| 0 <= k < rest.len() && rest[k] == LITERAL;
                assert(t[k + 1] == LITERAL);
            }
        }
        lemma_double_marked(rest);
        let r = double_marked(rest);
        lemma_unmarked_concat(m, r);
        lemma_unmarked_mark(c, b);
        assert(seq![c] + rest =~= t);
        let w = m + r;
        let n = m.len() as int;
        assert forall|i: int| 0 <= i < w.len() implies {
            let x = #[trigger] w[i];
            let protected = i > 0 && w[i - 1] == LITERAL;
            &&& x == '*' || x == '?' || x == '[' || x == '~' ==> protected
            &&& x == '$' || x == '`' ==> !protected
        } by {
            if i >= n {
                assert(w[i] == r[i - n]);
                if i > n {
                    assert(w[i - 1] == r[i - n - 1]);
                } else {
                    assert(w[i - 1] == c);
                }
            }
        }
        if r.len() > 0 {
            assert(w.last() == r.last());
        } else {
            assert(w.last() == c);
        }
    }
}

proof fn lemma_reads_double(s: Seq<char>, i: int, t: Seq<char>)
    requires
        0 <= i,
        s.len() == i + t.len() + 1,
        s.subrange(i, s.len() - 1) == t,
        s.last() == '"',
        !t.contains('"'),
        !t.contains('\\'),
    ensures
        double_quoted(s, i) == Ok::<(Seq<char>, int), ErrorView>(
            (double_marked(t), s.len() as int),
        ),
    decreases t.len(),
{
    if t.len() > 0 {
        let p = s.subrange(i, s.len() - 1);
        assert(p[0] == s[i]);
        assert(t.contains(t[0]));
        let rest = t.drop_first();
        assert(s.subrange(i + 1, s.len() - 1) =~= rest) by {
            assert(p.drop_first() =~= s.subrange(i + 1, s.len() - 1));
        }
        assert forall|c: char| rest.contains(c) implies t.contains(c) by {
            let k = choose|k: int| 0 <= k < rest.len() && rest[k] == c;
            assert(t[k + 1] == c);
        }
        lemma_reads_double(s, i + 1, rest);
    }
}

/// A text in double quotes is one word: it is that text, in which variables and commands are
/// still expanded and patterns and tildes are not.
pub proof fn law_double_quotes(t: Seq<char>)
    requires
        !t.contains('"'),
        !t.contains('\\'),
        !t.contains(LITERAL),
    ensures
        tokens_from(seq!['"'] + t + seq!['"'], 0) matches Ok(ts) && ts.len() == 1 && (
        ts[0] matches TokenView::Word(w) && unmarked(w) == t && is_double_read(w)),
{
    let s = seq!['"'] + t + seq!['"'];
    assert(s.subrange(1, s.len() - 1) =~= t);
    lemma_reads_double(s, 1, t);
    lemma_double_marked(t);
    let w = double_marked(t);
    let n = s.len() as int;
    assert(word_at(s, n) == Ok::<(Seq<char>, int), ErrorView>((Seq::empty(), n)));
    assert(w + Seq::<char>::empty() =~= w);
    assert(word_at(s, 0) == Ok::<(Seq<char>, int), ErrorView>((w, n)));
    assert(token_at(s, 0) == Ok::<(TokenView, int), ErrorView>((TokenView::Word(w), n)));
    assert(tokens_from(s, n) == Ok::<Seq<TokenView>, ErrorView>(Seq::empty()));
    assert(seq![TokenView::Word(w)] + Seq::<TokenView>::empty() =~= seq![TokenView::Word(w)]);
}

/// A backslash takes its meaning from the next character, whatever that is: it belongs to the
/// word and stands for itself.
pub proof fn law_backslash(c: char, b: Seq<char>)
    requires
        is_bare(b),
    ensures
        tokens_from(seq!['\\', c] + b, 0) == Ok::<Seq<TokenView>, ErrorView>(
            seq![TokenView::Word(seq![LITERAL, c] + b)],
        ),
        tokens_from(b + seq!['\\', c], 0) == Ok::<Seq<TokenView>, ErrorView>(
            seq![TokenView::Word(b + seq![LITERAL, c])],
        ),
{
    let s = seq!['\\', c] + b;
    let n = s.len() as int;
    assert forall|k: int| 2 <= k < n implies is_word_char(#[trigger] s[k]) by {
        assert(s[k] == b[k - 2]);
    }
    lemma_reads_bare(s, 2, n);
    assert(s.subrange(2, n) =~= b);
    let w = seq![LITERAL, c] + b;
    assert(word_at(s, 0) == Ok::<(Seq<char>, int), ErrorView>((w, n)));
    assert(token_at(s, 0) == Ok::<(TokenView, int), ErrorView>((TokenView::Word(w), n)));
    assert(tokens_from(s, n) == Ok::<Seq<TokenView>, ErrorView>(Seq::empty()));
    assert(seq![TokenView::Word(w)] + Seq::<TokenView>::empty() =~= seq![TokenView::Word(w)]);
    let u = b + seq!['\\', c];
    let m = b.len() as int;
    lemma_reads_bare_then(u, 0, m);
    assert(word_at(u, m + 2) == Ok::<(Seq<char>, int), ErrorView>((Seq::empty(), m + 2)));
    assert(u[m] == '\\');
    assert(seq![LITERAL, c] + Seq::<char>::empty() =~= seq![LITERAL, c]);
    assert(word_at(u, m) == Ok::<(Seq<char>, int), ErrorView>((seq![LITERAL, c], m + 2)));
    assert(u.subrange(0, m) =~= b);
    let x = b + seq![LITERAL, c];
    assert(word_at(u, 0) == Ok::<(Seq<char>, int), ErrorView>((x, m + 2)));
    assert(is_word_char(b[0]));
    assert(u[0] == b[0]);
    if m > 1 {
        assert(is_word_char(b[1]));
        assert(u[1] == b[1]);
    }
    assert(token_at(u, 0) == Ok::<(TokenView, int), ErrorView>((TokenView::Word(x), m + 2)));
    assert(tokens_from(u, m + 2) == Ok::<Seq<TokenView>, ErrorView>(Seq::empty()));
    assert(seq![TokenView::Word(x)] + Seq::<TokenView>::empty() =~= seq![TokenView::Word(x)]);
}

/// What is read behind bare characters is read behind them in the same word.
proof fn lemma_reads_bare_then(s: Seq<char>, i: int, e: int)
    requires
        0 <= i <= e <= s.len(),
        forall|k: int| i <= k < e ==> is_word_char(#[trigger] s[k]),
    ensures
        word_at(s, i) == after_reading(s.subrange(i, e), word_at(s, e)),
    decreases e - i,
{
    if i < e {
        assert(is_word_char(s[i]));
        lemma_reads_bare_then(s, i + 1, e);
        assert(word_at(s, i) == after_reading(seq![s[i]], word_at(s, i + 1)));
        if let Ok((w, j)) = word_at(s, e) {
            assert(seq![s[i]] + (s.subrange(i + 1, e) + w) =~= s.subrange(i, e) + w);
        }
    } else {
        assert(s.subrange(i, e) =~= Seq::empty());
        if let Ok((w, j)) = word_at(s, e) {
            assert(s.subrange(i, e) + w =~= w);
        }
    }
}

/// Inside double quotes a backslash takes a dollar sign, a double quote, a backslash or a
/// backtick literally; before any other character it stands for itself.
pub proof fn law_backslash_in_double_quotes(c: char)
    requires
        c != LITERAL,
    ensures
        tokens_from(seq!['"', '\\', c, '"'], 0) matches Ok(ts) && ts.len() == 1 && (
        ts[0] matches TokenView::Word(w) && unmarked(w) == if c == '$' || c == '"' || c == '\\' || c
            == '`' {
            seq![c]
        } else {
            seq!['\\', c]
        } && (c == '$' || c == '`' ==> w == seq![LITERAL, c])),
{
    let s = seq!['"', '\\', c, '"'];
    let n: int = 4;
    assert(double_quoted(s, 3) == Ok::<(Seq<char>, int), ErrorView>((Seq::empty(), 4)));
    assert(word_at(s, 4) == Ok::<(Seq<char>, int), ErrorView>((Seq::empty(), 4)));
    assert(tokens_from(s, 4) == Ok::<Seq<TokenView>, ErrorView>(Seq::empty()));
    let escaped = c == '$' || c == '"' || c == '\\' || c == '`';
    let g = c == '*' || c == '?' || c == '[' || c == '~';
    let w = if escaped {
        mark(c, true)
    } else {
        mark('\\', true) + mark(c, g)
    };
    lemma_unmarked_mark(c, true);
    lemma_unmarked_mark(c, g);
    lemma_unmarked_mark('\\', true);
    lemma_unmarked_concat(mark('\\', true), mark(c, g));
    assert(seq!['\\'] + seq![c] =~= seq!['\\', c]);
    if escaped {
        assert(w + Seq::<char>::empty() =~= w);
        assert(double_quoted(s, 1) == Ok::<(Seq<char>, int), ErrorView>((w, 4)));
    } else {
        assert(mark(c, g) + Seq::<char>::empty() =~= mark(c, g));
        assert(double_quoted(s, 2) == Ok::<(Seq<char>, int), ErrorView>((mark(c, g), 4)));
        assert(double_quoted(s, 1) == Ok::<(Seq<char>, int), ErrorView>((w, 4)));
    }
    assert(w + Seq::<char>::empty() =~= w);
    assert(word_at(s, 0) == Ok::<(Seq<char>, int), ErrorView>((w, 4)));
    assert(token_at(s, 0) == Ok::<(TokenView, int), ErrorView>((TokenView::Word(w), 4)));
    assert(seq![TokenView::Word(w)] + Seq::<TokenView>::empty() =~= seq![TokenView::Word(w)]);
}

// -- Lines that go on --

/// A text without quotes and backslashes.
pub open spec fn is_unquoted(a: Seq<char>) -> bool {
    forall|i: int| 0 <= i < a.len() ==> (#[trigger] a[i]) != '\'' && a[i] != '"' && a[i] != '\\'
}

proof fn lemma_state_plain(a: Seq<char>, b: Seq<char>)
    requires
        !quote_state(a).escape,
        forall|i: int|
            0 <= i < b.len() ==> {
                let c = #[trigger] b[i];
                if quote_state(a).single {
                    c != '\''
                } else if quote_state(a).double {
                    c != '"' && c != '\\'
                } else {
                    c != '\'' && c != '"' && c != '\\'
                }
            },
        !(quote_state(a).single && quote_state(a).double),
    ensures
        quote_state(a + b) == quote_state(a),
    decreases b.len(),
{
    if b.len() == 0 {
        assert(a + b =~= a);
    } else {
        let c = b.drop_last();
        assert((a + b).drop_last() =~= a + c);
        assert((a + b).last() == b.last());
        assert forall|i: int| 0 <= i < c.len() implies c[i] == b[i] by {}
        lemma_state_plain(a, c);
        assert(b[b.len() - 1] == b.last());
    }
}

proof fn lemma_state_push(a: Seq<char>, c: char)
    ensures
        quote_state(a + seq![c]) == ({
            let q = quote_state(a);
            if q.escape {
                QuoteState { escape: false, ..q }
            } else if c == '\\' && !q.single {
                QuoteState { escape: true, ..q }
            } else if c == '\'' && !q.double {
                QuoteState { single: !q.single, ..q }
            } else if c == '"' && !q.single {
                QuoteState { double: !q.double, ..q }
            } else {
                q
            }
        }),
{
    assert((a + seq![c]).drop_last() =~= a);
}

/// The text without its trailing white space starts as it does, up to a character that is none.
proof fn lemma_trim_keeps(s: Seq<char>, k: int)
    requires
        0 <= k < s.len(),
        !spec_is_whitespace(s[k]),
    ensures
        k < trim_back(s, true) <= s.len(),
    decreases s.len(),
{
    if spec_is_whitespace(s.last()) {
        assert(s.drop_last()[k] == s[k]);
        lemma_trim_keeps(s.drop_last(), k);
    }
    lemma_trim_back(s, true);
}

/// A line goes on while a quote is open.
pub proof fn law_open_quote_continues(a: Seq<char>, u: Seq<char>)
    requires
        is_unquoted(a),
    ensures
        !u.contains('\'') ==> continues(a + seq!['\''] + u),
        !u.contains('"') && !u.contains('\\') ==> continues(a + seq!['"'] + u),
{
    let e = Seq::<char>::empty();
    lemma_state_plain(e, a);
    assert(e + a =~= a);
    let k = a.len() as int;
    if !u.contains('\'') {
        let s = a + seq!['\''] + u;
        assert(s[k] == '\'');
        lemma_trim_keeps(s, k);
        let n = trim_back(s, true);
        let v = u.take(n - k - 1);
        assert(s.take(n) =~= a + seq!['\''] + v);
        lemma_state_push(a, '\'');
        assert forall|i: int| 0 <= i < v.len() implies (#[trigger] v[i]) != '\'' by {
            assert(v[i] == u[i]);
            assert(u.contains(u[i]));
        }
        lemma_state_plain(a + seq!['\''], v);
    }
    if !u.contains('"') && !u.contains('\\') {
        let s = a + seq!['"'] + u;
        assert(s[k] == '"');
        lemma_trim_keeps(s, k);
        let n = trim_back(s, true);
        let v = u.take(n - k - 1);
        assert(s.take(n) =~= a + seq!['"'] + v);
        lemma_state_push(a, '"');
        assert forall|i: int| 0 <= i < v.len() implies (#[trigger] v[i]) != '"' && v[i]
            != '\\' by {
            assert(v[i] == u[i]);
            assert(u.contains(u[i]));
        }
        lemma_state_plain(a + seq!['"'], v);
    }
}

/// A line that ends in `|`, `||` or `&&` goes on, whatever white space is behind it; one without
/// quotes, backslashes and these operators does not.
pub proof fn law_operator_continues(a: Seq<char>, b: Seq<char>)
    requires
        forall|i: int| 0 <= i < b.len() ==> spec_is_whitespace(#[trigger] b[i]),
    ensures
        continues(a + seq!['|'] + b),
        continues(a + seq!['&', '&'] + b),
        is_unquoted(a) && !a.contains('|') && !a.contains('&') ==> !continues(a + b),
{
    let k = a.len() as int;
    let s = a + seq!['|'] + b;
    assert(s[k] == '|');
    lemma_trimmed_behind(a + seq!['|'], b);
    assert(s.take(k + 1) =~= a + seq!['|']);
    let t = a + seq!['&', '&'] + b;
    lemma_trimmed_behind(a + seq!['&', '&'], b);
    assert(t.take(k + 2) =~= a + seq!['&', '&']);
    if is_unquoted(a) && !a.contains('|') && !a.contains('&') {
        let u = a + b;
        let n = trim_back(u, true);
        lemma_trim_back(u, true);
        if n > 0 {
            assert(n <= k) by {
                if n > k {
                    assert(u[n - 1] == b[n - 1 - k]);
                    assert(spec_is_whitespace(b[n - 1 - k]));
                }
            }
            let v = a.take(n);
            assert(u.take(n) =~= v);
            let e = Seq::<char>::empty();
            assert forall|i: int| 0 <= i < v.len() implies (#[trigger] v[i]) != '\'' && v[i] != '"'
                && v[i] != '\\' by {
                assert(v[i] == a[i]);
            }
            lemma_state_plain(e, v);
            assert(e + v =~= v);
            assert(a.contains(a[n - 1]));
        }
    }
}

proof fn lemma_trimmed_behind(a: Seq<char>, b: Seq<char>)
    requires
        a.len() > 0,
        !spec_is_whitespace(a.last()),
        forall|i: int| 0 <= i < b.len() ==> spec_is_whitespace(#[trigger] b[i]),
    ensures
        trim_back(a + b, true) == a.len(),
    decreases b.len(),
{
    let s = a + b;
    if b.len() == 0 {
        assert(s =~= a);
    } else {
        let c = b.drop_last();
        assert(s.drop_last() =~= a + c);
        assert(spec_is_whitespace(b[b.len() - 1]));
        assert forall|i: int| 0 <= i < c.len() implies spec_is_whitespace(#[trigger] c[i]) by {
            assert(c[i] == b[i]);
        }
        lemma_trimmed_behind(a, c);
    }
}

/// A line whose quotes are closed does not go on, whatever stands between them.
pub proof fn law_closed_quote_ends(a: Seq<char>, u: Seq<char>)
    requires
        is_unquoted(a),
    ensures
        !u.contains('\'') ==> !continues(a + seq!['\''] + u + seq!['\'']),
        !u.contains('"') && !u.contains('\\') ==> !continues(a + seq!['"'] + u + seq!['"']),
{
    let e = Seq::<char>::empty();
    lemma_state_plain(e, a);
    assert(e + a =~= a);
    if !u.contains('\'') {
        let o = a + seq!['\''];
        lemma_state_push(a, '\'');
        assert forall|i: int| 0 <= i < u.len() implies (#[trigger] u[i]) != '\'' by {
            assert(u.contains(u[i]));
        }
        lemma_state_plain(o, u);
        lemma_state_push(o + u, '\'');
        let s = o + u + seq!['\''];
        lemma_trimmed_behind(s, e);
        assert(s + e =~= s);
        assert(s.take(s.len() as int) =~= s);
        assert(s =~= a + seq!['\''] + u + seq!['\'']);
    }
    if !u.contains('"') && !u.contains('\\') {
        let o = a + seq!['"'];
        lemma_state_push(a, '"');
        assert forall|i: int| 0 <= i < u.len() implies (#[trigger] u[i]) != '"' && u[i]
            != '\\' by {
            assert(u.contains(u[i]));
        }
        lemma_state_plain(o, u);
        lemma_state_push(o + u, '"');
        let s = o + u + seq!['"'];
        lemma_trimmed_behind(s, e);
        assert(s + e =~= s);
        assert(s.take(s.len() as int) =~= s);
        assert(s =~= a + seq!['"'] + u + seq!['"']);
    }
}

proof fn lemma_ends(s: Seq<char>, a: char, b: char)
    requires
        s.len() > 0,
    ensures
        ends_with(s, seq![a]) == (s.last() == a),
        ends_with(s, seq![a, b]) == (s.len() >= 2 && s[s.len() - 2] == a && s.last() == b),
{
    let n = s.len() as int;
    assert(s.subrange(n - 1, n)[0] == s[n - 1]);
    assert(s.last() == a ==> s.subrange(n - 1, n) =~= seq![a]);
    if n >= 2 {
        assert(s.subrange(n - 2, n)[0] == s[n - 2]);
        assert(s.subrange(n - 2, n)[1] == s[n - 1]);
        assert(s[n - 2] == a && s.last() == b ==> s.subrange(n - 2, n) =~= seq![a, b]);
    }
}

/// Enter asks for more of a line where a quote is open, where it ends in a backslash, and where
/// it ends in `|`, `||` or `&&`: it does so of every line that goes on, and of no other but one
/// that a backslash ends.
pub proof fn law_enter_asks_for_more(s: Seq<char>)
    ensures
        continues(s) ==> line_continues(s),
        line_continues(s) && !continues(s) ==> quote_state(s.take(trim_back(s, true))).escape,
        is_unquoted(s) && s.len() > 0 && !spec_is_whitespace(s.last()) ==> line_continues(
            s + seq!['\\'],
        ),
{
    reveal_strlit("|");
    reveal_strlit("&&");
    reveal_strlit("||");
    assert("|"@ =~= seq!['|']);
    assert("&&"@ =~= seq!['&', '&']);
    assert("||"@ =~= seq!['|', '|']);
    let t = s.take(trim_back(s, true));
    if t.len() > 0 {
        lemma_ends(t, '|', '|');
        lemma_ends(t, '&', '&');
    }
    if is_unquoted(s) {
        let e = Seq::<char>::empty();
        lemma_state_plain(e, s);
        assert(e + s =~= s);
        lemma_state_push(s, '\\');
        let u = s + seq!['\\'];
        lemma_trimmed_behind(u, e);
        assert(u + e =~= u);
        assert(u.take(u.len() as int) =~= u);
    }
}

} // verus!
