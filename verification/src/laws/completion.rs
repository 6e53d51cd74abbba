//! What a completion puts on the line, and how the shell reads it.
use vstd::prelude::*;

use crate::candidates::quotes_escaped;
use crate::complete::{display_name, CompletionState};
use crate::completing::{
    lemma_word_scan, needs_quote, previewed, replacement, word_at_end, word_scan, ScanView,
};
use crate::error::ErrorView;
use crate::line::LineState;
use crate::parse::{
    after_reading, lemma_unmarked_concat, lemma_unmarked_mark, mark, single_quoted,
    spec_is_expandable, spec_is_meta, token_at, tokens_from, unmarked, word_at, LITERAL, TokenView,
};
use crate::text::starts_with;

verus! {

/// The path that a candidate stands for: where it was found, its name, and the mark of a
/// directory or a host behind it.
pub open spec fn candidate_text(state: CompletionState) -> Seq<char> {
    let e = state.comp@[state.selected as int];
    let path = state.dir_prefix@ + e.name;
    if e.is_dir {
        path.push('/')
    } else if e.is_host {
        path.push(':')
    } else {
        path
    }
}

/// A character that the shell would act on outside quotes.
pub open spec fn is_special(c: char) -> bool {
    c == ' ' || c == '\t' || c == '(' || c == ')' || c == '$' || c == '*' || c == '?' || c == '['
        || c == ']' || c == '|' || c == '&' || c == '>' || c == '<' || c == ';' || c == '#' || c
        == '\\' || c == '"' || c == '`' || c == '\''
}

pub open spec fn holds_special(s: Seq<char>) -> bool {
    exists|i: int| 0 <= i < s.len() && is_special(#[trigger] s[i])
}

/// A word is read as plain text: no expansion is asked for by any character of it but a tilde.
pub open spec fn is_plain(w: Seq<char>) -> bool {
    forall|i: int|
        0 <= i < w.len() && ((#[trigger] w[i]) == '$' || w[i] == '`' || w[i] == '*' || w[i] == '?'
            || w[i] == '[') ==> i > 0 && w[i - 1] == LITERAL
}

/// `t` with a marker before each character that stands for itself only so.
spec fn marked(t: Seq<char>) -> Seq<char>
    decreases t.len(),
{
    if t.len() == 0 {
        Seq::empty()
    } else {
        mark(t[0], t[0] == '\'' || spec_is_expandable(t[0])) + marked(t.drop_first())
    }
}

proof fn lemma_marked(t: Seq<char>)
    requires
        !t.contains(LITERAL),
    ensures
        unmarked(marked(t)) == t,
        is_plain(marked(t)),
    decreases t.len(),
{
    if t.len() > 0 {
        let c = t[0];
        let m = mark(c, c == '\'' || spec_is_expandable(c));
        let rest = t.drop_first();
        assert(t.contains(t[0]));
        assert(!rest.contains(LITERAL)) by {
            if rest.contains(LITERAL) {
                let k = choose|k: int| 0 <= k < rest.len() && rest[k] == LITERAL;
                assert(t[k + 1] == LITERAL);
            }
        }
        lemma_marked(rest);
        lemma_unmarked_concat(m, marked(rest));
        lemma_unmarked_mark(c, c == '\'' || spec_is_expandable(c));
        assert(seq![c] + rest =~= t);
        let w = m + marked(rest);
        let n = m.len() as int;
        assert forall|i: int|
            0 <= i < w.len() && ((#[trigger] w[i]) == '$' || w[i] == '`' || w[i] == '*' || w[i]
                == '?' || w[i] == '[') implies i > 0 && w[i - 1] == LITERAL by {
            if i >= n {
                assert(w[i] == marked(rest)[i - n]);
                if i > n {
                    assert(w[i - 1] == marked(rest)[i - n - 1]);
                }
            }
        }
    }
}

proof fn lemma_escaped_concat(a: Seq<char>, b: Seq<char>)
    ensures
        quotes_escaped(a + b) == quotes_escaped(a) + quotes_escaped(b),
    decreases b.len(),
{
    if b.len() == 0 {
        assert(a + b =~= a);
        assert(quotes_escaped(a) + quotes_escaped(b) =~= quotes_escaped(a));
    } else {
        lemma_escaped_concat(a, b.drop_last());
        assert((a + b).drop_last() =~= a + b.drop_last());
        assert((a + b).last() == b.last());
        assert(quotes_escaped(a + b) =~= quotes_escaped(a) + quotes_escaped(b));
    }
}

pub proof fn lemma_escaped_front(t: Seq<char>)
    requires
        t.len() > 0,
    ensures
        quotes_escaped(t) == (if t[0] == '\'' {
            seq!['\'', '\\', '\'', '\'']
        } else {
            seq![t[0]]
        }) + quotes_escaped(t.drop_first()),
{
    let h = seq![t[0]];
    assert(h + t.drop_first() =~= t);
    lemma_escaped_concat(h, t.drop_first());
    assert(h.drop_last() =~= Seq::<char>::empty());
    reveal_with_fuel(quotes_escaped, 2);
    reveal_strlit("'\\''");
    if t[0] == '\'' {
        assert(quotes_escaped(h) =~= seq!['\'', '\\', '\'', '\'']);
    } else {
        assert(quotes_escaped(h) =~= h);
    }
}

/// What is read from inside single quotes to the end of the word.
spec fn read_open(s: Seq<char>, i: int) -> Result<(Seq<char>, int), ErrorView> {
    match single_quoted(s, i) {
        Err(e) => Err(e),
        Ok((w, j)) => after_reading(w, word_at(s, j)),
    }
}

proof fn lemma_reads_escaped(s: Seq<char>, i: int, t: Seq<char>)
    requires
        0 <= i,
        s.len() == i + quotes_escaped(t).len() + 1,
        s.subrange(i, s.len() - 1) == quotes_escaped(t),
        s.last() == '\'',
    ensures
        read_open(s, i) == Ok::<(Seq<char>, int), ErrorView>((marked(t), s.len() as int)),
    decreases t.len(),
{
    let q = quotes_escaped(t);
    if t.len() == 0 {
        assert(single_quoted(s, i) == Ok::<(Seq<char>, int), ErrorView>((Seq::empty(), i + 1)));
        assert(word_at(s, i + 1) == Ok::<(Seq<char>, int), ErrorView>((Seq::empty(), i + 1)));
        assert(Seq::<char>::empty() + Seq::<char>::empty() =~= marked(t));
    } else {
        lemma_escaped_front(t);
        let rest = t.drop_first();
        let r = quotes_escaped(rest);
        assert(s[i] == q[0]) by {
            assert(s.subrange(i, s.len() - 1)[0] == s[i]);
        }
        if t[0] == '\'' {
            assert(s[i + 1] == q[1]) by {
                assert(s.subrange(i, s.len() - 1)[1] == s[i + 1]);
            }
            assert(s[i + 2] == q[2]) by {
                assert(s.subrange(i, s.len() - 1)[2] == s[i + 2]);
            }
            assert(s[i + 3] == q[3]) by {
                assert(s.subrange(i, s.len() - 1)[3] == s[i + 3]);
            }
            assert(s.subrange(i + 4, s.len() - 1) =~= r) by {
                assert(s.subrange(i, s.len() - 1).skip(4) =~= s.subrange(i + 4, s.len() - 1));
                assert(q.skip(4) =~= r);
            }
            lemma_reads_escaped(s, i + 4, rest);
            assert(single_quoted(s, i) == Ok::<(Seq<char>, int), ErrorView>(
                (Seq::empty(), i + 1),
            ));
            assert(word_at(s, i + 3) == read_open(s, i + 4));
            assert(word_at(s, i + 1) == after_reading(mark('\'', true), word_at(s, i + 3)));
            assert(Seq::<char>::empty() + (mark('\'', true) + marked(rest)) =~= marked(t));
        } else {
            assert(s.subrange(i + 1, s.len() - 1) =~= r) by {
                assert(s.subrange(i, s.len() - 1).skip(1) =~= s.subrange(i + 1, s.len() - 1));
                assert(q.skip(1) =~= r);
            }
            lemma_reads_escaped(s, i + 1, rest);
            let m = mark(s[i], spec_is_expandable(s[i]));
            assert(single_quoted(s, i) == after_reading(m, single_quoted(s, i + 1)));
            if let Ok((w, j)) = single_quoted(s, i + 1) {
                if let Ok((x, k)) = word_at(s, j) {
                    assert((m + w) + x =~= m + (w + x));
                }
            }
        }
    }
}

/// A text without special characters is read as it stands.
proof fn lemma_reads_plain(s: Seq<char>, i: int)
    requires
        0 <= i <= s.len(),
        forall|k: int| i <= k < s.len() ==> !is_special(#[trigger] s[k]) && s[k] != '\n',
    ensures
        word_at(s, i) == Ok::<(Seq<char>, int), ErrorView>((s.skip(i), s.len() as int)),
    decreases s.len() - i,
{
    if i < s.len() {
        assert(!is_special(s[i]));
        lemma_reads_plain(s, i + 1);
        assert(word_at(s, i) == after_reading(seq![s[i]], word_at(s, i + 1)));
        assert(seq![s[i]] + s.skip(i + 1) =~= s.skip(i));
    } else {
        assert(s.skip(i) =~= Seq::empty());
    }
}

proof fn lemma_one_word(s: Seq<char>, k: int, w: Seq<char>)
    requires
        0 <= k < s.len(),
        word_at(s, k) == Ok::<(Seq<char>, int), ErrorView>((w, s.len() as int)),
        !spec_is_meta(s[k]),
        s[k] == '2' && k + 1 < s.len() ==> s[k + 1] != '>',
    ensures
        tokens_from(s, k) == Ok::<Seq<TokenView>, ErrorView>(seq![TokenView::Word(w)]),
{
    assert(token_at(s, k) == Ok::<(TokenView, int), ErrorView>(
        (TokenView::Word(w), s.len() as int),
    ));
    assert(tokens_from(s, s.len() as int) == Ok::<Seq<TokenView>, ErrorView>(Seq::empty()));
    assert(seq![TokenView::Word(w)] + Seq::<TokenView>::empty() =~= seq![TokenView::Word(w)]);
}

/// The text is read as one word.
pub open spec fn read_as_one_word(s: Seq<char>, k: int, text: Seq<char>) -> bool {
    match tokens_from(s, k) {
        Ok(ts) => ts.len() == 1 && (ts[0] matches TokenView::Word(w) && unmarked(w) == text
            && is_plain(w)),
        Err(_) => false,
    }
}

proof fn lemma_inner(state: CompletionState)
    requires
        state.selected < state.comp@.len(),
    ensures
        state.dir_prefix@ + display_name(state.comp@[state.selected as int]) == candidate_text(
            state,
        ),
{
    reveal_strlit("/");
    reveal_strlit(":");
    let e = state.comp@[state.selected as int];
    assert(state.dir_prefix@ + display_name(e) =~= candidate_text(state));
}

proof fn lemma_unquoted(text: Seq<char>)
    ensures
        holds_special(text) == ((exists|i: int| 0 <= i < text.len() && needs_quote(#[trigger] text[i]))
            || text.contains('\'')),
{
    if holds_special(text) {
        let i = choose|i: int| 0 <= i < text.len() && is_special(#[trigger] text[i]);
        assert(needs_quote(text[i]) || text[i] == '\'');
    }
    if exists|i: int| 0 <= i < text.len() && needs_quote(#[trigger] text[i]) {
        let i = choose|i: int| 0 <= i < text.len() && needs_quote(#[trigger] text[i]);
        assert(is_special(text[i]));
    }
    if text.contains('\'') {
        let i = choose|i: int| 0 <= i < text.len() && text[i] == '\'';
        assert(is_special(text[i]));
    }
}

/// What is read of a text that was put in quotes.
/// A text in single quotes, with each of its own written outside them, is read as one word.
pub proof fn lemma_reads_single(head: Seq<char>, text: Seq<char>)
    requires
        !text.contains(LITERAL),
    ensures
        read_as_one_word(
            head + seq!['\''] + quotes_escaped(text) + seq!['\''],
            head.len() as int,
            text,
        ),
{
    let q = quotes_escaped(text);
    let k = head.len() as int;
    let s = head + seq!['\''] + q + seq!['\''];
    assert(s[k] == '\'');
    assert(s.subrange(k + 1, s.len() - 1) =~= q);
    assert(s.last() == '\'');
    lemma_reads_escaped(s, k + 1, text);
    assert(word_at(s, k) == read_open(s, k + 1));
    lemma_one_word(s, k, marked(text));
    lemma_marked(text);
}

proof fn lemma_reads_quoted(head: Seq<char>, text: Seq<char>)
    requires
        !text.contains(LITERAL),
    ensures
        read_as_one_word(
            head + crate::completing::single_quoted(text),
            head.len() as int,
            text,
        ),
{
    reveal_strlit("~/");
    reveal_strlit("~/'");
    reveal_strlit("'");
    let q = quotes_escaped(text);
    let k = head.len() as int;
    let r = crate::completing::single_quoted(text);
    let s = head + r;
    if starts_with(q, "~/"@) {
        assert(q.subrange(0, 2) =~= "~/"@);
        assert(q[0] == '~') by {
            assert(q.subrange(0, 2)[0] == q[0]);
            assert("~/"@[0] == '~');
        }
        assert(q[1] == '/') by {
            assert(q.subrange(0, 2)[1] == q[1]);
            assert("~/"@[1] == '/');
        }
        assert(text.len() > 0) by {
            if text.len() == 0 {
                assert(q.len() == 0);
            }
        }
        lemma_escaped_front(text);
        assert(text[0] == '~');
        let t1 = text.drop_first();
        assert(q.drop_first() =~= quotes_escaped(t1));
        assert(t1.len() > 0) by {
            if t1.len() == 0 {
                assert(quotes_escaped(t1).len() == 0);
            }
        }
        lemma_escaped_front(t1);
        assert(quotes_escaped(t1)[0] == '/') by {
            assert(q.drop_first()[0] == q[1]);
        }
        assert(t1[0] == '/');
        let t2 = t1.drop_first();
        assert(q.skip(2) =~= quotes_escaped(t2)) by {
            assert(q.skip(2) =~= q.drop_first().drop_first());
            assert(quotes_escaped(t1).drop_first() =~= quotes_escaped(t2));
        }
        assert(r =~= seq!['~', '/', '\''] + quotes_escaped(t2) + seq!['\'']);
        assert(s[k] == '~' && s[k + 1] == '/' && s[k + 2] == '\'');
        assert(s.subrange(k + 3, s.len() - 1) =~= quotes_escaped(t2));
        assert(s.last() == '\'');
        lemma_reads_escaped(s, k + 3, t2);
        let m = marked(t2);
        assert(word_at(s, k + 2) == read_open(s, k + 3));
        assert(word_at(s, k + 1) == after_reading(seq!['/'], word_at(s, k + 2)));
        assert(word_at(s, k) == after_reading(seq!['~'], word_at(s, k + 1)));
        let w = seq!['~'] + (seq!['/'] + m);
        lemma_one_word(s, k, w);
        assert(!t2.contains(LITERAL)) by {
            if t2.contains(LITERAL) {
                let i = choose|i: int| 0 <= i < t2.len() && t2[i] == LITERAL;
                assert(text[i + 2] == LITERAL);
            }
        }
        lemma_marked(t2);
        lemma_unmarked_concat(seq!['~'], seq!['/'] + m);
        lemma_unmarked_concat(seq!['/'], m);
        lemma_unmarked_mark('~', false);
        lemma_unmarked_mark('/', false);
        assert(seq!['~'] + (seq!['/'] + t2) =~= text);
        assert forall|i: int|
            0 <= i < w.len() && ((#[trigger] w[i]) == '$' || w[i] == '`' || w[i] == '*' || w[i]
                == '?' || w[i] == '[') implies i > 0 && w[i - 1] == LITERAL by {
            assert(i >= 2);
            assert(w[i] == m[i - 2]);
            if i > 2 {
                assert(w[i - 1] == m[i - 3]);
            }
        }
    } else {
        assert(r =~= seq!['\''] + q + seq!['\'']);
        assert(s[k] == '\'');
        assert(s.subrange(k + 1, s.len() - 1) =~= q);
        assert(s.last() == '\'');
        lemma_reads_escaped(s, k + 1, text);
        assert(word_at(s, k) == read_open(s, k + 1));
        lemma_one_word(s, k, marked(text));
        lemma_marked(text);
    }
}

/// A completion is read back by the shell as exactly one word, which is the path that the
/// candidate stands for: whatever characters its name holds, none of them splits the word, ends
/// the command or is expanded, but for a tilde at its front.
pub proof fn law_completion_is_one_word(line: LineState, state: CompletionState, base: LineState)
    requires
        state.selected < state.comp@.len(),
        candidate_text(state).len() > 0 || state.in_quote,
        !candidate_text(state).contains(LITERAL),
        !candidate_text(state).contains('\n'),
        state.in_quote || state.dir_prefix@ != seq!['$'],
    ensures
        read_as_one_word(
            previewed(line, state, base).before,
            word_at_end(base.before).start,
            candidate_text(state),
        ),
{
    let text = candidate_text(state);
    let k = word_at_end(base.before).start;
    let head = base.before.take(k);
    let e = state.comp@[state.selected as int];
    lemma_inner(state);
    lemma_word_scan(base.before, 0, ScanView { single: false, double: false, start: 0 });
    lemma_unquoted(text);
    reveal_strlit("$");
    assert("$"@ =~= seq!['$']);
    let s = previewed(line, state, base).before;
    assert(head.len() == k);
    if state.in_quote || holds_special(text) {
        lemma_reads_quoted(head, text);
    } else {
        assert(replacement(state.dir_prefix@, e, false) == text);
        assert(s =~= head + text);
        assert forall|i: int| k <= i < s.len() implies !is_special(#[trigger] s[i]) && s[i]
            != '\n' by {
            assert(s[i] == text[i - k]);
            assert(text.contains(text[i - k]));
        }
        lemma_reads_plain(s, k);
        assert(s.skip(k) =~= text);
        assert(!is_special(s[k]));
        if k + 1 < s.len() {
            assert(!is_special(s[k + 1]));
        }
        lemma_one_word(s, k, text);
        lemma_unmarked_plain(text);
        assert(is_plain(text)) by {
            assert forall|i: int|
                0 <= i < text.len() && ((#[trigger] text[i]) == '$' || text[i] == '`' || text[i]
                    == '*' || text[i] == '?' || text[i] == '[') implies i > 0 && text[i - 1]
                == LITERAL by {
                assert(is_special(text[i]));
            }
        }
    }
}

proof fn lemma_unmarked_plain(t: Seq<char>)
    requires
        !t.contains(LITERAL),
    ensures
        unmarked(t) == t,
    decreases t.len(),
{
    if t.len() > 0 {
        let r = t.drop_last();
        assert(t.contains(t.last()));
        assert(!r.contains(LITERAL)) by {
            if r.contains(LITERAL) {
                let i = choose|i: int| 0 <= i < r.len() && r[i] == LITERAL;
                assert(t[i] == LITERAL);
            }
        }
        lemma_unmarked_plain(r);
        assert(r.push(t.last()) =~= t);
    }
}

/// A path with a special character stands in single quotes, with `~/` before them where it starts
/// so; one without stands as it is, unless the word was quoted before. The name of a variable
/// stands behind its `$` as it is.
pub proof fn law_special_names_are_quoted(line: LineState, state: CompletionState, base: LineState)
    requires
        state.selected < state.comp@.len(),
    ensures
        ({
            let text = candidate_text(state);
            let put = previewed(line, state, base).before.skip(word_at_end(base.before).start);
            let variable = state.dir_prefix@ == seq!['$'];
            &&& state.in_quote || !variable && holds_special(text) ==> put.len() >= 2 && put.last()
                == '\'' && (put[0] == '\'' || put.len() >= 4 && put[0] == '~' && put[1] == '/'
                && put[2] == '\'')
            &&& !state.in_quote && (variable || !holds_special(text)) ==> put == text
        }),
{
    reveal_strlit("~/");
    reveal_strlit("~/'");
    reveal_strlit("'");
    reveal_strlit("$");
    let text = candidate_text(state);
    let k = word_at_end(base.before).start;
    let e = state.comp@[state.selected as int];
    lemma_inner(state);
    lemma_word_scan(base.before, 0, ScanView { single: false, double: false, start: 0 });
    lemma_unquoted(text);
    assert("$"@ =~= seq!['$']);
    assert("~/'"@ =~= seq!['~', '/', '\'']);
    let s = previewed(line, state, base).before;
    assert(s.skip(k) =~= replacement(state.dir_prefix@, e, state.in_quote));
}

/// A completion changes nothing but the word before the cursor: what stands before that word, and
/// what stands behind the cursor, stay.
pub proof fn law_completion_keeps_rest(line: LineState, state: CompletionState, base: LineState)
    ensures
        ({
            let r = previewed(line, state, base);
            let k = word_at_end(base.before).start;
            &&& 0 <= k <= base.before.len()
            &&& r.after == base.after
            &&& state.selected < state.comp@.len() ==> k <= r.before.len() && r.before.take(k)
                == base.before.take(k)
            &&& state.selected >= state.comp@.len() ==> r == base
        }),
{
    lemma_word_scan(base.before, 0, ScanView { single: false, double: false, start: 0 });
    let k = word_at_end(base.before).start;
    let r = previewed(line, state, base);
    assert(state.selected < state.comp@.len() ==> r.before.take(k) =~= base.before.take(k));
}

/// The word that is completed starts behind the last blank, where nothing is quoted.
pub proof fn law_word_starts_behind_blank(a: Seq<char>, b: Seq<char>)
    requires
        a.len() == 0 || a.last() == ' ' || a.last() == '\t' || a.last() == '\n',
        forall|i: int|
            0 <= i < a.len() ==> (#[trigger] a[i]) != '\'' && a[i] != '"' && a[i] != '\\',
        forall|i: int|
            0 <= i < b.len() ==> (#[trigger] b[i]) != '\'' && b[i] != '"' && b[i] != '\\' && b[i]
                != ' ' && b[i] != '\t' && b[i] != '\n',
    ensures
        word_at_end(a + b).start == a.len(),
        !word_at_end(a + b).single,
        !word_at_end(a + b).double,
{
    lemma_scan_plain(a, b, 0, 0);
}

proof fn lemma_scan_plain(a: Seq<char>, b: Seq<char>, i: int, from: int)
    requires
        0 <= i <= a.len() + b.len(),
        a.len() == 0 || a.last() == ' ' || a.last() == '\t' || a.last() == '\n',
        forall|i: int|
            0 <= i < a.len() ==> (#[trigger] a[i]) != '\'' && a[i] != '"' && a[i] != '\\',
        forall|i: int|
            0 <= i < b.len() ==> (#[trigger] b[i]) != '\'' && b[i] != '"' && b[i] != '\\' && b[i]
                != ' ' && b[i] != '\t' && b[i] != '\n',
        i >= a.len() ==> from == a.len(),
    ensures
        word_scan(a + b, i, ScanView { single: false, double: false, start: from }) == (ScanView {
            single: false,
            double: false,
            start: a.len() as int,
        }),
    decreases a.len() + b.len() - i,
{
    let s = a + b;
    if i < s.len() {
        if i < a.len() {
            assert(s[i] == a[i]);
            if a[i] == ' ' || a[i] == '\t' || a[i] == '\n' {
                lemma_scan_plain(a, b, i + 1, i + 1);
            } else {
                assert(i + 1 < a.len());
                lemma_scan_plain(a, b, i + 1, from);
            }
        } else {
            assert(s[i] == b[i - a.len()]);
            lemma_scan_plain(a, b, i + 1, from);
        }
    }
}

/// A word that starts with a single quote which is not closed starts at that quote, though it
/// holds blanks.
pub proof fn law_word_starts_at_quote(a: Seq<char>, b: Seq<char>)
    requires
        a.len() == 0 || a.last() == ' ' || a.last() == '\t' || a.last() == '\n',
        forall|i: int|
            0 <= i < a.len() ==> (#[trigger] a[i]) != '\'' && a[i] != '"' && a[i] != '\\',
        forall|i: int| 0 <= i < b.len() ==> (#[trigger] b[i]) != '\'',
    ensures
        word_at_end(a + seq!['\''] + b).start == a.len(),
        word_at_end(a + seq!['\''] + b).single,
{
    let s = a + seq!['\''] + b;
    lemma_scan_head(a, seq!['\''] + b, 0, 0);
    assert(a + (seq!['\''] + b) =~= s);
    assert(s[a.len() as int] == '\'');
    lemma_scan_open(s, a.len() as int + 1, a.len() as int);
}

proof fn lemma_scan_head(a: Seq<char>, b: Seq<char>, i: int, from: int)
    requires
        0 <= i <= a.len(),
        a.len() == 0 || a.last() == ' ' || a.last() == '\t' || a.last() == '\n',
        forall|i: int|
            0 <= i < a.len() ==> (#[trigger] a[i]) != '\'' && a[i] != '"' && a[i] != '\\',
        i == a.len() ==> from == a.len(),
    ensures
        word_scan(a + b, i, ScanView { single: false, double: false, start: from }) == word_scan(
            a + b,
            a.len() as int,
            ScanView { single: false, double: false, start: a.len() as int },
        ),
    decreases a.len() - i,
{
    let s = a + b;
    if i < a.len() {
        assert(s[i] == a[i]);
        if a[i] == ' ' || a[i] == '\t' || a[i] == '\n' {
            lemma_scan_head(a, b, i + 1, i + 1);
        } else {
            assert(i + 1 < a.len());
            lemma_scan_head(a, b, i + 1, from);
        }
    }
}

proof fn lemma_scan_open(s: Seq<char>, i: int, from: int)
    requires
        0 <= i <= s.len(),
        forall|k: int| i <= k < s.len() ==> s[k] != '\'',
    ensures
        word_scan(s, i, ScanView { single: true, double: false, start: from }) == (ScanView {
            single: true,
            double: false,
            start: from,
        }),
    decreases s.len() - i,
{
    if i < s.len() {
        lemma_scan_open(s, i + 1, from);
    }
}

} // verus!
