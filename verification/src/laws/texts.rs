//! How texts are taken apart and put together.
use vstd::prelude::*;

use crate::text::{
    first_word, index_from, joined, lemma_index_from, lex_le, lines, lines_from, span_front,
    spec_is_whitespace, split, split_from, trim_back, trimmed, words,
};

verus! {

/// A text of white space alone.
pub open spec fn is_blank(s: Seq<char>) -> bool {
    forall|i: int| 0 <= i < s.len() ==> spec_is_whitespace(#[trigger] s[i])
}

/// A text without white space.
pub open spec fn is_word(s: Seq<char>) -> bool {
    s.len() > 0 && forall|i: int| 0 <= i < s.len() ==> !spec_is_whitespace(#[trigger] s[i])
}

/// A text that starts and ends with something else than white space.
pub open spec fn is_trim(s: Seq<char>) -> bool {
    s.len() > 0 && !spec_is_whitespace(s[0]) && !spec_is_whitespace(s.last())
}

pub proof fn lemma_span_is(a: Seq<char>, b: Seq<char>, ws: bool)
    requires
        forall|i: int| 0 <= i < a.len() ==> spec_is_whitespace(#[trigger] a[i]) == ws,
        b.len() == 0 || spec_is_whitespace(b[0]) != ws,
    ensures
        span_front(a + b, ws) == a.len(),
    decreases a.len(),
{
    let s = a + b;
    if a.len() > 0 {
        let r = a.drop_first();
        assert(s[0] == a[0]);
        assert(s.drop_first() =~= r + b);
        assert forall|i: int| 0 <= i < r.len() implies spec_is_whitespace(#[trigger] r[i])
            == ws by {
            assert(r[i] == a[i + 1]);
        }
        lemma_span_is(r, b, ws);
    } else {
        assert(s =~= b);
    }
}

pub proof fn lemma_trim_back_is(a: Seq<char>, b: Seq<char>)
    requires
        a.len() == 0 || !spec_is_whitespace(a.last()),
        is_blank(b),
    ensures
        trim_back(a + b, true) == a.len(),
    decreases b.len(),
{
    let s = a + b;
    if b.len() == 0 {
        assert(s =~= a);
    } else {
        let c = b.drop_last();
        assert(s.drop_last() =~= a + c);
        assert(spec_is_whitespace(b[b.len() - 1]));
        assert forall|i: int| 0 <= i < c.len() implies spec_is_whitespace(#[trigger] c[i]) by {
            assert(c[i] == b[i]);
        }
        lemma_trim_back_is(a, c);
    }
}

/// Trimming takes the white space off both ends, and nothing else.
pub proof fn law_trimmed(a: Seq<char>, t: Seq<char>, b: Seq<char>)
    requires
        is_blank(a),
        is_blank(b),
        is_trim(t) || t.len() == 0,
    ensures
        trimmed(a + t + b) == t,
{
    let s = a + t + b;
    if t.len() > 0 {
        lemma_trim_back_is(a + t, b);
        assert(s.take((a + t).len() as int) =~= a + t);
        lemma_span_is(a, t, true);
        assert((a + t).skip(a.len() as int) =~= t);
    } else {
        assert(a + t =~= a);
        let e = Seq::<char>::empty();
        assert(is_blank(a + b)) by {
            assert forall|i: int| 0 <= i < (a + b).len() implies spec_is_whitespace(
                #[trigger] (a + b)[i],
            ) by {
                if i < a.len() {
                    assert((a + b)[i] == a[i]);
                } else {
                    assert((a + b)[i] == b[i - a.len()]);
                }
            }
        }
        lemma_trim_back_is(e, a + b);
        assert(e + (a + b) =~= s);
        assert(s.take(0) =~= e);
        assert(e.skip(span_front(e, true)) =~= t);
    }
}

/// The first word of a text stands behind its leading white space and ends before the next; the
/// other words follow in the same way.
pub proof fn law_words(a: Seq<char>, w: Seq<char>, rest: Seq<char>)
    requires
        is_blank(a),
        is_word(w),
        rest.len() == 0 || spec_is_whitespace(rest[0]),
    ensures
        first_word(a + w + rest) == w,
        words(a + w + rest) == seq![w] + words(rest),
        words(a).len() == 0,
{
    let s = a + w + rest;
    assert(s =~= a + (w + rest));
    assert((w + rest)[0] == w[0]);
    lemma_span_is(a, w + rest, true);
    let t = s.skip(a.len() as int);
    assert(t =~= w + rest);
    lemma_span_is(w, rest, false);
    assert(t.take(w.len() as int) =~= w);
    assert(t.skip(w.len() as int) =~= rest);
    let e = Seq::<char>::empty();
    lemma_span_is(a, e, true);
    assert(a + e =~= a);
    assert(a.skip(a.len() as int) =~= e);
}

proof fn lemma_index_is(s: Seq<char>, c: char, i: int, k: int)
    requires
        0 <= i <= k <= s.len(),
        forall|j: int| i <= j < k ==> s[j] != c,
        k < s.len() ==> s[k] == c,
    ensures
        index_from(s, c, i) == k,
    decreases k - i,
{
    if i < k {
        lemma_index_is(s, c, i + 1, k);
    }
}

proof fn lemma_split_shift(a: Seq<char>, b: Seq<char>, c: char, i: int)
    requires
        0 <= i <= b.len(),
    ensures
        split_from(a + b, c, a.len() + i) == split_from(b, c, i),
    decreases b.len() - i,
{
    let s = a + b;
    let n = a.len() as int;
    lemma_index_from(b, c, i);
    let k = index_from(b, c, i);
    assert(k < b.len() ==> s[n + k] == c);
    assert forall|j: int| n + i <= j < n + k implies s[j] != c by {
        assert(s[j] == b[j - n]);
    }
    lemma_index_is(s, c, n + i, n + k);
    if k < b.len() {
        lemma_split_shift(a, b, c, k + 1);
        assert(s.subrange(n + i, n + k) =~= b.subrange(i, k));
    } else {
        assert(s.skip(n + i) =~= b.skip(i));
    }
}

/// A text is split at each separator: what stands before the first one is the first part, and the
/// rest is split in the same way.
pub proof fn law_split(a: Seq<char>, c: char, b: Seq<char>)
    requires
        !a.contains(c),
    ensures
        split(a + seq![c] + b, c) == seq![a] + split(b, c),
        split(a, c) == seq![a],
{
    let s = a + seq![c] + b;
    let n = a.len() as int;
    assert forall|j: int| 0 <= j < n implies s[j] != c by {
        assert(s[j] == a[j]);
        assert(a.contains(a[j]));
    }
    assert(s[n] == c);
    lemma_index_is(s, c, 0, n);
    assert(s.subrange(0, n) =~= a);
    lemma_split_shift(a + seq![c], b, c, 0);
    assert(s =~= (a + seq![c]) + b);
    assert forall|j: int| 0 <= j < n implies a[j] != c by {
        assert(a.contains(a[j]));
    }
    lemma_index_is(a, c, 0, n);
    assert(a.skip(0) =~= a);
}

proof fn lemma_lines_shift(a: Seq<char>, b: Seq<char>, i: int)
    requires
        0 <= i <= b.len(),
    ensures
        lines_from(a + b, a.len() + i) == lines_from(b, i),
    decreases b.len() - i,
{
    let s = a + b;
    let n = a.len() as int;
    lemma_index_from(b, '\n', i);
    let k = index_from(b, '\n', i);
    assert forall|j: int| n + i <= j < n + k implies s[j] != '\n' by {
        assert(s[j] == b[j - n]);
    }
    assert(k < b.len() ==> s[n + k] == '\n');
    lemma_index_is(s, '\n', n + i, n + k);
    if i < b.len() {
        if k < b.len() {
            lemma_lines_shift(a, b, k + 1);
            if k > i {
                assert(s[n + k - 1] == b[k - 1]);
            }
            assert(s.subrange(n + i, n + k) =~= b.subrange(i, k));
            if k > i {
                assert(s.subrange(n + i, n + k - 1) =~= b.subrange(i, k - 1));
            }
        } else {
            assert(s.skip(n + i) =~= b.skip(i));
        }
    }
}

/// A newline ends a line, a carriage return before it too; the last line needs none.
pub proof fn law_lines(a: Seq<char>, b: Seq<char>)
    requires
        !a.contains('\n'),
        a.len() == 0 || a.last() != '\r',
    ensures
        lines(a + seq!['\n'] + b) == seq![a] + lines(b),
        lines(a + seq!['\r', '\n'] + b) == seq![a] + lines(b),
        a.len() > 0 ==> lines(a) == seq![a],
        lines(Seq::empty()).len() == 0,
{
    let n = a.len() as int;
    assert forall|j: int| 0 <= j < n implies a[j] != '\n' by {
        assert(a.contains(a[j]));
    }
    lemma_index_is(a, '\n', 0, n);
    assert(a.skip(0) =~= a);
    let s = a + seq!['\n'] + b;
    assert forall|j: int| 0 <= j < n implies s[j] != '\n' by {
        assert(s[j] == a[j]);
    }
    assert(s[n] == '\n');
    lemma_index_is(s, '\n', 0, n);
    if n > 0 {
        assert(s[n - 1] == a[n - 1]);
    }
    assert(s.subrange(0, n) =~= a);
    lemma_lines_shift(a + seq!['\n'], b, 0);
    assert(s =~= (a + seq!['\n']) + b);
    let t = a + seq!['\r', '\n'] + b;
    assert forall|j: int| 0 <= j < n + 1 implies t[j] != '\n' by {
        if j < n {
            assert(t[j] == a[j]);
        }
    }
    assert(t[n] == '\r' && t[n + 1] == '\n');
    lemma_index_is(t, '\n', 0, n + 1);
    assert(t.subrange(0, n) =~= a);
    lemma_lines_shift(a + seq!['\r', '\n'], b, 0);
    assert(t =~= (a + seq!['\r', '\n']) + b);
}

/// Joined parts stand one behind the other with the separator between each two, so that a
/// further part adds itself behind a separator.
pub proof fn law_joined(parts: Seq<Seq<char>>, sep: Seq<char>, p: Seq<char>)
    ensures
        joined(Seq::empty(), sep).len() == 0,
        joined(seq![p], sep) == p,
        parts.len() > 0 ==> joined(parts.push(p), sep) == joined(parts, sep) + sep + p,
{
    assert(parts.push(p).drop_last() =~= parts);
}

/// The first place at which two texts differ decides which comes first; a text comes before one
/// that it starts.
pub proof fn law_order_of_texts(a: Seq<char>, c: char, x: Seq<char>, d: char, y: Seq<char>)
    ensures
        (c as u32) < (d as u32) ==> lex_le(a + seq![c] + x, a + seq![d] + y) && !lex_le(
            a + seq![d] + y,
            a + seq![c] + x,
        ),
        lex_le(a, a + x),
        x.len() > 0 ==> !lex_le(a + x, a),
    decreases a.len(),
{
    let p = a + seq![c] + x;
    let q = a + seq![d] + y;
    if a.len() > 0 {
        let r = a.drop_first();
        law_order_of_texts(r, c, x, d, y);
        assert(p.drop_first() =~= r + seq![c] + x);
        assert(q.drop_first() =~= r + seq![d] + y);
        assert(p[0] == a[0] && q[0] == a[0]);
        assert((a + x).drop_first() =~= r + x);
        assert((a + x)[0] == a[0]);
    } else {
        assert(p[0] == c && q[0] == d);
        assert(a + x =~= x);
    }
}

/// The lower case of a letter of A to Z is thirty-two places behind it; any other character is its
/// own.
pub proof fn law_lower_case(c: char, b: u8)
    ensures
        'A' <= c <= 'Z' ==> crate::text::lower_char(c) as u32 == c as u32 + 32,
        c < 'A' || c > 'Z' ==> crate::text::lower_char(c) == c,
        65 <= b <= 90 ==> crate::text::lower_byte(b) == b + 32,
        b < 65 || b > 90 ==> crate::text::lower_byte(b) == b,
{
}

} // verus!
