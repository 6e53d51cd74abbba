//! Conversions between strings, characters and bytes, and the character classes
//! that the rest of the crate is written in terms of.
use vstd::prelude::*;
use vstd::utf8::*;

verus! {

/// `String::push` appends one character.
pub assume_specification[ String::push ](s: &mut String, c: char)
    ensures
        final(s)@ == old(s)@.push(c),
;

/// Number of bytes of the UTF-8 encoding of `s`.
pub open spec fn byte_len(s: Seq<char>) -> nat {
    encode_utf8(s).len()
}

/// The encoding of a concatenation is the concatenation of the encodings.
pub proof fn lemma_encode_concat(a: Seq<char>, b: Seq<char>)
    ensures
        encode_utf8(a + b) == encode_utf8(a) + encode_utf8(b),
        byte_len(a + b) == byte_len(a) + byte_len(b),
    decreases a.len(),
{
    if a.len() == 0 {
        assert(a + b =~= b);
        assert(encode_utf8(a) =~= Seq::<u8>::empty());
    } else {
        lemma_encode_concat(a.drop_first(), b);
        assert((a + b).drop_first() =~= a.drop_first() + b);
        assert(encode_utf8(a + b) =~= encode_utf8(a) + encode_utf8(b));
    }
}

/// Every character takes between one and four bytes.
pub proof fn lemma_byte_len_one(c: char)
    ensures
        1 <= byte_len(seq![c]) <= 4,
        byte_len(seq![c]) == encode_scalar(c as u32).len(),
{
    assert(seq![c].drop_first() =~= Seq::<char>::empty());
    reveal_with_fuel(encode_utf8, 2);
}

/// Appending a character adds the bytes of its encoding.
pub proof fn lemma_byte_len_push(s: Seq<char>, c: char)
    ensures
        byte_len(s.push(c)) == byte_len(s) + byte_len(seq![c]),
        byte_len(s.push(c)) > byte_len(s),
{
    lemma_encode_concat(s, seq![c]);
    assert(s + seq![c] =~= s.push(c));
    lemma_byte_len_one(c);
}

/// A prefix takes no more bytes than the whole, and a proper prefix takes fewer.
pub proof fn lemma_byte_len_take(s: Seq<char>, i: int)
    requires
        0 <= i <= s.len(),
    ensures
        byte_len(s) == byte_len(s.take(i)) + byte_len(s.skip(i)),
        byte_len(s.take(i)) <= byte_len(s),
        i < s.len() ==> byte_len(s.take(i)) < byte_len(s),
{
    lemma_encode_concat(s.take(i), s.skip(i));
    assert(s.take(i) + s.skip(i) =~= s);
    if i < s.len() {
        let t = s.skip(i);
        lemma_encode_concat(seq![t[0]], t.drop_first());
        assert(seq![t[0]] + t.drop_first() =~= t);
        lemma_byte_len_one(t[0]);
    }
}

/// A string has at least as many bytes as characters.
pub proof fn lemma_byte_len_lower(s: Seq<char>)
    ensures
        byte_len(s) >= s.len(),
    decreases s.len(),
{
    if s.len() > 0 {
        lemma_byte_len_lower(s.drop_last());
        lemma_byte_len_push(s.drop_last(), s.last());
        assert(s.drop_last().push(s.last()) =~= s);
    }
}

/// The end of a prefix is a character boundary of the whole.
pub proof fn lemma_join_boundary(a: Seq<char>, b: Seq<char>)
    ensures
        valid_utf8(encode_utf8(a + b)),
        is_char_boundary(encode_utf8(a + b), byte_len(a) as int),
        encode_utf8(a + b).subrange(0, byte_len(a) as int) == encode_utf8(a),
        encode_utf8(a + b).subrange(byte_len(a) as int, byte_len(a + b) as int) == encode_utf8(b),
    decreases a.len(),
{
    encode_utf8_valid_utf8(a + b);
    lemma_encode_concat(a, b);
    let whole = encode_utf8(a + b);
    assert(whole.subrange(0, byte_len(a) as int) =~= encode_utf8(a));
    assert(whole.subrange(byte_len(a) as int, byte_len(a + b) as int) =~= encode_utf8(b));
    if a.len() == 0 {
        assert(encode_utf8(a) =~= Seq::<u8>::empty());
    } else {
        let t = a.drop_first();
        assert((a + b).drop_first() =~= t + b);
        lemma_join_boundary(t, b);
        encode_utf8_first_scalar(a + b);
        lemma_encode_concat(seq![a[0]], t);
        assert(seq![a[0]] + t =~= a);
        lemma_byte_len_one(a[0]);
        assert(pop_first_scalar(whole) =~= encode_utf8(t + b));
        assert(byte_len(a) - length_of_first_scalar(whole) == byte_len(t));
    }
}

/// A character boundary splits the characters in two.
pub proof fn lemma_split_boundary(s: Seq<char>, mid: int)
    requires
        is_char_boundary(encode_utf8(s), mid),
        0 <= mid <= byte_len(s),
    ensures
        ({
            let a = decode_utf8(encode_utf8(s).subrange(0, mid));
            let b = decode_utf8(encode_utf8(s).subrange(mid, byte_len(s) as int));
            &&& s == a + b
            &&& encode_utf8(a) == encode_utf8(s).subrange(0, mid)
            &&& encode_utf8(b) == encode_utf8(s).subrange(mid, byte_len(s) as int)
            &&& byte_len(a) == mid
        }),
{
    let bytes = encode_utf8(s);
    encode_utf8_valid_utf8(s);
    encode_utf8_decode_utf8(s);
    valid_utf8_split(bytes, mid);
    decode_utf8_split(bytes, mid);
    decode_utf8_encode_utf8(bytes.subrange(0, mid));
    decode_utf8_encode_utf8(bytes.subrange(mid, bytes.len() as int));
}

/// A character boundary lies inside the string.
pub proof fn lemma_boundary_in_range(bytes: Seq<u8>, mid: int)
    requires
        valid_utf8(bytes),
        is_char_boundary(bytes, mid),
    ensures
        0 <= mid <= bytes.len(),
    decreases bytes.len(),
{
    if mid != 0 && bytes.len() > 0 {
        lemma_boundary_in_range(pop_first_scalar(bytes), mid - length_of_first_scalar(bytes));
    }
}

/// The characters of a string, in order.
pub fn chars_of(s: &str) -> (r: Vec<char>)
    ensures
        r@ == s@,
{
    let mut v: Vec<char> = Vec::new();
    for c in it: s.chars()
        invariant
            it.seq() == s@,
            v@ == s@.take(it.index() as int),
    {
        v.push(c);
    }
    v
}

/// The string made of the given characters.
pub fn string_of(v: &[char]) -> (r: String)
    ensures
        r@ == v@,
{
    let mut s = String::new();
    let mut i: usize = 0;
    while i < v.len()
        invariant
            i <= v.len(),
            s@ == v@.take(i as int),
        decreases v.len() - i,
    {
        s.push(v[i]);
        i += 1;
        assert(v@.take(i as int) =~= v@.take(i - 1).push(v@[i - 1]));
    }
    assert(v@.take(i as int) =~= v@);
    s
}

/// The string made of the characters from `from` up to but not including `to`.
pub fn substring(v: &Vec<char>, from: usize, to: usize) -> (r: String)
    requires
        from <= to <= v.len(),
    ensures
        r@ == v@.subrange(from as int, to as int),
{
    let mut s = String::new();
    let mut i: usize = from;
    while i < to
        invariant
            from <= i <= to <= v.len(),
            s@ == v@.subrange(from as int, i as int),
        decreases to - i,
    {
        s.push(v[i]);
        i += 1;
        assert(v@.subrange(from as int, i as int) =~= v@.subrange(from as int, i - 1).push(
            v@[i - 1],
        ));
    }
    s
}

/// Appends characters to a vector.
pub fn push_all(v: &mut Vec<char>, more: &[char])
    ensures
        final(v)@ == old(v)@ + more@,
{
    let mut i: usize = 0;
    while i < more.len()
        invariant
            i <= more.len(),
            v@ == old(v)@ + more@.take(i as int),
        decreases more.len() - i,
    {
        v.push(more[i]);
        i += 1;
        assert(more@.take(i as int) =~= more@.take(i - 1).push(more@[i - 1]));
    }
    assert(more@.take(i as int) =~= more@);
}

/// Appends a string to a vector of characters.
pub fn push_str(v: &mut Vec<char>, s: &str)
    ensures
        final(v)@ == old(v)@ + s@,
{
    let more = chars_of(s);
    push_all(v, more.as_slice());
}

/// Number of bytes of a string.
pub fn str_len(s: &str) -> (n: usize)
    ensures
        n == byte_len(s@),
{
    s.as_bytes().len()
}

/// Whether two character slices hold the same characters.
pub fn chars_eq(a: &[char], b: &[char]) -> (r: bool)
    ensures
        r == (a@ == b@),
{
    if a.len() != b.len() {
        return false;
    }
    let mut i: usize = 0;
    while i < a.len()
        invariant
            i <= a.len() == b.len(),
            a@.take(i as int) == b@.take(i as int),
        decreases a.len() - i,
    {
        if a[i] != b[i] {
            return false;
        }
        i += 1;
        assert(a@.take(i as int) =~= a@.take(i - 1).push(a@[i - 1]));
        assert(b@.take(i as int) =~= b@.take(i - 1).push(b@[i - 1]));
    }
    assert(a@.take(i as int) =~= a@);
    assert(b@.take(i as int) =~= b@);
    true
}

/// Whether two strings are equal.
pub fn str_eq(a: &str, b: &str) -> (r: bool)
    ensures
        r == (a@ == b@),
{
    let x = chars_of(a);
    let y = chars_of(b);
    chars_eq(x.as_slice(), y.as_slice())
}

/// Splits a string at a byte offset that is a character boundary.
pub fn split_str<'a>(s: &'a str, mid: usize) -> (r: (&'a str, &'a str))
    requires
        is_char_boundary(encode_utf8(s@), mid as int),
    ensures
        r.0@ + r.1@ == s@,
        byte_len(r.0@) == mid,
        r.0@ == decode_utf8(encode_utf8(s@).subrange(0, mid as int)),
        r.1@ == decode_utf8(encode_utf8(s@).subrange(mid as int, byte_len(s@) as int)),
{
    proof {
        encode_utf8_valid_utf8(s@);
        lemma_boundary_in_range(encode_utf8(s@), mid as int);
        lemma_split_boundary(s@, mid as int);
    }
    let r = s.split_at(mid);
    proof {
        encode_utf8_decode_utf8(r.0@);
        encode_utf8_decode_utf8(r.1@);
    }
    r
}

/// The characters with the Unicode property `White_Space`.
pub open spec fn spec_is_whitespace(c: char) -> bool {
    ||| 0x09 <= c as u32 <= 0x0d
    ||| c as u32 == 0x20
    ||| c as u32 == 0x85
    ||| c as u32 == 0xa0
    ||| c as u32 == 0x1680
    ||| 0x2000 <= c as u32 <= 0x200a
    ||| c as u32 == 0x2028
    ||| c as u32 == 0x2029
    ||| c as u32 == 0x202f
    ||| c as u32 == 0x205f
    ||| c as u32 == 0x3000
}

/// Whether a character is white space.
pub fn is_whitespace(c: char) -> (r: bool)
    ensures
        r == spec_is_whitespace(c),
{
    let cp = c as u32;
    (0x09 <= cp && cp <= 0x0d) || cp == 0x20 || cp == 0x85 || cp == 0xa0 || cp == 0x1680 || (0x2000
        <= cp && cp <= 0x200a) || cp == 0x2028 || cp == 0x2029 || cp == 0x202f || cp == 0x205f
        || cp == 0x3000
}

/// Length of `s` without its trailing characters whose being white space equals `ws`.
pub open spec fn trim_back(s: Seq<char>, ws: bool) -> int
    decreases s.len(),
{
    if s.len() > 0 && spec_is_whitespace(s.last()) == ws {
        trim_back(s.drop_last(), ws)
    } else {
        s.len() as int
    }
}

pub proof fn lemma_trim_back(s: Seq<char>, ws: bool)
    ensures
        0 <= trim_back(s, ws) <= s.len(),
        trim_back(s, ws) > 0 ==> spec_is_whitespace(s[trim_back(s, ws) - 1]) != ws,
    decreases s.len(),
{
    if s.len() > 0 && spec_is_whitespace(s.last()) == ws {
        lemma_trim_back(s.drop_last(), ws);
    }
}

/// Length of the first `len` characters of `s` without the trailing ones whose being
/// white space equals `ws`.
pub fn trim_back_from(s: &Vec<char>, len: usize, ws: bool) -> (r: usize)
    requires
        len <= s.len(),
    ensures
        r == trim_back(s@.take(len as int), ws),
        r <= len,
{
    let mut i: usize = len;
    while i > 0 && is_whitespace(s[i - 1]) == ws
        invariant
            i <= len <= s.len(),
            trim_back(s@.take(len as int), ws) == trim_back(s@.take(i as int), ws),
        decreases i,
    {
        assert(s@.take(i as int).drop_last() =~= s@.take(i - 1));
        i -= 1;
    }
    i
}

// -- Searching --

/// Whether `sub` stands at index `i` of `s`.
pub open spec fn occurs_at(s: Seq<char>, sub: Seq<char>, i: int) -> bool {
    0 <= i && i + sub.len() <= s.len() && s.subrange(i, i + sub.len()) == sub
}

pub open spec fn starts_with(s: Seq<char>, prefix: Seq<char>) -> bool {
    occurs_at(s, prefix, 0)
}

pub open spec fn ends_with(s: Seq<char>, suffix: Seq<char>) -> bool {
    occurs_at(s, suffix, s.len() - suffix.len())
}

/// `i` is the first place at which `sub` stands in `s`.
pub open spec fn first_occurrence(s: Seq<char>, sub: Seq<char>, i: int) -> bool {
    occurs_at(s, sub, i) && forall|k: int| 0 <= k < i ==> !occurs_at(s, sub, k)
}

/// `i` is the last place at which `sub` stands in `s`.
pub open spec fn last_occurrence(s: Seq<char>, sub: Seq<char>, i: int) -> bool {
    occurs_at(s, sub, i) && forall|k: int| i < k ==> !occurs_at(s, sub, k)
}

/// Whether `sub` stands at index `i` of `s`.
pub fn matches_at(s: &Vec<char>, sub: &Vec<char>, i: usize) -> (r: bool)
    ensures
        r == occurs_at(s@, sub@, i as int),
{
    if i > s.len() || sub.len() > s.len() - i {
        return false;
    }
    let mut k: usize = 0;
    while k < sub.len()
        invariant
            k <= sub.len(),
            i + sub.len() <= s.len(),
            forall|m: int| 0 <= m < k ==> s@[i + m] == sub@[m],
        decreases sub.len() - k,
    {
        if s[i + k] != sub[k] {
            assert(s@.subrange(i as int, i + sub@.len())[k as int] == s@[i + k]);
            return false;
        }
        k += 1;
    }
    assert(s@.subrange(i as int, i + sub@.len()) =~= sub@);
    true
}

/// First place of `sub` in `s`.
pub fn find(s: &Vec<char>, sub: &Vec<char>) -> (r: Option<usize>)
    ensures
        match r {
            Some(i) => first_occurrence(s@, sub@, i as int),
            None => forall|i: int| !occurs_at(s@, sub@, i),
        },
{
    let mut i: usize = 0;
    while i < s.len()
        invariant
            i <= s.len(),
            forall|k: int| 0 <= k < i ==> !occurs_at(s@, sub@, k),
        decreases s.len() - i,
    {
        if matches_at(s, sub, i) {
            return Some(i);
        }
        i += 1;
    }
    if sub.len() == 0 {
        assert(s@.subrange(i as int, i as int) =~= sub@);
        return Some(i);
    }
    None
}

/// Last place of `sub` in `s`.
pub fn rfind(s: &Vec<char>, sub: &Vec<char>) -> (r: Option<usize>)
    ensures
        match r {
            Some(i) => last_occurrence(s@, sub@, i as int),
            None => forall|i: int| !occurs_at(s@, sub@, i),
        },
{
    let mut i: usize = s.len();
    while i > 0
        invariant
            i <= s.len(),
            forall|k: int| i < k ==> !occurs_at(s@, sub@, k),
        decreases i,
    {
        if matches_at(s, sub, i) {
            return Some(i);
        }
        i -= 1;
    }
    if matches_at(s, sub, 0) {
        return Some(0);
    }
    None
}

/// Whether `s` holds the character `c`.
pub fn has_char(s: &Vec<char>, c: char) -> (r: bool)
    ensures
        r == s@.contains(c),
{
    let mut i: usize = 0;
    while i < s.len()
        invariant
            i <= s.len(),
            forall|k: int| 0 <= k < i ==> s@[k] != c,
        decreases s.len() - i,
    {
        if s[i] == c {
            assert(s@[i as int] == c);
            return true;
        }
        i += 1;
    }
    false
}

/// Index of the first `c` in `s` at or after `i`, or the length of `s`.
pub open spec fn index_from(s: Seq<char>, c: char, i: int) -> int
    decreases s.len() - i,
{
    if i >= s.len() {
        s.len() as int
    } else if s[i] == c {
        i
    } else {
        index_from(s, c, i + 1)
    }
}

pub proof fn lemma_index_from(s: Seq<char>, c: char, i: int)
    requires
        0 <= i <= s.len(),
    ensures
        i <= index_from(s, c, i) <= s.len(),
        forall|k: int| i <= k < index_from(s, c, i) ==> s[k] != c,
        index_from(s, c, i) < s.len() ==> s[index_from(s, c, i)] == c,
    decreases s.len() - i,
{
    if i < s.len() && s[i] != c {
        lemma_index_from(s, c, i + 1);
    }
}

/// Index of the first `c` in `s` at or after `from`, or the length of `s`.
pub fn find_char(s: &Vec<char>, c: char, from: usize) -> (r: usize)
    requires
        from <= s.len(),
    ensures
        r == index_from(s@, c, from as int),
        from <= r <= s.len(),
        r < s.len() ==> s@[r as int] == c,
{
    let mut i: usize = from;
    while i < s.len()
        invariant
            from <= i <= s.len(),
            index_from(s@, c, from as int) == index_from(s@, c, i as int),
        decreases s.len() - i,
    {
        if s[i] == c {
            return i;
        }
        i += 1;
    }
    i
}

// -- Splitting --

/// The parts of `s` from `i` on between occurrences of `c`.
pub open spec fn split_from(s: Seq<char>, c: char, i: int) -> Seq<Seq<char>>
    decreases s.len() - i,
    when 0 <= i <= s.len()
{
    let k = index_from(s, c, i);
    if k >= s.len() {
        seq![s.skip(i)]
    } else {
        proof {
            lemma_index_from(s, c, i);
        }
        seq![s.subrange(i, k)] + split_from(s, c, k + 1)
    }
}

/// The parts of `s` between occurrences of `c`.
pub open spec fn split(s: Seq<char>, c: char) -> Seq<Seq<char>> {
    split_from(s, c, 0)
}

/// The parts of `s` between occurrences of `c`.
pub fn split_on(s: &Vec<char>, c: char) -> (r: Vec<String>)
    ensures
        strs(r@) == split(s@, c),
        r.len() >= 1,
{
    let mut out: Vec<String> = Vec::new();
    let mut i: usize = 0;
    assert(strs(out@) + split_from(s@, c, 0) =~= split_from(s@, c, 0));
    loop
        invariant
            i <= s.len(),
            split_from(s@, c, 0) == strs(out@) + split_from(s@, c, i as int),
        decreases s.len() - i,
    {
        let k = find_char(s, c, i);
        let part = substring(s, i, k);
        let ghost had = strs(out@);
        let ghost pv = part@;
        out.push(part);
        assert(strs(out@) =~= had + seq![pv]);
        if k >= s.len() {
            assert(s@.subrange(i as int, k as int) =~= s@.skip(i as int));
            return out;
        }
        assert(had + (seq![pv] + split_from(s@, c, k + 1)) =~= (had + seq![pv]) + split_from(
            s@,
            c,
            k + 1,
        ));
        i = k + 1;
    }
}

/// The lines of `s` from `i` on: a newline ends a line, a carriage return before it belongs
/// to the ending, and the last line needs none.
pub open spec fn lines_from(s: Seq<char>, i: int) -> Seq<Seq<char>>
    decreases s.len() - i,
    when 0 <= i <= s.len()
{
    let k = index_from(s, '\n', i);
    if i >= s.len() {
        Seq::empty()
    } else if k >= s.len() {
        seq![s.skip(i)]
    } else {
        proof {
            lemma_index_from(s, '\n', i);
        }
        let e = if k > i && s[k - 1] == '\r' {
            k - 1
        } else {
            k
        };
        seq![s.subrange(i, e)] + lines_from(s, k + 1)
    }
}

pub open spec fn lines(s: Seq<char>) -> Seq<Seq<char>> {
    lines_from(s, 0)
}

/// The lines of a string.
pub fn lines_of(text: &str) -> (r: Vec<String>)
    ensures
        strs(r@) == lines(text@),
{
    let s = chars_of(text);
    let mut out: Vec<String> = Vec::new();
    let mut i: usize = 0;
    assert(strs(out@) + lines_from(s@, 0) =~= lines_from(s@, 0));
    while i < s.len()
        invariant
            i <= s.len(),
            s@ == text@,
            lines_from(s@, 0) == strs(out@) + lines_from(s@, i as int),
        decreases s.len() - i,
    {
        let k = find_char(&s, '\n', i);
        let e = if k < s.len() && k > i && s[k - 1] == '\r' {
            k - 1
        } else {
            k
        };
        let part = substring(&s, i, e);
        let ghost had = strs(out@);
        let ghost pv = part@;
        out.push(part);
        assert(strs(out@) =~= had + seq![pv]);
        if k >= s.len() {
            assert(s@.subrange(i as int, k as int) =~= s@.skip(i as int));
            return out;
        }
        assert(had + (seq![pv] + lines_from(s@, k + 1)) =~= (had + seq![pv]) + lines_from(
            s@,
            k + 1,
        ));
        i = k + 1;
    }
    assert(strs(out@) + lines_from(s@, i as int) =~= strs(out@));
    out
}

/// Number of white space characters at the start of `s`.
pub open spec fn leading_space(s: Seq<char>) -> int {
    span_front(s, true)
}

/// Number of leading characters of `s` whose being white space equals `ws`.
pub open spec fn span_front(s: Seq<char>, ws: bool) -> int
    decreases s.len(),
{
    if s.len() > 0 && spec_is_whitespace(s[0]) == ws {
        1 + span_front(s.drop_first(), ws)
    } else {
        0
    }
}

pub proof fn lemma_span_front(s: Seq<char>, ws: bool)
    ensures
        0 <= span_front(s, ws) <= s.len(),
        forall|k: int| 0 <= k < span_front(s, ws) ==> spec_is_whitespace(#[trigger] s[k]) == ws,
        span_front(s, ws) < s.len() ==> spec_is_whitespace(s[span_front(s, ws)]) != ws,
    decreases s.len(),
{
    if s.len() > 0 && spec_is_whitespace(s[0]) == ws {
        let t = s.drop_first();
        lemma_span_front(t, ws);
        assert forall|k: int| 0 <= k < span_front(s, ws) implies spec_is_whitespace(
            #[trigger] s[k],
        ) == ws by {
            if k > 0 {
                assert(s[k] == t[k - 1]);
            }
        }
    }
}

/// End of the run, starting at `from`, of characters whose being white space equals `ws`.
pub fn span_from(s: &Vec<char>, from: usize, ws: bool) -> (r: usize)
    requires
        from <= s.len(),
    ensures
        r == from + span_front(s@.skip(from as int), ws),
        from <= r <= s.len(),
{
    let mut i: usize = from;
    while i < s.len() && is_whitespace(s[i]) == ws
        invariant
            from <= i <= s.len(),
            from + span_front(s@.skip(from as int), ws) == i + span_front(s@.skip(i as int), ws),
        decreases s.len() - i,
    {
        assert(s@.skip(i as int).drop_first() =~= s@.skip(i + 1));
        i += 1;
    }
    i
}

/// `s` without white space at either end.
pub open spec fn trimmed(s: Seq<char>) -> Seq<char> {
    let t = s.take(trim_back(s, true));
    t.skip(leading_space(t))
}

/// A string without white space at either end.
pub fn trim(text: &str) -> (r: String)
    ensures
        r@ == trimmed(text@),
{
    let s = chars_of(text);
    let n = trim_back_from(&s, s.len(), true);
    assert(s@.take(s@.len() as int) =~= s@);
    let t = chars_of(substring(&s, 0, n).as_str());
    assert(t@ =~= s@.take(n as int));
    let k = span_from(&t, 0, true);
    assert(t@.skip(0) =~= t@);
    let r = substring(&t, k, t.len());
    assert(r@ =~= t@.skip(k as int));
    r
}

/// The runs of characters other than white space in `s`.
pub open spec fn words(s: Seq<char>) -> Seq<Seq<char>>
    decreases s.len(),
{
    let t = s.skip(span_front(s, true));
    let n = span_front(t, false);
    if s.len() == 0 || n <= 0 || n > t.len() || span_front(s, true) < 0 || span_front(s, true)
        > s.len() {
        Seq::empty()
    } else {
        seq![t.take(n)] + words(t.skip(n))
    }
}

/// The words of a string, which white space separates.
pub fn words_of(text: &str) -> (r: Vec<String>)
    ensures
        strs(r@) == words(text@),
{
    let s = chars_of(text);
    let mut out: Vec<String> = Vec::new();
    let mut i: usize = 0;
    assert(s@.skip(0) =~= s@);
    assert(strs(out@) + words(s@) =~= words(s@));
    loop
        invariant
            i <= s.len(),
            s@ == text@,
            words(s@) == strs(out@) + words(s@.skip(i as int)),
        decreases s.len() - i,
    {
        let ghost rest = s@.skip(i as int);
        let a = span_from(&s, i, true);
        let b = span_from(&s, a, false);
        proof {
            lemma_span_front(rest, true);
            assert(rest.skip(a - i) =~= s@.skip(a as int));
            lemma_span_front(s@.skip(a as int), false);
        }
        if a == b {
            assert(words(rest) =~= Seq::empty());
            assert(strs(out@) + words(rest) =~= strs(out@));
            return out;
        }
        let part = substring(&s, a, b);
        let ghost had = strs(out@);
        let ghost pv = part@;
        out.push(part);
        proof {
            assert(strs(out@) =~= had + seq![pv]);
            assert(pv =~= s@.skip(a as int).take(b - a));
            assert(s@.skip(a as int).skip(b - a) =~= s@.skip(b as int));
            assert(words(rest) == seq![pv] + words(s@.skip(b as int)));
            assert(had + (seq![pv] + words(s@.skip(b as int))) =~= (had + seq![pv]) + words(
                s@.skip(b as int),
            ));
        }
        i = b;
    }
}

// -- Bytes --

/// An ASCII letter in lower case, any other byte as it is.
pub open spec fn lower_byte(b: u8) -> u8 {
    if 65 <= b <= 90 {
        (b + 32) as u8
    } else {
        b
    }
}

pub fn to_lower_byte(b: u8) -> (r: u8)
    ensures
        r == lower_byte(b),
{
    if 65 <= b && b <= 90 {
        b + 32
    } else {
        b
    }
}

/// Whether the bytes `needle` stand at `i` of `hay`, up to the case of ASCII letters.
pub open spec fn icase_at(hay: Seq<u8>, needle: Seq<u8>, i: int) -> bool {
    &&& 0 <= i
    &&& i + needle.len() <= hay.len()
    &&& forall|k: int|
        0 <= k < needle.len() ==> lower_byte(#[trigger] hay[i + k]) == lower_byte(needle[k])
}

/// Whether the bytes `needle` stand anywhere in `hay`, up to the case of ASCII letters.
pub open spec fn icase_contains(hay: Seq<u8>, needle: Seq<u8>) -> bool {
    exists|i: int| icase_at(hay, needle, i)
}

fn matches_icase_at(hay: &[u8], needle: &[u8], i: usize) -> (r: bool)
    requires
        i + needle.len() <= hay.len(),
    ensures
        r == icase_at(hay@, needle@, i as int),
{
    let mut k: usize = 0;
    while k < needle.len()
        invariant
            k <= needle.len(),
            i + needle.len() <= hay.len(),
            forall|m: int|
                0 <= m < k ==> lower_byte(#[trigger] hay@[i + m]) == lower_byte(needle@[m]),
        decreases needle.len() - k,
    {
        if to_lower_byte(hay[i + k]) != to_lower_byte(needle[k]) {
            assert(lower_byte(hay@[i + k]) != lower_byte(needle@[k as int]));
            return false;
        }
        k += 1;
    }
    true
}

/// Case-insensitive substring search: does `haystack` contain `needle`?
pub fn contains_icase(haystack: &[u8], needle: &[u8]) -> (r: bool)
    ensures
        r == icase_contains(haystack@, needle@),
{
    if needle.len() > haystack.len() {
        return false;
    }
    let last = haystack.len() - needle.len();
    let mut i: usize = 0;
    loop
        invariant
            i <= last,
            last == haystack.len() - needle.len(),
            forall|k: int| 0 <= k < i ==> !icase_at(haystack@, needle@, k),
        decreases last - i,
    {
        if matches_icase_at(haystack, needle, i) {
            assert(icase_at(haystack@, needle@, i as int));
            return true;
        }
        if i == last {
            assert forall|k: int| !icase_at(haystack@, needle@, k) by {
                if k == i {
                }
            }
            return false;
        }
        i += 1;
    }
}

pub open spec fn bytes_start_with(a: Seq<u8>, p: Seq<u8>) -> bool {
    p.len() <= a.len() && a.subrange(0, p.len() as int) == p
}

pub fn has_byte_prefix(a: &[u8], p: &[u8]) -> (r: bool)
    ensures
        r == bytes_start_with(a@, p@),
{
    if p.len() > a.len() {
        return false;
    }
    let mut i: usize = 0;
    while i < p.len()
        invariant
            i <= p.len() <= a.len(),
            forall|k: int| 0 <= k < i ==> a@[k] == p@[k],
        decreases p.len() - i,
    {
        if a[i] != p[i] {
            assert(a@.subrange(0, p@.len() as int)[i as int] == a@[i as int]);
            return false;
        }
        i += 1;
    }
    assert(a@.subrange(0, p@.len() as int) =~= p@);
    true
}

/// A character with an ASCII letter in lower case.
pub open spec fn lower_char(c: char) -> char {
    if 'A' <= c <= 'Z' {
        (c as u32 + 32) as char
    } else {
        c
    }
}

pub open spec fn lower_chars(s: Seq<char>) -> Seq<char> {
    Seq::new(s.len(), |i: int| lower_char(s[i]))
}

pub fn to_lower_char(c: char) -> (r: char)
    ensures
        r == lower_char(c),
{
    if 65 <= c as u32 && c as u32 <= 90 {
        (c as u8 + 32) as char
    } else {
        c
    }
}

/// The characters of a string with ASCII letters in lower case.
pub fn lowered(s: &str) -> (r: Vec<char>)
    ensures
        r@ == lower_chars(s@),
{
    let v = chars_of(s);
    let mut out: Vec<char> = Vec::new();
    let mut i: usize = 0;
    while i < v.len()
        invariant
            i <= v.len(),
            v@ == s@,
            out@ =~= lower_chars(s@.take(i as int)),
        decreases v.len() - i,
    {
        out.push(to_lower_char(v[i]));
        i += 1;
    }
    assert(s@.take(i as int) =~= s@);
    out
}

// -- Order --

/// Lexicographic order of strings by code point, which is also the order of their encodings.
pub open spec fn lex_le(a: Seq<char>, b: Seq<char>) -> bool
    decreases a.len(),
{
    if a.len() == 0 {
        true
    } else if b.len() == 0 {
        false
    } else if a[0] != b[0] {
        (a[0] as u32) < (b[0] as u32)
    } else {
        lex_le(a.drop_first(), b.drop_first())
    }
}

/// Different characters have different code points.
pub proof fn lemma_code_point(a: char, b: char)
    ensures
        a as u32 == b as u32 ==> a == b,
{
}

pub proof fn lemma_lex_total(a: Seq<char>, b: Seq<char>)
    ensures
        lex_le(a, b) || lex_le(b, a),
    decreases a.len(),
{
    if a.len() > 0 && b.len() > 0 && a[0] != b[0] {
        lemma_code_point(a[0], b[0]);
    }
    if a.len() > 0 && b.len() > 0 && a[0] == b[0] {
        lemma_lex_total(a.drop_first(), b.drop_first());
    }
}

pub proof fn lemma_lex_antisymmetric(a: Seq<char>, b: Seq<char>)
    requires
        lex_le(a, b),
        lex_le(b, a),
    ensures
        a == b,
    decreases a.len(),
{
    if a.len() > 0 && b.len() > 0 {
        lemma_lex_antisymmetric(a.drop_first(), b.drop_first());
        assert(a =~= seq![a[0]] + a.drop_first());
        assert(b =~= seq![b[0]] + b.drop_first());
    } else {
        assert(a =~= b);
    }
}

pub proof fn lemma_lex_transitive(a: Seq<char>, b: Seq<char>, c: Seq<char>)
    requires
        lex_le(a, b),
        lex_le(b, c),
    ensures
        lex_le(a, c),
    decreases a.len(),
{
    if a.len() > 0 && b.len() > 0 && c.len() > 0 && a[0] == b[0] && b[0] == c[0] {
        lemma_lex_transitive(a.drop_first(), b.drop_first(), c.drop_first());
    }
}

/// Whether `a` comes before `b` or equals it in the order of strings.
pub fn chars_le(a: &Vec<char>, b: &Vec<char>) -> (r: bool)
    ensures
        r == lex_le(a@, b@),
{
    let mut i: usize = 0;
    assert(a@.skip(0) =~= a@);
    assert(b@.skip(0) =~= b@);
    while i < a.len()
        invariant
            i <= a.len(),
            i <= b.len(),
            lex_le(a@, b@) == lex_le(a@.skip(i as int), b@.skip(i as int)),
        decreases a.len() - i,
    {
        if i >= b.len() {
            return false;
        }
        if a[i] != b[i] {
            return (a[i] as u32) < (b[i] as u32);
        }
        assert(a@.skip(i as int).drop_first() =~= a@.skip(i + 1));
        assert(b@.skip(i as int).drop_first() =~= b@.skip(i + 1));
        i += 1;
    }
    true
}

// -- Numbers --

pub open spec fn digit_char(d: int) -> char {
    (d + 48) as char
}

/// Decimal digits of `n`.
pub open spec fn decimal(n: nat) -> Seq<char>
    decreases n,
{
    if n < 10 {
        seq![digit_char(n as int)]
    } else {
        decimal(n / 10).push(digit_char((n % 10) as int))
    }
}

/// Decimal digits of `n`, after a minus sign where it is negative.
pub open spec fn signed_decimal(n: int) -> Seq<char> {
    if n < 0 {
        seq!['-'] + decimal((-n) as nat)
    } else {
        decimal(n as nat)
    }
}

/// Decimal digits of `n`.
pub fn decimal_of(n: u64) -> (r: Vec<char>)
    ensures
        r@ == decimal(n as nat),
    decreases n,
{
    let mut v: Vec<char> = if n < 10 {
        Vec::new()
    } else {
        decimal_of(n / 10)
    };
    let d: u8 = 48 + (n % 10) as u8;
    v.push(d as char);
    if n < 10 {
        assert(v@ =~= decimal(n as nat));
    }
    v
}

/// Decimal digits of `n`, after a minus sign where it is negative.
pub fn signed_decimal_of(n: i32) -> (r: Vec<char>)
    ensures
        r@ == signed_decimal(n as int),
{
    if n < 0 {
        let mut v: Vec<char> = Vec::new();
        v.push('-');
        let d = decimal_of((-(n as i64)) as u64);
        push_all(&mut v, d.as_slice());
        assert(v@ =~= signed_decimal(n as int));
        v
    } else {
        decimal_of(n as u64)
    }
}

pub open spec fn spec_is_digit(c: char) -> bool {
    '0' <= c <= '9'
}

pub fn is_digit(c: char) -> (r: bool)
    ensures
        r == spec_is_digit(c),
{
    48 <= c as u32 && c as u32 <= 57
}

pub open spec fn all_digits(s: Seq<char>) -> bool {
    forall|i: int| 0 <= i < s.len() ==> spec_is_digit(#[trigger] s[i])
}

/// The number that a string of digits stands for.
pub open spec fn digits_value(s: Seq<char>) -> nat
    decreases s.len(),
{
    if s.len() == 0 {
        0
    } else {
        digits_value(s.drop_last()) * 10 + (s.last() as u32 - 48) as nat
    }
}

/// The number that `s` stands for: digits, which a plus sign may precede, of a number of at
/// most 64 bits.
pub open spec fn u64_value(s: Seq<char>) -> Option<u64> {
    let d = if s.len() > 0 && s[0] == '+' {
        s.skip(1)
    } else {
        s
    };
    if d.len() > 0 && all_digits(d) && digits_value(d) <= u64::MAX {
        Some(digits_value(d) as u64)
    } else {
        None
    }
}

proof fn lemma_digits_grow(s: Seq<char>, n: int)
    requires
        0 <= n <= s.len(),
        all_digits(s),
    ensures
        digits_value(s.take(n)) <= digits_value(s),
    decreases s.len() - n,
{
    if n < s.len() {
        lemma_digits_grow(s, n + 1);
        assert(s.take(n + 1).drop_last() =~= s.take(n));
    } else {
        assert(s.take(n) =~= s);
    }
}

/// Parses a decimal number of at most 64 bits.
pub fn parse_u64(text: &str) -> (r: Option<u64>)
    ensures
        r == u64_value(text@),
{
    let v = chars_of(text);
    let start: usize = if v.len() > 0 && v[0] == '+' {
        1
    } else {
        0
    };
    let ghost d = v@.skip(start as int);
    assert(start == 0 ==> d =~= v@);
    if start == v.len() {
        return None;
    }
    let mut n: u64 = 0;
    let mut i: usize = start;
    assert(d.take(0) =~= Seq::<char>::empty());
    while i < v.len()
        invariant
            start <= i <= v.len(),
            d == v@.skip(start as int),
            d == (if text@.len() > 0 && text@[0] == '+' {
                text@.skip(1)
            } else {
                text@
            }),
            all_digits(d.take(i - start)),
            n == digits_value(d.take(i - start)),
        decreases v.len() - i,
    {
        let c = v[i];
        assert(d[i - start] == c);
        if !is_digit(c) {
            return None;
        }
        let digit: u64 = (c as u32 - 48) as u64;
        proof {
            let next = d.take(i - start + 1);
            assert(next.drop_last() =~= d.take(i - start));
            assert(next.last() == c);
            assert forall|k: int| 0 <= k < next.len() implies spec_is_digit(
                #[trigger] next[k],
            ) by {
                if k < i - start {
                    assert(next[k] == d.take(i - start)[k]);
                }
            }
            if all_digits(d) {
                lemma_digits_grow(d, i - start + 1);
            }
        }
        if n > (0xffff_ffff_ffff_ffff - digit) / 10 {
            assert(n * 10 + digit > u64::MAX);
            return None;
        }
        n = n * 10 + digit;
        i += 1;
    }
    assert(d.take(i - start) =~= d);
    Some(n)
}

/// The decimal digits of a number are digits that stand for it.
pub proof fn law_decimal_value(n: nat)
    ensures
        decimal(n).len() > 0,
        all_digits(decimal(n)),
        digits_value(decimal(n)) == n,
    decreases n,
{
    if n < 10 {
        let s = decimal(n);
        assert(s.drop_last() =~= Seq::<char>::empty());
        reveal_with_fuel(digits_value, 2);
    } else {
        law_decimal_value(n / 10);
        let head = decimal(n / 10);
        let s = decimal(n);
        assert(s.drop_last() =~= head);
        assert forall|i: int| 0 <= i < s.len() implies spec_is_digit(#[trigger] s[i]) by {
            if i < head.len() {
                assert(s[i] == head[i]);
            }
        }
    }
}

/// Parsing the decimal digits of a number gives the number back.
pub proof fn law_decimal_parses(n: u64)
    ensures
        u64_value(decimal(n as nat)) == Some(n),
{
    law_decimal_value(n as nat);
    assert(spec_is_digit(decimal(n as nat)[0]));
}

// -- Lists of strings --

/// The characters of each string.
pub open spec fn strs(v: Seq<String>) -> Seq<Seq<char>> {
    Seq::new(v.len(), |i: int| v[i]@)
}

/// The strings of a list with a separator between each two.
pub open spec fn joined(parts: Seq<Seq<char>>, sep: Seq<char>) -> Seq<char>
    decreases parts.len(),
{
    if parts.len() == 0 {
        Seq::empty()
    } else if parts.len() == 1 {
        parts[0]
    } else {
        joined(parts.drop_last(), sep) + sep + parts.last()
    }
}

/// Joins strings with a separator between each two.
pub fn join_strings(parts: &[String], sep: &str) -> (r: String)
    ensures
        r@ == joined(strs(parts@), sep@),
{
    let mut out: Vec<char> = Vec::new();
    let mut i: usize = 0;
    while i < parts.len()
        invariant
            i <= parts.len(),
            out@ == joined(strs(parts@.take(i as int)), sep@),
        decreases parts.len() - i,
    {
        let ghost had = strs(parts@.take(i as int));
        let ghost now = strs(parts@.take(i + 1));
        if i > 0 {
            push_str(&mut out, sep);
        }
        push_str(&mut out, parts[i].as_str());
        assert(now.drop_last() =~= had);
        assert(now.last() == parts@[i as int]@);
        assert(i == 0 ==> out@ =~= now[0]);
        i += 1;
    }
    assert(parts@.take(i as int) =~= parts@);
    string_of(out.as_slice())
}

/// `s` without white space at its start.
pub open spec fn trimmed_start(s: Seq<char>) -> Seq<char> {
    s.skip(leading_space(s))
}

/// `s` without white space at its end.
pub open spec fn trimmed_end(s: Seq<char>) -> Seq<char> {
    s.take(trim_back(s, true))
}

/// The characters from `from` on.
pub fn tail_of(s: &Vec<char>, from: usize) -> (r: Vec<char>)
    requires
        from <= s.len(),
    ensures
        r@ == s@.skip(from as int),
{
    let n = s.len();
    let r = chars_of(substring(s, from, n).as_str());
    assert(r@ =~= s@.skip(from as int));
    r
}

/// The first `n` characters.
pub fn head_of(s: &Vec<char>, n: usize) -> (r: Vec<char>)
    requires
        n <= s.len(),
    ensures
        r@ == s@.take(n as int),
{
    let r = chars_of(substring(s, 0, n).as_str());
    assert(r@ =~= s@.take(n as int));
    r
}

pub fn trim_start_of(s: &Vec<char>) -> (r: Vec<char>)
    ensures
        r@ == trimmed_start(s@),
{
    let k = span_from(s, 0, true);
    assert(s@.skip(0) =~= s@);
    tail_of(s, k)
}

pub fn trim_end_of(s: &Vec<char>) -> (r: Vec<char>)
    ensures
        r@ == trimmed_end(s@),
{
    let n = s.len();
    let k = trim_back_from(s, n, true);
    assert(s@.take(n as int) =~= s@);
    head_of(s, k)
}

pub fn trim_of(s: &Vec<char>) -> (r: Vec<char>)
    ensures
        r@ == trimmed(s@),
{
    let t = trim_end_of(s);
    trim_start_of(&t)
}

/// The first word of `s`, or the empty string.
pub open spec fn first_word(s: Seq<char>) -> Seq<char> {
    let t = trimmed_start(s);
    t.take(span_front(t, false))
}

/// The first word of a text, or the empty string.
pub fn first_word_of(s: &Vec<char>) -> (r: Vec<char>)
    ensures
        r@ == first_word(s@),
{
    let t = trim_start_of(s);
    let n = span_from(&t, 0, false);
    assert(t@.skip(0) =~= t@);
    head_of(&t, n)
}

/// Whether `s` starts with `prefix`.
pub fn has_prefix_str(s: &Vec<char>, prefix: &str) -> (r: bool)
    ensures
        r == starts_with(s@, prefix@),
{
    let p = chars_of(prefix);
    matches_at(s, &p, 0)
}

/// Whether `s` ends with `suffix`.
pub fn has_suffix_str(s: &Vec<char>, suffix: &str) -> (r: bool)
    ensures
        r == ends_with(s@, suffix@),
{
    let p = chars_of(suffix);
    let n = s.len();
    if p.len() > n {
        return false;
    }
    matches_at(s, &p, n - p.len())
}

/// Whether the characters are those of the string.
pub fn is_text(s: &Vec<char>, text: &str) -> (r: bool)
    ensures
        r == (s@ == text@),
{
    let t = chars_of(text);
    chars_eq(s.as_slice(), t.as_slice())
}

/// A copy of a list of strings.
pub fn clone_strings(v: &[String]) -> (r: Vec<String>)
    ensures
        strs(r@) == strs(v@),
{
    let mut out: Vec<String> = Vec::new();
    let mut i: usize = 0;
    while i < v.len()
        invariant
            i <= v.len(),
            strs(out@) == strs(v@).take(i as int),
        decreases v.len() - i,
    {
        let ghost had = strs(out@);
        out.push(v[i].clone());
        assert(strs(out@) =~= had.push(v@[i as int]@));
        assert(strs(v@).take(i + 1) =~= strs(v@).take(i as int).push(strs(v@)[i as int]));
        i += 1;
    }
    assert(strs(v@).take(i as int) =~= strs(v@));
    out
}

// -- Signed numbers --

/// The digits of a number without its sign.
pub open spec fn unsigned_part(s: Seq<char>) -> Seq<char> {
    if s.len() > 0 && (s[0] == '+' || s[0] == '-') {
        s.skip(1)
    } else {
        s
    }
}

/// The number that a decimal text with an optional sign stands for, if it has 32 bits.
pub open spec fn i32_value(s: Seq<char>) -> Option<i32> {
    let d = unsigned_part(s);
    let n = digits_value(d);
    if d.len() == 0 || !all_digits(d) {
        None
    } else if s[0] == '-' {
        if n <= 0x8000_0000 {
            Some((-n) as i32)
        } else {
            None
        }
    } else if n <= 0x7fff_ffff {
        Some(n as i32)
    } else {
        None
    }
}

/// Parses a decimal number of 32 bits with an optional sign.
pub fn parse_i32(text: &str) -> (r: Option<i32>)
    ensures
        r == i32_value(text@),
{
    let v = chars_of(text);
    let signed = v.len() > 0 && (v[0] == '+' || v[0] == '-');
    let minus = v.len() > 0 && v[0] == '-';
    let digits = if signed {
        tail_of(&v, 1)
    } else {
        head_of(&v, v.len())
    };
    assert(!signed ==> digits@ =~= v@);
    let n = digits.len();
    if n == 0 {
        return None;
    }
    let mut i: usize = 0;
    while i < n
        invariant
            i <= n,
            n == digits.len(),
            digits@ == unsigned_part(text@),
            forall|k: int| 0 <= k < i ==> spec_is_digit(#[trigger] digits@[k]),
        decreases n - i,
    {
        if !is_digit(digits[i]) {
            assert(!all_digits(digits@));
            return None;
        }
        i += 1;
    }
    assert(all_digits(digits@));
    let d = string_of(digits.as_slice());
    assert(spec_is_digit(digits@[0]));
    match parse_u64(d.as_str()) {
        Some(value) => {
            if minus {
                if value <= 0x8000_0000 {
                    Some((-(value as i64)) as i32)
                } else {
                    None
                }
            } else if value <= 0x7fff_ffff {
                Some(value as i32)
            } else {
                None
            }
        },
        None => None,
    }
}

} // verus!
