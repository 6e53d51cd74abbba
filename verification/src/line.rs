//! The line being edited: its text, the cursor and the last killed text.
use vstd::prelude::*;
use vstd::utf8::*;

use crate::text::{
    byte_len, chars_of, lemma_boundary_in_range, lemma_byte_len_one,
    lemma_byte_len_push, lemma_byte_len_take, lemma_join_boundary, lemma_split_boundary,
    lemma_trim_back, push_all, span_from, span_front, split_str, str_len, string_of, trim_back,
    trim_back_from,
};

verus! {

pub open spec fn smaller(a: int, b: int) -> int {
    if a <= b {
        a
    } else {
        b
    }
}

/// What a line buffer holds: the text on each side of the cursor, and the kill ring.
#[verifier::ext_equal]
pub struct LineState {
    pub before: Seq<char>,
    pub after: Seq<char>,
    pub kill: Seq<char>,
}

/// Index of the last newline of `s`, or -1.
pub open spec fn last_newline(s: Seq<char>) -> int
    decreases s.len(),
{
    if s.len() == 0 {
        -1
    } else if s.last() == '\n' {
        s.len() - 1
    } else {
        last_newline(s.drop_last())
    }
}

/// Index of the first newline of `s`, or the length of `s`.
pub open spec fn first_newline(s: Seq<char>) -> int
    decreases s.len(),
{
    if s.len() == 0 {
        0
    } else if s[0] == '\n' {
        0
    } else {
        1 + first_newline(s.drop_first())
    }
}

/// Number of characters of the longest prefix of `s` that takes at most `limit` bytes.
pub open spec fn fit(s: Seq<char>, limit: int) -> int
    decreases s.len(),
{
    if byte_len(s) <= limit || s.len() == 0 {
        s.len() as int
    } else {
        fit(s.drop_last(), limit)
    }
}

pub proof fn lemma_fit(s: Seq<char>, limit: int)
    requires
        0 <= limit,
    ensures
        0 <= fit(s, limit) <= s.len(),
        byte_len(s.take(fit(s, limit))) <= limit,
        byte_len(s) <= limit ==> fit(s, limit) == s.len(),
    decreases s.len(),
{
    if byte_len(s) > limit && s.len() > 0 {
        lemma_fit(s.drop_last(), limit);
        let k = fit(s, limit);
        assert(s.drop_last().take(k) =~= s.take(k));
    } else {
        assert(s.take(s.len() as int) =~= s);
    }
}

/// Where the word that ends `s`, white space after it included, starts.
pub open spec fn word_start(s: Seq<char>) -> int {
    trim_back(s.take(trim_back(s, true)), false)
}

/// Where the word that starts `s`, white space after it included, ends.
pub open spec fn word_end(s: Seq<char>) -> int {
    span_front(s, false) + span_front(s.skip(span_front(s, false)), true)
}

impl LineState {
    pub open spec fn text(self) -> Seq<char> {
        self.before + self.after
    }

    /// The same text with the cursor after `n` characters.
    pub open spec fn at(self, n: int) -> LineState {
        LineState { before: self.text().take(n), after: self.text().skip(n), kill: self.kill }
    }

    pub open spec fn insert(self, s: Seq<char>) -> LineState {
        LineState { before: self.before + s, ..self }
    }

    pub open spec fn delete_back(self) -> LineState {
        if self.before.len() == 0 {
            self
        } else {
            LineState { before: self.before.drop_last(), ..self }
        }
    }

    pub open spec fn delete_forward(self) -> LineState {
        if self.after.len() == 0 {
            self
        } else {
            LineState { after: self.after.drop_first(), ..self }
        }
    }

    pub open spec fn move_left(self) -> LineState {
        if self.before.len() == 0 {
            self
        } else {
            self.at(self.before.len() - 1)
        }
    }

    pub open spec fn move_right(self) -> LineState {
        if self.after.len() == 0 {
            self
        } else {
            self.at(self.before.len() as int + 1)
        }
    }

    pub open spec fn kill_to_end(self) -> LineState {
        if self.after.len() == 0 {
            self
        } else {
            LineState { before: self.before, after: Seq::empty(), kill: self.after }
        }
    }

    pub open spec fn kill_to_start(self) -> LineState {
        if self.before.len() == 0 {
            self
        } else {
            LineState { before: Seq::empty(), after: self.after, kill: self.before }
        }
    }

    pub open spec fn kill_word_back(self) -> LineState {
        let start = word_start(self.before);
        if start == self.before.len() {
            self
        } else {
            LineState {
                before: self.before.take(start),
                after: self.after,
                kill: self.before.skip(start),
            }
        }
    }

    pub open spec fn kill_word_forward(self) -> LineState {
        let end = word_end(self.after);
        if end == 0 {
            self
        } else {
            LineState {
                before: self.before,
                after: self.after.skip(end),
                kill: self.after.take(end),
            }
        }
    }

    pub open spec fn yank(self) -> LineState {
        self.insert(self.kill)
    }

    /// One line up, at the same column or at the end of a line that is shorter. A column is a
    /// number of characters.
    pub open spec fn move_line_up(self) -> LineState {
        let start = last_newline(self.before) + 1;
        if start == 0 {
            self
        } else {
            let col = self.before.skip(start).len() as int;
            let above = self.before.take(start - 1);
            let above_start = last_newline(above) + 1;
            self.at(above_start + smaller(col, above.skip(above_start).len() as int))
        }
    }

    /// One line down, at the same column or at the end of a line that is shorter.
    pub open spec fn move_line_down(self) -> LineState {
        let end = first_newline(self.after);
        if end == self.after.len() {
            self
        } else {
            let col = self.before.skip(last_newline(self.before) + 1).len() as int;
            let below = self.after.skip(end + 1);
            self.at(self.before.len() + end + 1 + smaller(col, first_newline(below)))
        }
    }
}

/// Line editing buffer with cursor and kill ring.
pub struct LineBuffer {
    buf: String,
    /// Byte offset into `buf`.
    cursor: usize,
    kill_ring: String,
}

impl View for LineBuffer {
    type V = LineState;

    closed spec fn view(&self) -> LineState {
        let bytes = encode_utf8(self.buf@);
        LineState {
            before: decode_utf8(bytes.subrange(0, self.cursor as int)),
            after: decode_utf8(bytes.subrange(self.cursor as int, bytes.len() as int)),
            kill: self.kill_ring@,
        }
    }
}

impl Default for LineBuffer {
    fn default() -> (r: Self)
        ensures
            r@ == (LineState { before: Seq::empty(), after: Seq::empty(), kill: Seq::empty() }),
    {
        Self::new()
    }
}

impl Clone for LineBuffer {
    fn clone(&self) -> (r: Self)
        ensures
            r@ == self@,
    {
        let (a, b) = self.parts();
        Self::build(&a, &b, self.kill_ring.clone())
    }
}

/// Index after the last newline of `s`.
fn line_start(s: &Vec<char>) -> (r: usize)
    ensures
        r == last_newline(s@) + 1,
        r <= s.len(),
        r > 0 ==> s@[r - 1] == '\n',
{
    let mut i: usize = s.len();
    assert(s@.take(i as int) =~= s@);
    while i > 0
        invariant
            i <= s.len(),
            last_newline(s@) == last_newline(s@.take(i as int)),
        decreases i,
    {
        if s[i - 1] == '\n' {
            assert(s@.take(i as int).last() == '\n');
            return i;
        }
        assert(s@.take(i as int).drop_last() =~= s@.take(i - 1));
        i -= 1;
    }
    0
}

/// Index of the first newline of `s` at or after `from`, or the length of `s`.
fn line_end(s: &Vec<char>, from: usize) -> (r: usize)
    requires
        from <= s.len(),
    ensures
        r == from + first_newline(s@.skip(from as int)),
        from <= r <= s.len(),
        r < s.len() ==> s@[r as int] == '\n',
{
    let mut i: usize = from;
    while i < s.len()
        invariant
            from <= i <= s.len(),
            from + first_newline(s@.skip(from as int)) == i + first_newline(s@.skip(i as int)),
        decreases s.len() - i,
    {
        if s[i] == '\n' {
            assert(s@.skip(i as int)[0] == '\n');
            return i;
        }
        assert(s@.skip(i as int).drop_first() =~= s@.skip(i + 1));
        i += 1;
    }
    i
}

/// Number of bytes of the characters from `from` to `to`.
fn span_bytes(s: &Vec<char>, from: usize, to: usize) -> (r: usize)
    requires
        from <= to <= s.len(),
    ensures
        r == byte_len(s@.subrange(from as int, to as int)),
{
    let t = crate::text::substring(s, from, to);
    str_len(t.as_str())
}

/// Longest prefix of the characters from `from` to `to` that takes at most `limit` bytes.
pub fn fit_prefix(s: &Vec<char>, from: usize, to: usize, limit: usize) -> (r: usize)
    requires
        from <= to <= s.len(),
    ensures
        r == fit(s@.subrange(from as int, to as int), limit as int),
        r <= to - from,
{
    let mut n: usize = to - from;
    let ghost line = s@.subrange(from as int, to as int);
    assert(line.take(n as int) =~= line);
    while n > 0
        invariant
            from <= to <= s.len(),
            n <= to - from,
            line == s@.subrange(from as int, to as int),
            fit(line, limit as int) == fit(line.take(n as int), limit as int),
        decreases n,
    {
        let b = span_bytes(s, from, from + n);
        assert(s@.subrange(from as int, from + n) =~= line.take(n as int));
        if b <= limit {
            return n;
        }
        assert(line.take(n as int).drop_last() =~= line.take(n - 1));
        n -= 1;
    }
    0
}

impl LineBuffer {
    #[verifier::type_invariant]
    closed spec fn inv(&self) -> bool {
        is_char_boundary(encode_utf8(self.buf@), self.cursor as int)
    }

    pub fn new() -> (r: Self)
        ensures
            r@ == (LineState { before: Seq::empty(), after: Seq::empty(), kill: Seq::empty() }),
    {
        let e: Vec<char> = Vec::new();
        let r = Self::build(&e, &e, String::new());
        assert(r@.before =~= Seq::<char>::empty());
        r
    }

    /// A buffer that holds the given text, cursor position and kill ring.
    fn build(before: &Vec<char>, after: &Vec<char>, kill: String) -> (r: Self)
        ensures
            r@ == (LineState { before: before@, after: after@, kill: kill@ }),
    {
        let head = string_of(before.as_slice());
        let cursor = str_len(head.as_str());
        let mut all: Vec<char> = Vec::new();
        push_all(&mut all, before.as_slice());
        push_all(&mut all, after.as_slice());
        let buf = string_of(all.as_slice());
        proof {
            lemma_join_boundary(before@, after@);
            assert(buf@ =~= before@ + after@);
            encode_utf8_decode_utf8(before@);
            encode_utf8_decode_utf8(after@);
        }
        LineBuffer { buf, cursor, kill_ring: kill }
    }

    /// The characters before and after the cursor.
    fn parts(&self) -> (r: (Vec<char>, Vec<char>))
        ensures
            r.0@ == self@.before,
            r.1@ == self@.after,
    {
        proof {
            use_type_invariant(self);
        }
        let (a, b) = split_str(self.buf.as_str(), self.cursor);
        (chars_of(a), chars_of(b))
    }

    proof fn lemma_view(&self)
        requires
            self.inv(),
        ensures
            self.buf@ == self@.text(),
            self.cursor == byte_len(self@.before),
    {
        encode_utf8_valid_utf8(self.buf@);
        lemma_boundary_in_range(encode_utf8(self.buf@), self.cursor as int);
        lemma_split_boundary(self.buf@, self.cursor as int);
    }

    pub fn text(&self) -> (r: &str)
        ensures
            r@ == self@.text(),
    {
        proof {
            use_type_invariant(self);
            self.lemma_view();
        }
        self.buf.as_str()
    }

    /// Byte offset of the cursor.
    pub fn cursor(&self) -> (r: usize)
        ensures
            r == byte_len(self@.before),
    {
        proof {
            use_type_invariant(self);
            self.lemma_view();
        }
        self.cursor
    }

    /// The text before the cursor.
    pub fn before_cursor(&self) -> (r: &str)
        ensures
            r@ == self@.before,
    {
        proof {
            use_type_invariant(self);
        }
        split_str(self.buf.as_str(), self.cursor).0
    }

    pub fn is_empty(&self) -> (r: bool)
        ensures
            r == (self@.text().len() == 0),
    {
        self.text().is_empty()
    }

    /// Set content and move cursor to end.
    pub fn set(&mut self, s: &str)
        ensures
            final(self)@ == (LineState { before: s@, after: Seq::empty(), kill: old(self)@.kill }),
    {
        let kill = self.kill_ring.clone();
        let e: Vec<char> = Vec::new();
        *self = Self::build(&chars_of(s), &e, kill);
    }

    /// Set content and place cursor at the given byte offset, or at the closest
    /// character boundary before it.
    pub fn set_with_cursor(&mut self, s: &str, cursor: usize)
        ensures
            final(self)@ == (LineState {
                before: s@.take(fit(s@, cursor as int)),
                after: s@.skip(fit(s@, cursor as int)),
                kill: old(self)@.kill,
            }),
    {
        let kill = self.kill_ring.clone();
        let v = chars_of(s);
        let n = fit_prefix(&v, 0, v.len(), cursor);
        assert(v@.subrange(0, v@.len() as int) =~= s@);
        self.place(&v, n);
    }

    /// Set the text before and after the cursor.
    pub fn set_around(&mut self, before: &str, after: &str)
        ensures
            final(self)@ == (LineState {
                before: before@,
                after: after@,
                kill: old(self)@.kill,
            }),
    {
        let kill = self.kill_ring.clone();
        *self = Self::build(&chars_of(before), &chars_of(after), kill);
    }

    /// The text after the cursor.
    pub fn after_cursor(&self) -> (r: String)
        ensures
            r@ == self@.after,
    {
        let (_a, b) = self.parts();
        string_of(b.as_slice())
    }

    /// Replaces the text by `v` with the cursor after `n` characters.
    fn place(&mut self, v: &Vec<char>, n: usize)
        requires
            n <= v.len(),
        ensures
            final(self)@ == (LineState {
                before: v@.take(n as int),
                after: v@.skip(n as int),
                kill: old(self)@.kill,
            }),
    {
        let kill = self.kill_ring.clone();
        self.place_with(v, n, n, kill);
    }

    /// Keeps of `v` the characters before `n` and those from `m` on, with the cursor
    /// between them.
    fn place_with(&mut self, v: &Vec<char>, n: usize, m: usize, kill: String)
        requires
            n <= v.len(),
            m <= v.len(),
        ensures
            final(self)@ == (LineState {
                before: v@.take(n as int),
                after: v@.skip(m as int),
                kill: kill@,
            }),
    {
        let mut a: Vec<char> = Vec::new();
        push_all(&mut a, vstd::slice::slice_subrange(v.as_slice(), 0, n));
        let mut b: Vec<char> = Vec::new();
        push_all(&mut b, vstd::slice::slice_subrange(v.as_slice(), m, v.len()));
        assert(a@ =~= v@.take(n as int));
        assert(b@ =~= v@.skip(m as int));
        *self = Self::build(&a, &b, kill);
    }

    /// All characters, and how many of them are before the cursor.
    fn all(&self) -> (r: (Vec<char>, usize))
        ensures
            r.0@ == self@.text(),
            r.1 == self@.before.len(),
            r.1 <= r.0.len(),
            r.0@.take(r.1 as int) == self@.before,
            r.0@.skip(r.1 as int) == self@.after,
    {
        let (mut a, b) = self.parts();
        let n = a.len();
        push_all(&mut a, b.as_slice());
        assert(a@.take(n as int) =~= self@.before);
        assert(a@.skip(n as int) =~= self@.after);
        (a, n)
    }

    /// Number of display columns from start of line to cursor.
    pub fn display_cursor_pos(&self) -> (r: usize)
        ensures
            r == columns_before(self@.text(), self@.before),
    {
        proof {
            use_type_invariant(self);
            self.lemma_view();
        }
        if self.buf.as_str().is_ascii() {
            proof {
                is_ascii_chars_concat(self.buf@, self@.before, self@.after);
                is_ascii_chars_encode_utf8(self@.before);
            }
            self.cursor
        } else {
            let (a, _b) = self.parts();
            let t = string_of(a.as_slice());
            str_width(t.as_str())
        }
    }

    /// Number of display columns for the full line.
    pub fn display_len(&self) -> (r: usize)
        ensures
            r == columns_before(self@.text(), self@.text()),
    {
        proof {
            use_type_invariant(self);
            self.lemma_view();
        }
        if self.buf.as_str().is_ascii() {
            proof {
                is_ascii_chars_encode_utf8(self.buf@);
            }
            str_len(self.buf.as_str())
        } else {
            str_width(self.buf.as_str())
        }
    }

    pub fn insert_char(&mut self, c: char)
        ensures
            final(self)@ == old(self)@.insert(seq![c]),
    {
        let kill = self.kill_ring.clone();
        let (mut a, b) = self.parts();
        a.push(c);
        assert(a@ =~= old(self)@.before + seq![c]);
        *self = Self::build(&a, &b, kill);
    }

    pub fn insert_str(&mut self, s: &str)
        ensures
            final(self)@ == old(self)@.insert(s@),
    {
        let kill = self.kill_ring.clone();
        let (mut a, b) = self.parts();
        crate::text::push_str(&mut a, s);
        *self = Self::build(&a, &b, kill);
    }

    /// Delete char before cursor (Backspace).
    pub fn delete_back(&mut self) -> (r: bool)
        ensures
            r == (old(self)@.before.len() > 0),
            final(self)@ == old(self)@.delete_back(),
    {
        let kill = self.kill_ring.clone();
        let (mut a, b) = self.parts();
        if a.len() == 0 {
            return false;
        }
        a.truncate(a.len() - 1);
        assert(a@ =~= old(self)@.before.drop_last());
        *self = Self::build(&a, &b, kill);
        true
    }

    /// Delete char at cursor (Delete / Ctrl+D).
    pub fn delete_forward(&mut self) -> (r: bool)
        ensures
            r == (old(self)@.after.len() > 0),
            final(self)@ == old(self)@.delete_forward(),
    {
        let kill = self.kill_ring.clone();
        let (v, n) = self.all();
        if n >= v.len() {
            return false;
        }
        self.place_with(&v, n, n + 1, kill);
        assert(old(self)@.after.drop_first() =~= v@.skip(n + 1));
        true
    }

    pub fn move_left(&mut self) -> (r: bool)
        ensures
            r == (old(self)@.before.len() > 0),
            final(self)@ == old(self)@.move_left(),
    {
        let (v, n) = self.all();
        if n == 0 {
            return false;
        }
        self.place(&v, n - 1);
        true
    }

    pub fn move_right(&mut self) -> (r: bool)
        ensures
            r == (old(self)@.after.len() > 0),
            final(self)@ == old(self)@.move_right(),
    {
        let (v, n) = self.all();
        if n >= v.len() {
            return false;
        }
        self.place(&v, n + 1);
        true
    }

    pub fn move_home(&mut self)
        ensures
            final(self)@ == old(self)@.at(0),
    {
        let (v, _n) = self.all();
        self.place(&v, 0);
    }

    pub fn move_end(&mut self)
        ensures
            final(self)@ == old(self)@.at(old(self)@.text().len() as int),
    {
        let (v, _n) = self.all();
        self.place(&v, v.len());
    }

    /// Moves to the start of the word before the cursor.
    pub fn move_word_left(&mut self)
        ensures
            final(self)@ == old(self)@.at(word_start(old(self)@.before)),
    {
        let (v, n) = self.all();
        let i = trim_back_from(&v, n, true);
        let j = trim_back_from(&v, i, false);
        assert(v@.take(i as int) =~= v@.take(n as int).take(i as int));
        self.place(&v, j);
    }

    /// Moves past the word at the cursor and the white space after it.
    pub fn move_word_right(&mut self)
        ensures
            final(self)@ == old(self)@.at(
                old(self)@.before.len() + word_end(old(self)@.after),
            ),
    {
        let (v, n) = self.all();
        let i = span_from(&v, n, false);
        let j = span_from(&v, i, true);
        assert(v@.skip(i as int) =~= v@.skip(n as int).skip(i - n));
        self.place(&v, j);
    }

    /// Whether the buffer contains newline characters.
    pub fn has_newlines(&self) -> (r: bool)
        ensures
            r == self@.text().contains('\n'),
    {
        let (v, _n) = self.all();
        let e = line_end(&v, 0);
        proof {
            assert(v@.skip(0) =~= v@);
            lemma_first_newline(v@);
            if e < v.len() {
                assert(v@[e as int] == '\n');
            }
        }
        e < v.len()
    }

    /// True if cursor is on the first line (no `\n` before it).
    pub fn on_first_line(&self) -> (r: bool)
        ensures
            r == !self@.before.contains('\n'),
    {
        let (a, _b) = self.parts();
        let s = line_start(&a);
        proof {
            lemma_last_newline(a@);
            if s > 0 {
                assert(a@[s - 1] == '\n');
            }
        }
        s == 0
    }

    /// True if cursor is on the last line (no `\n` after it).
    pub fn on_last_line(&self) -> (r: bool)
        ensures
            r == !self@.after.contains('\n'),
    {
        let (_a, b) = self.parts();
        let e = line_end(&b, 0);
        proof {
            assert(b@.skip(0) =~= b@);
            lemma_first_newline(b@);
            if e < b.len() {
                assert(b@[e as int] == '\n');
            }
        }
        e == b.len()
    }

    /// Move cursor up one line, preserving column position.
    /// Returns false if already on the first line.
    pub fn move_line_up(&mut self) -> (r: bool)
        ensures
            r == old(self)@.before.contains('\n'),
            final(self)@ == old(self)@.move_line_up(),
    {
        let (a, _b) = self.parts();
        let (v, n) = self.all();
        let start = line_start(&a);
        proof {
            lemma_last_newline(a@);
            if start > 0 {
                assert(a@[start - 1] == '\n');
            }
        }
        if start == 0 {
            return false;
        }
        let col = n - start;
        let mut above: Vec<char> = Vec::new();
        push_all(&mut above, vstd::slice::slice_subrange(a.as_slice(), 0, start - 1));
        assert(above@ =~= a@.take(start - 1));
        let above_start = line_start(&above);
        proof {
            lemma_last_newline(above@);
        }
        let width = above.len() - above_start;
        let k = if col <= width {
            col
        } else {
            width
        };
        self.place(&v, above_start + k);
        true
    }

    /// Move cursor down one line, preserving column position.
    /// Returns false if already on the last line.
    pub fn move_line_down(&mut self) -> (r: bool)
        ensures
            r == old(self)@.after.contains('\n'),
            final(self)@ == old(self)@.move_line_down(),
    {
        let (a, _b) = self.parts();
        let (v, n) = self.all();
        let start = line_start(&a);
        let end = line_end(&v, n);
        proof {
            lemma_last_newline(a@);
            lemma_first_newline(self@.after);
            if end < v.len() {
                assert(self@.after[end - n] == '\n');
            }
        }
        if end == v.len() {
            return false;
        }
        let next_end = line_end(&v, end + 1);
        assert(v@.skip(end + 1) =~= self@.after.skip(end - n + 1));
        let col = n - start;
        let width = next_end - (end + 1);
        let k = if col <= width {
            col
        } else {
            width
        };
        self.place(&v, end + 1 + k);
        true
    }

    /// Kill from cursor to end of line (Ctrl+K).
    pub fn kill_to_end(&mut self)
        ensures
            final(self)@ == old(self)@.kill_to_end(),
    {
        let (a, b) = self.parts();
        if b.len() > 0 {
            let e: Vec<char> = Vec::new();
            *self = Self::build(&a, &e, string_of(b.as_slice()));
        }
    }

    /// Kill from start to cursor (Ctrl+U).
    pub fn kill_to_start(&mut self)
        ensures
            final(self)@ == old(self)@.kill_to_start(),
    {
        let (a, b) = self.parts();
        if a.len() > 0 {
            let e: Vec<char> = Vec::new();
            *self = Self::build(&e, &b, string_of(a.as_slice()));
        }
    }

    /// Kill word backward (Ctrl+W).
    pub fn kill_word_back(&mut self)
        ensures
            final(self)@ == old(self)@.kill_word_back(),
    {
        let (v, n) = self.all();
        let i = trim_back_from(&v, n, true);
        let j = trim_back_from(&v, i, false);
        assert(v@.take(i as int) =~= v@.take(n as int).take(i as int));
        if j < n {
            let kill = crate::text::substring(&v, j, n);
            assert(kill@ =~= self@.before.skip(j as int));
            self.place_with(&v, j, n, kill);
            assert(v@.take(j as int) =~= old(self)@.before.take(j as int));
        }
    }

    /// Kill the word after the cursor (Alt+D).
    pub fn kill_word_forward(&mut self)
        ensures
            final(self)@ == old(self)@.kill_word_forward(),
    {
        let (v, n) = self.all();
        let i = span_from(&v, n, false);
        let j = span_from(&v, i, true);
        assert(v@.skip(i as int) =~= v@.skip(n as int).skip(i - n));
        if n < j {
            let kill = crate::text::substring(&v, n, j);
            assert(kill@ =~= self@.after.take(j - n));
            self.place_with(&v, n, j, kill);
            assert(v@.skip(j as int) =~= old(self)@.after.skip(j - n));
        }
    }

    /// Yank (paste) from kill ring (Ctrl+Y).
    pub fn yank(&mut self)
        ensures
            final(self)@ == old(self)@.yank(),
    {
        let kill = self.kill_ring.clone();
        self.insert_str(kill.as_str());
    }
}

proof fn lemma_first_newline(s: Seq<char>)
    ensures
        0 <= first_newline(s) <= s.len(),
        first_newline(s) == s.len() <==> !s.contains('\n'),
        forall|i: int| 0 <= i < first_newline(s) ==> s[i] != '\n',
    decreases s.len(),
{
    if s.len() > 0 && s[0] != '\n' {
        let t = s.drop_first();
        lemma_first_newline(t);
        assert forall|i: int| 0 <= i < first_newline(s) implies s[i] != '\n' by {
            if i > 0 {
                assert(s[i] == t[i - 1]);
            }
        }
        if t.contains('\n') {
            let k = choose|k: int| 0 <= k < t.len() && t[k] == '\n';
            assert(s[k + 1] == '\n');
        }
    } else if s.len() > 0 {
        assert(s[0] == '\n');
    }
}

pub proof fn lemma_last_newline(s: Seq<char>)
    ensures
        -1 <= last_newline(s) < s.len(),
        last_newline(s) == -1 <==> !s.contains('\n'),
        forall|i: int| last_newline(s) < i < s.len() ==> s[i] != '\n',
    decreases s.len(),
{
    if s.len() > 0 && s.last() != '\n' {
        let t = s.drop_last();
        lemma_last_newline(t);
        assert forall|i: int| last_newline(s) < i < s.len() implies s[i] != '\n' by {
            if i < s.len() - 1 {
                assert(s[i] == t[i]);
            }
        }
        if t.contains('\n') {
            let k = choose|k: int| 0 <= k < t.len() && t[k] == '\n';
            assert(s[k] == '\n');
        }
    } else if s.len() > 0 {
        assert(s[s.len() - 1] == '\n');
    }
}

/// Columns that the prefix `part` of a line takes: a line of ASCII characters counts each
/// of them, any other line counts display widths.
pub open spec fn columns_before(line: Seq<char>, part: Seq<char>) -> nat {
    if is_ascii_chars(line) {
        part.len()
    } else {
        width_of(part)
    }
}

/// Display width of a sequence of characters.
pub open spec fn width_of(s: Seq<char>) -> nat
    decreases s.len(),
{
    if s.len() == 0 {
        0
    } else {
        width_of(s.drop_last()) + spec_char_width(s.last())
    }
}

/// Display width of a character: control, zero-width and combining characters take no
/// column, wide ones take two.
pub open spec fn spec_char_width(c: char) -> nat {
    let cp = c as u32;
    if cp < 0x20 || 0x7F <= cp < 0xA0 || cp == 0xAD || spec_is_zero_width(cp) || spec_is_combining(
        cp,
    ) {
        0
    } else if spec_is_wide(cp) {
        2
    } else {
        1
    }
}

pub open spec fn spec_is_zero_width(cp: u32) -> bool {
    ||| 0x200B <= cp <= 0x200F
    ||| 0x2028 <= cp <= 0x202E
    ||| 0x2060 <= cp <= 0x2064
    ||| cp == 0xFEFF
}

pub open spec fn spec_is_combining(cp: u32) -> bool {
    ||| 0x0300 <= cp <= 0x036F
    ||| 0x1AB0 <= cp <= 0x1AFF
    ||| 0x1DC0 <= cp <= 0x1DFF
    ||| 0x20D0 <= cp <= 0x20FF
    ||| 0xFE20 <= cp <= 0xFE2F
}

/// The code points that take two columns.
pub open spec fn spec_is_wide(cp: u32) -> bool {
    ||| 0x1100 <= cp <= 0x115F
    ||| 0x231A <= cp <= 0x231B
    ||| 0x2329 <= cp <= 0x232A
    ||| 0x23E9 <= cp <= 0x23F3
    ||| 0x23F8 <= cp <= 0x23FA
    ||| 0x25FD <= cp <= 0x25FE
    ||| 0x2614 <= cp <= 0x2615
    ||| 0x2648 <= cp <= 0x2653
    ||| cp == 0x267F
    ||| cp == 0x2693
    ||| cp == 0x26A1
    ||| 0x26AA <= cp <= 0x26AB
    ||| 0x26BD <= cp <= 0x26BE
    ||| 0x26C4 <= cp <= 0x26C5
    ||| cp == 0x26CE
    ||| cp == 0x26D4
    ||| cp == 0x26EA
    ||| 0x26F2 <= cp <= 0x26F3
    ||| cp == 0x26F5
    ||| cp == 0x26FA
    ||| cp == 0x26FD
    ||| cp == 0x2702
    ||| cp == 0x2705
    ||| 0x2708 <= cp <= 0x270D
    ||| cp == 0x270F
    ||| cp == 0x2712
    ||| cp == 0x2714
    ||| cp == 0x2716
    ||| cp == 0x271D
    ||| cp == 0x2721
    ||| cp == 0x2728
    ||| 0x2733 <= cp <= 0x2734
    ||| cp == 0x2744
    ||| cp == 0x2747
    ||| cp == 0x274C
    ||| cp == 0x274E
    ||| 0x2753 <= cp <= 0x2755
    ||| cp == 0x2757
    ||| 0x2763 <= cp <= 0x2764
    ||| 0x2795 <= cp <= 0x2797
    ||| cp == 0x27A1
    ||| cp == 0x27B0
    ||| cp == 0x27BF
    ||| 0x2934 <= cp <= 0x2935
    ||| 0x2B05 <= cp <= 0x2B07
    ||| 0x2B1B <= cp <= 0x2B1C
    ||| cp == 0x2B50
    ||| cp == 0x2B55
    ||| 0x2E80 <= cp <= 0x303E
    ||| 0x3040 <= cp <= 0x33BF
    ||| 0x3400 <= cp <= 0x4DBF
    ||| 0x4E00 <= cp <= 0xA4CF
    ||| 0xA960 <= cp <= 0xA97C
    ||| 0xAC00 <= cp <= 0xD7A3
    ||| 0xF900 <= cp <= 0xFAFF
    ||| 0xFE10 <= cp <= 0xFE19
    ||| 0xFE30 <= cp <= 0xFE6B
    ||| 0xFF01 <= cp <= 0xFF60
    ||| 0xFFE0 <= cp <= 0xFFE6
    ||| cp == 0x1F004
    ||| cp == 0x1F0CF
    ||| 0x1F170 <= cp <= 0x1F171
    ||| 0x1F17E <= cp <= 0x1F17F
    ||| cp == 0x1F18E
    ||| 0x1F191 <= cp <= 0x1F19A
    ||| 0x1F1E0 <= cp <= 0x1F1FF
    ||| 0x1F200 <= cp <= 0x1F202
    ||| 0x1F210 <= cp <= 0x1F23B
    ||| 0x1F240 <= cp <= 0x1F248
    ||| 0x1F250 <= cp <= 0x1F251
    ||| 0x1F260 <= cp <= 0x1F265
    ||| 0x1F300 <= cp <= 0x1F9FF
    ||| 0x1FA00 <= cp <= 0x1FA6F
    ||| 0x1FA70 <= cp <= 0x1FAFF
    ||| 0x20000 <= cp <= 0x2FA1F
    ||| 0x30000 <= cp <= 0x3134F
}

/// No character is wider than its encoding is long.
proof fn lemma_width_le_bytes(c: char)
    ensures
        spec_char_width(c) <= byte_len(seq![c]),
{
    lemma_byte_len_one(c);
    char_is_scalar(c);
}

/// No text is wider than its encoding is long.
pub proof fn law_width_le_bytes(s: Seq<char>)
    ensures
        width_of(s) <= byte_len(s),
    decreases s.len(),
{
    if s.len() > 0 {
        law_width_le_bytes(s.drop_last());
        lemma_width_le_bytes(s.last());
        lemma_byte_len_push(s.drop_last(), s.last());
        assert(s.drop_last().push(s.last()) =~= s);
    }
}

/// The width of a text is the sum of the widths of its parts.
pub proof fn lemma_width_concat(a: Seq<char>, b: Seq<char>)
    ensures
        width_of(a + b) == width_of(a) + width_of(b),
    decreases b.len(),
{
    if b.len() == 0 {
        assert(a + b =~= a);
    } else {
        lemma_width_concat(a, b.drop_last());
        assert((a + b).drop_last() =~= a + b.drop_last());
    }
}

/// Display width of a string in terminal columns.
pub fn str_width(s: &str) -> (r: usize)
    ensures
        r == width_of(s@),
{
    let v = chars_of(s);
    let bound = str_len(s);
    let mut n: usize = 0;
    let mut i: usize = 0;
    while i < v.len()
        invariant
            i <= v.len(),
            v@ == s@,
            bound == byte_len(s@),
            n == width_of(s@.take(i as int)),
        decreases v.len() - i,
    {
        proof {
            let t = s@.take(i + 1);
            assert(t.drop_last() =~= s@.take(i as int));
            law_width_le_bytes(t);
            lemma_byte_len_take(s@, i + 1);
        }
        n += char_width(v[i]);
        i += 1;
    }
    assert(s@.take(i as int) =~= s@);
    n
}

/// Display width of a character in terminal columns.
pub fn char_width(c: char) -> (r: usize)
    ensures
        r == spec_char_width(c),
{
    let cp = c as u32;
    if cp < 0x20 || (0x7F <= cp && cp < 0xA0) || cp == 0xAD {
        return 0;
    }
    if (0x200B <= cp && cp <= 0x200F) || (0x2028 <= cp && cp <= 0x202E) || (0x2060 <= cp && cp
        <= 0x2064) || cp == 0xFEFF {
        return 0;
    }
    if (0x0300 <= cp && cp <= 0x036F) || (0x1AB0 <= cp && cp <= 0x1AFF) || (0x1DC0 <= cp && cp
        <= 0x1DFF) || (0x20D0 <= cp && cp <= 0x20FF) || (0xFE20 <= cp && cp <= 0xFE2F) {
        return 0;
    }
    if is_wide(cp) {
        2
    } else {
        1
    }
}

fn is_wide(cp: u32) -> (r: bool)
    ensures
        r == spec_is_wide(cp),
{
    (0x1100 <= cp && cp <= 0x115F)
        || (0x231A <= cp && cp <= 0x231B)
        || (0x2329 <= cp && cp <= 0x232A)
        || (0x23E9 <= cp && cp <= 0x23F3)
        || (0x23F8 <= cp && cp <= 0x23FA)
        || (0x25FD <= cp && cp <= 0x25FE)
        || (0x2614 <= cp && cp <= 0x2615)
        || (0x2648 <= cp && cp <= 0x2653)
        || cp == 0x267F
        || cp == 0x2693
        || cp == 0x26A1
        || (0x26AA <= cp && cp <= 0x26AB)
        || (0x26BD <= cp && cp <= 0x26BE)
        || (0x26C4 <= cp && cp <= 0x26C5)
        || cp == 0x26CE
        || cp == 0x26D4
        || cp == 0x26EA
        || (0x26F2 <= cp && cp <= 0x26F3)
        || cp == 0x26F5
        || cp == 0x26FA
        || cp == 0x26FD
        || cp == 0x2702
        || cp == 0x2705
        || (0x2708 <= cp && cp <= 0x270D)
        || cp == 0x270F
        || cp == 0x2712
        || cp == 0x2714
        || cp == 0x2716
        || cp == 0x271D
        || cp == 0x2721
        || cp == 0x2728
        || (0x2733 <= cp && cp <= 0x2734)
        || cp == 0x2744
        || cp == 0x2747
        || cp == 0x274C
        || cp == 0x274E
        || (0x2753 <= cp && cp <= 0x2755)
        || cp == 0x2757
        || (0x2763 <= cp && cp <= 0x2764)
        || (0x2795 <= cp && cp <= 0x2797)
        || cp == 0x27A1
        || cp == 0x27B0
        || cp == 0x27BF
        || (0x2934 <= cp && cp <= 0x2935)
        || (0x2B05 <= cp && cp <= 0x2B07)
        || (0x2B1B <= cp && cp <= 0x2B1C)
        || cp == 0x2B50
        || cp == 0x2B55
        || (0x2E80 <= cp && cp <= 0x303E)
        || (0x3040 <= cp && cp <= 0x33BF)
        || (0x3400 <= cp && cp <= 0x4DBF)
        || (0x4E00 <= cp && cp <= 0xA4CF)
        || (0xA960 <= cp && cp <= 0xA97C)
        || (0xAC00 <= cp && cp <= 0xD7A3)
        || (0xF900 <= cp && cp <= 0xFAFF)
        || (0xFE10 <= cp && cp <= 0xFE19)
        || (0xFE30 <= cp && cp <= 0xFE6B)
        || (0xFF01 <= cp && cp <= 0xFF60)
        || (0xFFE0 <= cp && cp <= 0xFFE6)
        || cp == 0x1F004
        || cp == 0x1F0CF
        || (0x1F170 <= cp && cp <= 0x1F171)
        || (0x1F17E <= cp && cp <= 0x1F17F)
        || cp == 0x1F18E
        || (0x1F191 <= cp && cp <= 0x1F19A)
        || (0x1F1E0 <= cp && cp <= 0x1F1FF)
        || (0x1F200 <= cp && cp <= 0x1F202)
        || (0x1F210 <= cp && cp <= 0x1F23B)
        || (0x1F240 <= cp && cp <= 0x1F248)
        || (0x1F250 <= cp && cp <= 0x1F251)
        || (0x1F260 <= cp && cp <= 0x1F265)
        || (0x1F300 <= cp && cp <= 0x1F9FF)
        || (0x1FA00 <= cp && cp <= 0x1FA6F)
        || (0x1FA70 <= cp && cp <= 0x1FAFF)
        || (0x20000 <= cp && cp <= 0x2FA1F)
        || (0x30000 <= cp && cp <= 0x3134F)
}

/// Moving left undoes moving right.
pub proof fn law_move_right_left(s: LineState)
    requires
        s.after.len() > 0,
    ensures
        s.move_right().move_left() == s,
{
    let r = s.move_right();
    assert(r.text() =~= s.text());
    assert(r.move_left() =~= s);
}

/// Moving right undoes moving left.
pub proof fn law_move_left_right(s: LineState)
    requires
        s.before.len() > 0,
    ensures
        s.move_left().move_right() == s,
{
    let r = s.move_left();
    assert(r.text() =~= s.text());
    assert(r.move_right() =~= s);
}

/// Backspace undoes the insertion of one character.
pub proof fn law_insert_delete_back(s: LineState, c: char)
    ensures
        s.insert(seq![c]).delete_back() == s,
{
    assert(s.insert(seq![c]).before.drop_last() =~= s.before);
}

/// Killing to the start and yanking gives the same text and cursor back.
pub proof fn law_kill_to_start_yank(s: LineState)
    requires
        s.before.len() > 0,
    ensures
        s.kill_to_start().yank().before == s.before,
        s.kill_to_start().yank().after == s.after,
{
    assert(Seq::<char>::empty() + s.before =~= s.before);
}

/// Killing a word and yanking gives the same text and cursor back.
pub proof fn law_kill_word_back_yank(s: LineState)
    requires
        word_start(s.before) < s.before.len(),
    ensures
        s.kill_word_back().yank().before == s.before,
        s.kill_word_back().yank().after == s.after,
{
    lemma_word_start(s.before);
    let k = word_start(s.before);
    assert(s.before.take(k) + s.before.skip(k) =~= s.before);
}

/// Killing to the end and yanking gives the same text back.
pub proof fn law_kill_to_end_yank(s: LineState)
    requires
        s.after.len() > 0,
    ensures
        s.kill_to_end().yank().text() == s.text(),
{
    assert(s.kill_to_end().yank().text() =~= s.text());
}

proof fn lemma_word_start(s: Seq<char>)
    ensures
        0 <= word_start(s) <= s.len(),
{
    lemma_trim_back(s, true);
    lemma_trim_back(s.take(trim_back(s, true)), false);
}

/// No cursor movement changes the text.
pub proof fn law_movement_keeps_text(s: LineState, n: int)
    requires
        0 <= n <= s.text().len(),
    ensures
        s.at(n).text() == s.text(),
        s.at(n).kill == s.kill,
{
    assert(s.at(n).text() =~= s.text());
}

} // verus!
