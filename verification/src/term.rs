//! The output buffer of the terminal: text and control sequences to be written at once.
use vstd::prelude::*;

use crate::text::{byte_len, decimal, decimal_of, str_len, string_of};

verus! {

/// Collects what is to be written to the terminal.
pub struct TermWriter {
    buf: String,
}

impl View for TermWriter {
    type V = Seq<char>;

    closed spec fn view(&self) -> Seq<char> {
        self.buf@
    }
}

impl Default for TermWriter {
    fn default() -> (r: Self)
        ensures
            r@ == Seq::<char>::empty(),
    {
        Self::new()
    }
}

/// The control sequence `ESC [ n suffix`.
pub open spec fn csi(n: nat, suffix: char) -> Seq<char> {
    "\x1b["@ + decimal(n) + seq![suffix]
}

/// A movement of the cursor by `n`; nothing where `n` is zero.
pub open spec fn movement(n: nat, suffix: char) -> Seq<char> {
    if n > 0 {
        csi(n, suffix)
    } else {
        Seq::empty()
    }
}

impl TermWriter {
    pub fn new() -> (r: Self)
        ensures
            r@ == Seq::<char>::empty(),
    {
        Self { buf: String::new() }
    }

    pub fn clear_buffer(&mut self)
        ensures
            final(self)@ == Seq::<char>::empty(),
    {
        self.buf = String::new();
    }

    /// Number of bytes in the buffer.
    pub fn buffer_len(&self) -> (r: usize)
        ensures
            r == byte_len(self@),
    {
        str_len(self.buf.as_str())
    }

    /// The bytes of the buffer.
    pub fn as_bytes(&self) -> (r: &[u8])
        ensures
            r@ == vstd::utf8::encode_utf8(self@),
    {
        self.buf.as_str().as_bytes()
    }

    pub fn write_str(&mut self, s: &str)
        ensures
            final(self)@ == old(self)@ + s@,
    {
        self.buf.append(s);
    }

    /// Moves the cursor home and clears the visible screen, not the scrollback.
    pub fn clear_screen(&mut self)
        ensures
            final(self)@ == old(self)@ + "\x1b[H\x1b[2J"@,
    {
        self.write_str("\x1b[H\x1b[2J");
    }

    pub fn clear_to_end_of_screen(&mut self)
        ensures
            final(self)@ == old(self)@ + "\x1b[J"@,
    {
        self.write_str("\x1b[J");
    }

    pub fn clear_to_end_of_line(&mut self)
        ensures
            final(self)@ == old(self)@ + "\x1b[K"@,
    {
        self.write_str("\x1b[K");
    }

    pub fn hide_cursor(&mut self)
        ensures
            final(self)@ == old(self)@ + "\x1b[?25l"@,
    {
        self.write_str("\x1b[?25l");
    }

    pub fn show_cursor(&mut self)
        ensures
            final(self)@ == old(self)@ + "\x1b[?25h"@,
    {
        self.write_str("\x1b[?25h");
    }

    pub fn carriage_return(&mut self)
        ensures
            final(self)@ == old(self)@ + "\r"@,
    {
        self.write_str("\r");
    }

    pub fn move_cursor_right(&mut self, n: u16)
        ensures
            final(self)@ == old(self)@ + movement(n as nat, 'C'),
    {
        self.push_movement(n, 'C');
    }

    pub fn move_cursor_up(&mut self, n: u16)
        ensures
            final(self)@ == old(self)@ + movement(n as nat, 'A'),
    {
        self.push_movement(n, 'A');
    }

    pub fn move_cursor_down(&mut self, n: u16)
        ensures
            final(self)@ == old(self)@ + movement(n as nat, 'B'),
    {
        self.push_movement(n, 'B');
    }

    pub fn save_cursor(&mut self)
        ensures
            final(self)@ == old(self)@ + "\x1b7"@,
    {
        self.write_str("\x1b7");
    }

    pub fn restore_cursor(&mut self)
        ensures
            final(self)@ == old(self)@ + "\x1b8"@,
    {
        self.write_str("\x1b8");
    }

    fn push_movement(&mut self, n: u16, suffix: char)
        ensures
            final(self)@ == old(self)@ + movement(n as nat, suffix),
    {
        if n > 0 {
            self.push_csi(n, suffix);
        } else {
            assert(self@ + Seq::<char>::empty() =~= self@);
        }
    }

    /// Write the control sequence `ESC [ n suffix` into the buffer.
    fn push_csi(&mut self, n: u16, suffix: char)
        ensures
            final(self)@ == old(self)@ + csi(n as nat, suffix),
    {
        self.write_str("\x1b[");
        let digits = decimal_of(n as u64);
        self.write_str(string_of(digits.as_slice()).as_str());
        self.buf.push(suffix);
        assert(self@ =~= old(self)@ + csi(n as nat, suffix));
    }
}

} // verus!
