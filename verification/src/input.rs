//! Decoding of the bytes that the terminal sends into keys and pastes.
//!
//! The caller reads bytes and watches the clock: it hands each byte to `feed`, and calls
//! `timeout` when no byte has followed within the time that an escape sequence is given.
use vstd::prelude::*;
use vstd::utf8::*;

use crate::text::{byte_len, str_len};

verus! {

/// `std::char::from_u32` returns the character with the given code point, if it is one.
pub assume_specification[ std::char::from_u32 ](i: u32) -> (r: Option<char>)
    ensures
        r == (if is_scalar(i) {
            Some(i as char)
        } else {
            None
        }),
;

/// Pastes of more bytes than this are rejected.
pub const PASTE_LIMIT: usize = 1024;

#[derive(Debug, Clone, Copy, PartialEq, Eq, Structural)]
pub enum Key {
    Char(char),
    Up,
    Down,
    Left,
    Right,
    Home,
    End,
    Tab,
    Backspace,
    Delete,
    Enter,
    Escape,
}

#[derive(Debug, Clone, Copy, PartialEq, Eq, Structural)]
pub struct Modifiers {
    pub ctrl: bool,
    pub alt: bool,
    pub shift: bool,
}

impl Default for Modifiers {
    fn default() -> (r: Self)
        ensures
            r == no_mods(),
    {
        Modifiers { ctrl: false, alt: false, shift: false }
    }
}

pub open spec fn no_mods() -> Modifiers {
    Modifiers { ctrl: false, alt: false, shift: false }
}

pub open spec fn ctrl_mods() -> Modifiers {
    Modifiers { ctrl: true, alt: false, shift: false }
}

#[derive(Debug, Clone, Copy, PartialEq, Eq, Structural)]
pub struct KeyEvent {
    pub key: Key,
    pub mods: Modifiers,
}

impl KeyEvent {
    pub fn key(key: Key) -> (r: Self)
        ensures
            r == (KeyEvent { key, mods: no_mods() }),
    {
        KeyEvent { key, mods: Modifiers { ctrl: false, alt: false, shift: false } }
    }

    pub fn char(c: char) -> (r: Self)
        ensures
            r == (KeyEvent { key: Key::Char(c), mods: no_mods() }),
    {
        KeyEvent { key: Key::Char(c), mods: Modifiers { ctrl: false, alt: false, shift: false } }
    }

    pub fn ctrl(c: char) -> (r: Self)
        ensures
            r == (KeyEvent { key: Key::Char(c), mods: ctrl_mods() }),
    {
        KeyEvent { key: Key::Char(c), mods: Modifiers { ctrl: true, alt: false, shift: false } }
    }

    pub fn alt(c: char) -> (r: Self)
        ensures
            r == (KeyEvent {
                key: Key::Char(c),
                mods: Modifiers { ctrl: false, alt: true, shift: false },
            }),
    {
        KeyEvent { key: Key::Char(c), mods: Modifiers { ctrl: false, alt: true, shift: false } }
    }

    pub fn with_mods(key: Key, mods: Modifiers) -> (r: Self)
        ensures
            r == (KeyEvent { key, mods }),
    {
        KeyEvent { key, mods }
    }
}

#[derive(Debug)]
pub enum InputEvent {
    Key(KeyEvent),
    Signal(i32),
    /// A bracketed paste under the 1 KiB limit. Contains the full pasted text.
    /// The caller should insert it into the line buffer in one shot.
    Paste(String),
    /// A bracketed paste exceeded the 1 KiB limit and was rejected.
    /// The caller should replace the line buffer with an error message.
    PasteRejected,
}

pub enum EventView {
    Key(KeyEvent),
    Signal(i32),
    Paste(Seq<char>),
    PasteRejected,
}

impl View for InputEvent {
    type V = EventView;

    open spec fn view(&self) -> EventView {
        match self {
            InputEvent::Key(k) => EventView::Key(*k),
            InputEvent::Signal(s) => EventView::Signal(*s),
            InputEvent::Paste(t) => EventView::Paste(t@),
            InputEvent::PasteRejected => EventView::PasteRejected,
        }
    }
}

pub open spec fn event_view(r: Option<InputEvent>) -> Option<EventView> {
    match r {
        Some(e) => Some(e@),
        None => None,
    }
}

// -- Decoding --

/// How far a sequence of bytes has been read.
enum DecodeState {
    Ground,
    /// After an escape.
    Escape,
    /// After `ESC [`.
    Csi { params: Vec<u32>, current: u32, has_digit: bool },
    /// After `ESC O`.
    Ss3,
    /// Within a character: `need` more bytes.
    Utf8 { need: u8, cp: u32 },
}

pub enum DecodeView {
    Ground,
    Escape,
    Csi { params: Seq<u32>, current: u32, has_digit: bool },
    Ss3,
    Utf8 { need: int, cp: int },
}

impl View for DecodeState {
    type V = DecodeView;

    closed spec fn view(&self) -> DecodeView {
        match self {
            DecodeState::Ground => DecodeView::Ground,
            DecodeState::Escape => DecodeView::Escape,
            DecodeState::Csi { params, current, has_digit } => DecodeView::Csi {
                params: params@,
                current: *current,
                has_digit: *has_digit,
            },
            DecodeState::Ss3 => DecodeView::Ss3,
            DecodeState::Utf8 { need, cp } => DecodeView::Utf8 {
                need: *need as int,
                cp: *cp as int,
            },
        }
    }
}

/// What a complete sequence of bytes stands for.
#[derive(Debug, Clone, Copy, PartialEq, Eq, Structural)]
pub enum Decoded {
    Key(KeyEvent),
    PasteStart,
    PasteEnd,
    Nothing,
}

pub open spec fn plain(key: Key) -> Decoded {
    Decoded::Key(KeyEvent { key, mods: no_mods() })
}

/// The modifiers that a parameter stands for: one more than a sum of 1, 2 and 4.
pub open spec fn mods_of(param: u32) -> Modifiers {
    let bits: u32 = if param == 0 {
        0
    } else {
        (param - 1) as u32
    };
    Modifiers { ctrl: bits & 4 != 0, alt: bits & 2 != 0, shift: bits & 1 != 0 }
}

pub fn modifier_from_param(param: u32) -> (r: Modifiers)
    ensures
        r == mods_of(param),
{
    let bits: u32 = if param == 0 {
        0
    } else {
        param - 1
    };
    Modifiers { ctrl: bits & 4 != 0, alt: bits & 2 != 0, shift: bits & 1 != 0 }
}

/// What the control sequence with the given final byte and parameters stands for.
pub open spec fn csi_decoded(final_byte: u8, params: Seq<u32>) -> Decoded {
    let mods = if params.len() >= 2 {
        mods_of(params[1])
    } else {
        no_mods()
    };
    let first: u32 = if params.len() > 0 {
        params[0]
    } else {
        0
    };
    if final_byte == 65 {
        Decoded::Key(KeyEvent { key: Key::Up, mods })
    } else if final_byte == 66 {
        Decoded::Key(KeyEvent { key: Key::Down, mods })
    } else if final_byte == 67 {
        Decoded::Key(KeyEvent { key: Key::Right, mods })
    } else if final_byte == 68 {
        Decoded::Key(KeyEvent { key: Key::Left, mods })
    } else if final_byte == 72 {
        Decoded::Key(KeyEvent { key: Key::Home, mods })
    } else if final_byte == 70 {
        Decoded::Key(KeyEvent { key: Key::End, mods })
    } else if final_byte == 90 {
        Decoded::Key(
            KeyEvent {
                key: Key::Tab,
                mods: Modifiers { ctrl: false, alt: false, shift: true },
            },
        )
    } else if final_byte == 126 {
        if first == 1 || first == 7 {
            Decoded::Key(KeyEvent { key: Key::Home, mods })
        } else if first == 3 {
            Decoded::Key(KeyEvent { key: Key::Delete, mods })
        } else if first == 4 || first == 8 {
            Decoded::Key(KeyEvent { key: Key::End, mods })
        } else if first == 200 {
            Decoded::PasteStart
        } else if first == 201 {
            Decoded::PasteEnd
        } else {
            Decoded::Nothing
        }
    } else if final_byte == 94 && first == 3 {
        Decoded::Key(KeyEvent { key: Key::Delete, mods: ctrl_mods() })
    } else {
        Decoded::Nothing
    }
}

fn decode_csi_end(final_byte: u8, params: &Vec<u32>) -> (r: Decoded)
    ensures
        r == csi_decoded(final_byte, params@),
{
    let mods = if params.len() >= 2 {
        modifier_from_param(params[1])
    } else {
        Modifiers { ctrl: false, alt: false, shift: false }
    };
    let first: u32 = if params.len() > 0 {
        params[0]
    } else {
        0
    };
    if final_byte == 65 {
        Decoded::Key(KeyEvent::with_mods(Key::Up, mods))
    } else if final_byte == 66 {
        Decoded::Key(KeyEvent::with_mods(Key::Down, mods))
    } else if final_byte == 67 {
        Decoded::Key(KeyEvent::with_mods(Key::Right, mods))
    } else if final_byte == 68 {
        Decoded::Key(KeyEvent::with_mods(Key::Left, mods))
    } else if final_byte == 72 {
        Decoded::Key(KeyEvent::with_mods(Key::Home, mods))
    } else if final_byte == 70 {
        Decoded::Key(KeyEvent::with_mods(Key::End, mods))
    } else if final_byte == 90 {
        Decoded::Key(
            KeyEvent::with_mods(Key::Tab, Modifiers { ctrl: false, alt: false, shift: true }),
        )
    } else if final_byte == 126 {
        if first == 1 || first == 7 {
            Decoded::Key(KeyEvent::with_mods(Key::Home, mods))
        } else if first == 3 {
            Decoded::Key(KeyEvent::with_mods(Key::Delete, mods))
        } else if first == 4 || first == 8 {
            Decoded::Key(KeyEvent::with_mods(Key::End, mods))
        } else if first == 200 {
            Decoded::PasteStart
        } else if first == 201 {
            Decoded::PasteEnd
        } else {
            Decoded::Nothing
        }
    } else if final_byte == 94 && first == 3 {
        Decoded::Key(
            KeyEvent::with_mods(Key::Delete, Modifiers { ctrl: true, alt: false, shift: false }),
        )
    } else {
        Decoded::Nothing
    }
}

/// The next state of decoding after a byte, and what the bytes stand for where they are
/// complete.
pub open spec fn decode_step(s: DecodeView, b: u8) -> (DecodeView, Option<Decoded>) {
    match s {
        DecodeView::Ground => ground_step(b),
        DecodeView::Escape => if b == 91 {
            (
                DecodeView::Csi { params: Seq::empty(), current: 0, has_digit: false },
                None,
            )
        } else if b == 79 {
            (DecodeView::Ss3, None)
        } else if 0x20 <= b < 0x7f {
            (
                DecodeView::Ground,
                Some(
                    Decoded::Key(
                        KeyEvent {
                            key: Key::Char(b as char),
                            mods: Modifiers { ctrl: false, alt: true, shift: false },
                        },
                    ),
                ),
            )
        } else {
            (DecodeView::Ground, Some(plain(Key::Escape)))
        },
        DecodeView::Csi { params, current, has_digit } => if 48 <= b <= 57 {
            (
                DecodeView::Csi {
                    params,
                    current: ((current * 10 + (b - 48)) % 0x1_0000_0000) as u32,
                    has_digit: true,
                },
                None,
            )
        } else if b == 59 {
            (
                DecodeView::Csi {
                    params: params.push(
                        if has_digit {
                            current
                        } else {
                            0
                        },
                    ),
                    current: 0,
                    has_digit: false,
                },
                None,
            )
        } else if 0x40 <= b <= 0x7e {
            let all = if has_digit {
                params.push(current)
            } else {
                params
            };
            (DecodeView::Ground, Some(csi_decoded(b, all)))
        } else {
            (DecodeView::Ground, Some(Decoded::Nothing))
        },
        DecodeView::Ss3 => (DecodeView::Ground, Some(ss3_decoded(b))),
        DecodeView::Utf8 { need, cp } => if 0x80 <= b < 0xC0 {
            let next = cp * 64 + (b - 0x80);
            if need > 1 {
                (DecodeView::Utf8 { need: need - 1, cp: next }, None)
            } else if is_scalar(next as u32) {
                (DecodeView::Ground, Some(plain(Key::Char(next as u32 as char))))
            } else {
                (DecodeView::Ground, Some(Decoded::Nothing))
            }
        } else {
            (DecodeView::Ground, Some(Decoded::Nothing))
        },
    }
}

pub open spec fn ss3_decoded(b: u8) -> Decoded {
    if b == 65 {
        plain(Key::Up)
    } else if b == 66 {
        plain(Key::Down)
    } else if b == 67 {
        plain(Key::Right)
    } else if b == 68 {
        plain(Key::Left)
    } else if b == 72 {
        plain(Key::Home)
    } else if b == 70 {
        plain(Key::End)
    } else {
        Decoded::Nothing
    }
}

/// The first byte of a sequence.
pub open spec fn ground_step(b: u8) -> (DecodeView, Option<Decoded>) {
    if b == 0x1b {
        (DecodeView::Escape, None)
    } else if 0xC0 <= b < 0xE0 {
        (DecodeView::Utf8 { need: 1, cp: b - 0xC0 }, None)
    } else if 0xE0 <= b < 0xF0 {
        (DecodeView::Utf8 { need: 2, cp: b - 0xE0 }, None)
    } else if 0xF0 <= b < 0xF8 {
        (DecodeView::Utf8 { need: 3, cp: b - 0xF0 }, None)
    } else if b == 0x08 {
        (
            DecodeView::Ground,
            Some(Decoded::Key(KeyEvent { key: Key::Backspace, mods: ctrl_mods() })),
        )
    } else if b == 0x09 {
        (DecodeView::Ground, Some(plain(Key::Tab)))
    } else if b == 0x0a || b == 0x0d {
        (DecodeView::Ground, Some(plain(Key::Enter)))
    } else if b == 0x7f {
        (DecodeView::Ground, Some(plain(Key::Backspace)))
    } else if 0x01 <= b <= 0x1a {
        (
            DecodeView::Ground,
            Some(
                Decoded::Key(
                    KeyEvent { key: Key::Char((b + 96) as u8 as char), mods: ctrl_mods() },
                ),
            ),
        )
    } else if 0x20 <= b < 0x80 {
        (DecodeView::Ground, Some(plain(Key::Char(b as char))))
    } else {
        (DecodeView::Ground, Some(Decoded::Nothing))
    }
}

/// What has been read when no byte follows in time: an escape on its own is a key.
pub open spec fn decode_timeout(s: DecodeView) -> Decoded {
    if s is Escape {
        plain(Key::Escape)
    } else {
        Decoded::Nothing
    }
}

// -- The reader --

/// Turns bytes into events.
pub struct InputReader {
    in_paste: bool,
    paste_buf: String,
    paste_limit_hit: bool,
    state: DecodeState,
    /// How much of the end marker has been seen while the rest of a paste is skipped.
    marker: u8,
}

pub struct ReaderView {
    pub in_paste: bool,
    pub paste: Seq<char>,
    pub limit_hit: bool,
    pub state: DecodeView,
    pub marker: int,
}

impl View for InputReader {
    type V = ReaderView;

    closed spec fn view(&self) -> ReaderView {
        ReaderView {
            in_paste: self.in_paste,
            paste: self.paste_buf@,
            limit_hit: self.paste_limit_hit,
            state: self.state@,
            marker: self.marker as int,
        }
    }
}

/// The bytes that end a paste.
pub open spec fn paste_end() -> Seq<u8> {
    seq![0x1bu8, 91u8, 50u8, 48u8, 49u8, 126u8]
}

/// How much of the end marker has been seen after another byte.
pub open spec fn marker_step(seen: int, b: u8) -> int {
    if 0 <= seen < 6 && b == paste_end()[seen] {
        seen + 1
    } else if b == 0x1b {
        1
    } else {
        0
    }
}

impl ReaderView {
    pub open spec fn start() -> ReaderView {
        ReaderView {
            in_paste: false,
            paste: Seq::empty(),
            limit_hit: false,
            state: DecodeView::Ground,
            marker: 0,
        }
    }

    /// A key within a paste is text; a paste that grows over the limit is given up.
    pub open spec fn accumulated(self, k: KeyEvent) -> ReaderView {
        if self.limit_hit {
            self
        } else {
            let paste = match k.key {
                Key::Char(c) => self.paste.push(c),
                Key::Enter => self.paste.push('\n'),
                Key::Tab => self.paste.push('\t'),
                _ => self.paste,
            };
            if byte_len(paste) > PASTE_LIMIT {
                ReaderView { limit_hit: true, paste: Seq::empty(), marker: 0, ..self }
            } else {
                ReaderView { paste, ..self }
            }
        }
    }

    /// The state after a control sequence that starts or ends a paste.
    pub open spec fn after_csi(self, d: Decoded) -> ReaderView {
        match d {
            Decoded::PasteStart => ReaderView {
                in_paste: true,
                paste: Seq::empty(),
                limit_hit: false,
                ..self
            },
            Decoded::PasteEnd => ReaderView { in_paste: false, ..self },
            _ => self,
        }
    }

    /// What a complete sequence of bytes does. A paste that has ended is handed out.
    pub open spec fn completed(self, d: Decoded) -> (ReaderView, Option<EventView>) {
        match d {
            Decoded::Key(k) => if self.in_paste {
                (self.accumulated(k), None)
            } else {
                (self, Some(EventView::Key(k)))
            },
            _ => {
                let v = self.after_csi(d);
                if v.in_paste {
                    (v, None)
                } else if v.limit_hit {
                    (ReaderView { limit_hit: false, ..v }, Some(EventView::PasteRejected))
                } else if v.paste.len() > 0 {
                    (ReaderView { paste: Seq::empty(), ..v }, Some(EventView::Paste(v.paste)))
                } else {
                    (v, None)
                }
            },
        }
    }

    /// Whether the rest of a paste is skipped.
    pub open spec fn skipping(self) -> bool {
        self.in_paste && self.limit_hit
    }

    pub open spec fn fed(self, b: u8) -> (ReaderView, Option<EventView>) {
        if self.skipping() {
            let m = marker_step(self.marker, b);
            if m == 6 {
                (
                    ReaderView { in_paste: false, limit_hit: false, marker: 0, ..self },
                    Some(EventView::PasteRejected),
                )
            } else {
                (ReaderView { marker: m, ..self }, None)
            }
        } else {
            let (state, d) = decode_step(self.state, b);
            let v = ReaderView { state, ..self };
            match d {
                None => (v, None),
                Some(x) => v.completed(x),
            }
        }
    }

    pub open spec fn timed_out(self) -> (ReaderView, Option<EventView>) {
        if self.skipping() || self.state is Ground {
            (self, None)
        } else {
            ReaderView { state: DecodeView::Ground, ..self }.completed(
                decode_timeout(self.state),
            )
        }
    }

    /// At the end of the input a paste that is skipped ends too.
    pub open spec fn ended(self) -> (ReaderView, Option<EventView>) {
        if self.skipping() {
            (
                ReaderView { in_paste: false, limit_hit: false, marker: 0, ..self },
                Some(EventView::PasteRejected),
            )
        } else {
            self.timed_out()
        }
    }
}

impl InputReader {
    /// A paste is kept only up to the limit, and a partial code point is small.
    pub closed spec fn wf(&self) -> bool {
        &&& byte_len(self.paste_buf@) <= PASTE_LIMIT
        &&& self.marker < 6
        &&& match self.state {
            DecodeState::Utf8 { need, cp } => {
                ||| need == 3 && cp < 8
                ||| need == 2 && cp < 512
                ||| need == 1 && cp < 32768
            },
            _ => true,
        }
    }

    pub fn new() -> (r: Self)
        ensures
            r.wf(),
            r@ == ReaderView::start(),
    {
        let r = InputReader {
            in_paste: false,
            paste_buf: String::new(),
            paste_limit_hit: false,
            state: DecodeState::Ground,
            marker: 0,
        };
        assert(r@.paste =~= Seq::empty());
        r
    }

    /// True while inside a bracketed paste (`\x1b[200~` … `\x1b[201~`).
    pub fn in_paste(&self) -> (r: bool)
        ensures
            r == self@.in_paste,
    {
        self.in_paste
    }

    /// The text of the paste so far.
    pub fn paste_text(&self) -> (r: &str)
        ensures
            r@ == self@.paste,
    {
        self.paste_buf.as_str()
    }

    /// The paste has grown over the limit.
    pub fn paste_limit_hit(&self) -> (r: bool)
        ensures
            r == self@.limit_hit,
    {
        self.paste_limit_hit
    }

    /// Whether a sequence has been started that `timeout` would end.
    pub fn is_mid_sequence(&self) -> (r: bool)
        ensures
            r == (!self@.skipping() && !(self@.state is Ground)),
    {
        if self.in_paste && self.paste_limit_hit {
            return false;
        }
        match self.state {
            DecodeState::Ground => false,
            _ => true,
        }
    }

    /// Accumulate a single key event into the in-progress paste buffer,
    /// tracking the byte limit.  Once exceeded the buffer is discarded and
    /// the limit is marked as hit, so that remaining bytes are suppressed.
    pub fn accumulate_paste_key(&mut self, key: KeyEvent)
        requires
            old(self).wf(),
        ensures
            final(self).wf(),
            final(self)@ == old(self)@.accumulated(key),
    {
        if self.paste_limit_hit {
            return;
        }
        match key.key {
            Key::Char(c) => self.paste_buf.push(c),
            Key::Enter => self.paste_buf.push('\n'),
            Key::Tab => self.paste_buf.push('\t'),
            _ => {},
        }
        if str_len(self.paste_buf.as_str()) > PASTE_LIMIT {
            self.paste_limit_hit = true;
            self.paste_buf = String::new();
            self.marker = 0;
            assert(self@.paste =~= Seq::empty());
        }
    }

    /// The key of a control sequence; one that starts or ends a paste changes the state.
    pub fn csi_to_key(&mut self, final_byte: u8, params: &Vec<u32>) -> (r: Option<KeyEvent>)
        requires
            old(self).wf(),
        ensures
            final(self).wf(),
            final(self)@ == old(self)@.after_csi(csi_decoded(final_byte, params@)),
            r == (match csi_decoded(final_byte, params@) {
                Decoded::Key(k) => Some(k),
                _ => None,
            }),
    {
        let d = decode_csi_end(final_byte, params);
        self.apply(d);
        match d {
            Decoded::Key(k) => Some(k),
            _ => None,
        }
    }

    fn apply(&mut self, d: Decoded)
        requires
            old(self).wf(),
        ensures
            final(self).wf(),
            final(self)@ == old(self)@.after_csi(d),
    {
        match d {
            Decoded::PasteStart => {
                self.in_paste = true;
                self.paste_buf = String::new();
                self.paste_limit_hit = false;
                assert(self@.paste =~= Seq::empty());
            },
            Decoded::PasteEnd => {
                self.in_paste = false;
            },
            _ => {},
        }
    }

    fn complete(&mut self, d: Decoded) -> (r: Option<InputEvent>)
        requires
            old(self).wf(),
        ensures
            final(self).wf(),
            (final(self)@, event_view(r)) == old(self)@.completed(d),
    {
        match d {
            Decoded::Key(k) => {
                if self.in_paste {
                    self.accumulate_paste_key(k);
                    None
                } else {
                    Some(InputEvent::Key(k))
                }
            },
            _ => {
                self.apply(d);
                if self.in_paste {
                    None
                } else if self.paste_limit_hit {
                    self.paste_limit_hit = false;
                    Some(InputEvent::PasteRejected)
                } else if !self.paste_buf.as_str().is_empty() {
                    let text = self.paste_buf.clone();
                    self.paste_buf = String::new();
                    assert(self@.paste =~= Seq::empty());
                    Some(InputEvent::Paste(text))
                } else {
                    None
                }
            },
        }
    }

    /// Takes the next byte. Returns the event that it completes.
    ///
    /// During a bracketed paste, all key events are accumulated into a single
    /// `String` and returned as `Paste(String)` when the paste ends — no
    /// per-character events are dispatched, so the caller can insert the
    /// entire text in one shot and render once.
    pub fn feed(&mut self, b: u8) -> (r: Option<InputEvent>)
        requires
            old(self).wf(),
        ensures
            final(self).wf(),
            (final(self)@, event_view(r)) == old(self)@.fed(b),
    {
        if self.in_paste && self.paste_limit_hit {
            return self.skip_byte(b);
        }
        match self.decode(b) {
            None => None,
            Some(d) => self.complete(d),
        }
    }

    /// One byte of a paste that is too long: all up to the end marker is dropped.
    fn skip_byte(&mut self, b: u8) -> (r: Option<InputEvent>)
        requires
            old(self).wf(),
            old(self)@.skipping(),
        ensures
            final(self).wf(),
            (final(self)@, event_view(r)) == old(self)@.fed(b),
    {
        let m = self.marker;
        let hit = (m == 0 && b == 0x1b) || (m == 1 && b == 91) || (m == 2 && b == 50) || (m == 3
            && b == 48) || (m == 4 && b == 49) || (m == 5 && b == 126);
        if hit {
            if m == 5 {
                self.in_paste = false;
                self.paste_limit_hit = false;
                self.marker = 0;
                return Some(InputEvent::PasteRejected);
            }
            self.marker = m + 1;
        } else if b == 0x1b {
            self.marker = 1;
        } else {
            self.marker = 0;
        }
        None
    }

    fn decode(&mut self, b: u8) -> (r: Option<Decoded>)
        requires
            old(self).wf(),
        ensures
            final(self).wf(),
            final(self)@ == (ReaderView {
                state: decode_step(old(self)@.state, b).0,
                ..old(self)@
            }),
            r == decode_step(old(self)@.state, b).1,
    {
        let mut state = DecodeState::Ground;
        core::mem::swap(&mut self.state, &mut state);
        match state {
            DecodeState::Ground => self.decode_ground(b),
            DecodeState::Escape => if b == 91 {
                self.state = DecodeState::Csi {
                    params: Vec::new(),
                    current: 0,
                    has_digit: false,
                };
                assert(self@.state->params =~= Seq::empty());
                None
            } else if b == 79 {
                self.state = DecodeState::Ss3;
                None
            } else if 0x20 <= b && b < 0x7f {
                Some(Decoded::Key(KeyEvent::alt(b as char)))
            } else {
                Some(Decoded::Key(KeyEvent::key(Key::Escape)))
            },
            DecodeState::Csi { params, current, has_digit } => self.decode_csi(
                b,
                params,
                current,
                has_digit,
            ),
            DecodeState::Ss3 => Some(decode_ss3(b)),
            DecodeState::Utf8 { need, cp } => if 0x80 <= b && b < 0xC0 {
                let next: u32 = cp * 64 + (b - 0x80) as u32;
                if need > 1 {
                    self.state = DecodeState::Utf8 { need: need - 1, cp: next };
                    None
                } else {
                    match std::char::from_u32(next) {
                        Some(c) => Some(Decoded::Key(KeyEvent::char(c))),
                        None => Some(Decoded::Nothing),
                    }
                }
            } else {
                Some(Decoded::Nothing)
            },
        }
    }

    fn decode_ground(&mut self, b: u8) -> (r: Option<Decoded>)
        requires
            old(self).wf(),
            old(self)@.state is Ground,
        ensures
            final(self).wf(),
            final(self)@ == (ReaderView { state: ground_step(b).0, ..old(self)@ }),
            r == ground_step(b).1,
    {
        if b == 0x1b {
            self.state = DecodeState::Escape;
            None
        } else if 0xC0 <= b && b < 0xE0 {
            self.state = DecodeState::Utf8 { need: 1, cp: (b - 0xC0) as u32 };
            None
        } else if 0xE0 <= b && b < 0xF0 {
            self.state = DecodeState::Utf8 { need: 2, cp: (b - 0xE0) as u32 };
            None
        } else if 0xF0 <= b && b < 0xF8 {
            self.state = DecodeState::Utf8 { need: 3, cp: (b - 0xF0) as u32 };
            None
        } else if b == 0x08 {
            Some(
                Decoded::Key(
                    KeyEvent::with_mods(
                        Key::Backspace,
                        Modifiers { ctrl: true, alt: false, shift: false },
                    ),
                ),
            )
        } else if b == 0x09 {
            Some(Decoded::Key(KeyEvent::key(Key::Tab)))
        } else if b == 0x0a || b == 0x0d {
            Some(Decoded::Key(KeyEvent::key(Key::Enter)))
        } else if b == 0x7f {
            Some(Decoded::Key(KeyEvent::key(Key::Backspace)))
        } else if 0x01 <= b && b <= 0x1a {
            Some(Decoded::Key(KeyEvent::ctrl((b + 96) as char)))
        } else if 0x20 <= b && b < 0x80 {
            Some(Decoded::Key(KeyEvent::char(b as char)))
        } else {
            Some(Decoded::Nothing)
        }
    }

    fn decode_csi(&mut self, b: u8, params: Vec<u32>, current: u32, has_digit: bool) -> (r: Option<
        Decoded,
    >)
        requires
            old(self).wf(),
            old(self)@.state is Ground,
        ensures
            final(self).wf(),
            ({
                let (s, d) = decode_step(
                    DecodeView::Csi { params: params@, current, has_digit },
                    b,
                );
                final(self)@ == (ReaderView { state: s, ..old(self)@ }) && r == d
            }),
    {
        let mut params = params;
        if 48 <= b && b <= 57 {
            let next: u64 = (current as u64 * 10 + (b - 48) as u64) % 0x1_0000_0000;
            self.state = DecodeState::Csi { params, current: next as u32, has_digit: true };
            None
        } else if b == 59 {
            params.push(
                if has_digit {
                    current
                } else {
                    0
                },
            );
            self.state = DecodeState::Csi { params, current: 0, has_digit: false };
            None
        } else if 0x40 <= b && b <= 0x7e {
            if has_digit {
                params.push(current);
            }
            Some(decode_csi_end(b, &params))
        } else {
            Some(Decoded::Nothing)
        }
    }

    /// No byte has followed in time: an escape on its own is a key, an unfinished sequence is
    /// dropped.
    pub fn timeout(&mut self) -> (r: Option<InputEvent>)
        requires
            old(self).wf(),
        ensures
            final(self).wf(),
            (final(self)@, event_view(r)) == old(self)@.timed_out(),
    {
        if self.in_paste && self.paste_limit_hit {
            return None;
        }
        let mut state = DecodeState::Ground;
        core::mem::swap(&mut self.state, &mut state);
        match state {
            DecodeState::Ground => None,
            DecodeState::Escape => self.complete(Decoded::Key(KeyEvent::key(Key::Escape))),
            _ => self.complete(Decoded::Nothing),
        }
    }

    /// No byte will follow.
    pub fn end_of_input(&mut self) -> (r: Option<InputEvent>)
        requires
            old(self).wf(),
        ensures
            final(self).wf(),
            (final(self)@, event_view(r)) == old(self)@.ended(),
    {
        if self.in_paste && self.paste_limit_hit {
            self.in_paste = false;
            self.paste_limit_hit = false;
            self.marker = 0;
            return Some(InputEvent::PasteRejected);
        }
        self.timeout()
    }
}

fn decode_ss3(b: u8) -> (r: Decoded)
    ensures
        r == ss3_decoded(b),
{
    if b == 65 {
        Decoded::Key(KeyEvent::key(Key::Up))
    } else if b == 66 {
        Decoded::Key(KeyEvent::key(Key::Down))
    } else if b == 67 {
        Decoded::Key(KeyEvent::key(Key::Right))
    } else if b == 68 {
        Decoded::Key(KeyEvent::key(Key::Left))
    } else if b == 72 {
        Decoded::Key(KeyEvent::key(Key::Home))
    } else if b == 70 {
        Decoded::Key(KeyEvent::key(Key::End))
    } else {
        Decoded::Nothing
    }
}

// -- Laws --

/// The state after all of the bytes, and the event of the last of them.
pub open spec fn fed_all(v: ReaderView, bytes: Seq<u8>) -> (ReaderView, Option<EventView>)
    decreases bytes.len(),
{
    if bytes.len() == 0 {
        (v, None)
    } else {
        fed_all(v, bytes.drop_last()).0.fed(bytes.last())
    }
}

/// A paste that is handed out is not over the limit.
pub proof fn law_paste_within_limit(v: ReaderView, b: u8)
    requires
        byte_len(v.paste) <= PASTE_LIMIT,
    ensures
        v.fed(b).1 matches Some(EventView::Paste(t)) ==> byte_len(t) <= PASTE_LIMIT,
        byte_len(v.fed(b).0.paste) <= PASTE_LIMIT,
{
    assert(byte_len(Seq::empty()) == 0);
}

/// The end marker ends a paste that is skipped, whatever came before it.
pub proof fn law_marker_ends_skipping(v: ReaderView)
    requires
        v.skipping(),
        0 <= v.marker < 6,
    ensures
        fed_all(v, paste_end()).1 == Some(EventView::PasteRejected),
        !fed_all(v, paste_end()).0.in_paste,
{
    let m = paste_end();
    reveal_with_fuel(fed_all, 7);
    let s5 = m.drop_last();
    let s4 = s5.drop_last();
    let s3 = s4.drop_last();
    let s2 = s3.drop_last();
    let s1 = s2.drop_last();
    assert(s1.drop_last() =~= Seq::empty());
    assert(m.last() == 126 && s5.last() == 49 && s4.last() == 48 && s3.last() == 50 && s2.last()
        == 91 && s1.last() == 0x1b);
}

proof fn lemma_bits(c: u32)
    requires
        is_scalar(c),
        c >= 0x80,
    ensures
        has_width_2_encoding(c) ==> 0xC0 <= leading_byte_width_2(c) < 0xE0 && (leading_byte_width_2(
            c,
        ) - 0xC0) * 64 + (last_continuation_byte(c) - 0x80) == c,
        has_width_3_encoding(c) ==> 0xE0 <= leading_byte_width_3(c) < 0xF0 && ((
        leading_byte_width_3(c) - 0xE0) * 64 + (second_last_continuation_byte(c) - 0x80)) * 64 + (
        last_continuation_byte(c) - 0x80) == c,
        has_width_4_encoding(c) ==> 0xF0 <= leading_byte_width_4(c) < 0xF8 && (((
        leading_byte_width_4(c) - 0xF0) * 64 + (third_last_continuation_byte(c) - 0x80)) * 64 + (
        second_last_continuation_byte(c) - 0x80)) * 64 + (last_continuation_byte(c) - 0x80) == c,
        0x80 <= last_continuation_byte(c) < 0xC0,
        0x80 <= second_last_continuation_byte(c) < 0xC0,
        0x80 <= third_last_continuation_byte(c) < 0xC0,
{
    assert(c < 0x800 ==> {
        let a: u8 = 0xC0u8 | ((c >> 6) & 0x1F) as u8;
        let z: u8 = 0x80u8 | (c & 0x3F) as u8;
        0xC0 <= a && a < 0xE0 && (a - 0xC0) * 64 + (z - 0x80) == c
    }) by (bit_vector);
    assert(c < 0x10000 ==> {
        let a: u8 = 0xE0u8 | ((c >> 12) & 0x0F) as u8;
        let y: u8 = 0x80u8 | ((c >> 6) & 0x3F) as u8;
        let z: u8 = 0x80u8 | (c & 0x3F) as u8;
        0xE0 <= a && a < 0xF0 && ((a - 0xE0) * 64 + (y - 0x80)) * 64 + (z - 0x80) == c
    }) by (bit_vector);
    assert(c < 0x200000 ==> {
        let a: u8 = 0xF0u8 | ((c >> 18) & 0x7) as u8;
        let x: u8 = 0x80u8 | ((c >> 12) & 0x3F) as u8;
        let y: u8 = 0x80u8 | ((c >> 6) & 0x3F) as u8;
        let z: u8 = 0x80u8 | (c & 0x3F) as u8;
        0xF0 <= a && a < 0xF8 && (((a - 0xF0) * 64 + (x - 0x80)) * 64 + (y - 0x80)) * 64 + (z
            - 0x80) == c
    }) by (bit_vector);
    assert({
        let x: u8 = 0x80u8 | ((c >> 12) & 0x3F) as u8;
        let y: u8 = 0x80u8 | ((c >> 6) & 0x3F) as u8;
        let z: u8 = 0x80u8 | (c & 0x3F) as u8;
        0x80 <= x && x < 0xC0 && 0x80 <= y && y < 0xC0 && 0x80 <= z && z < 0xC0
    }) by (bit_vector);
}

/// A character typed outside a paste arrives as that character: the bytes of its encoding
/// make one key event.
pub proof fn law_typed_character_arrives(v: ReaderView, c: char)
    requires
        !v.in_paste,
        v.state is Ground,
        c as u32 >= 0x80 || 0x20 <= (c as u32) < 0x7f,
    ensures
        fed_all(v, encode_utf8(seq![c])).1 == Some(
            EventView::Key(KeyEvent { key: Key::Char(c), mods: no_mods() }),
        ),
{
    let s = encode_utf8(seq![c]);
    let u = c as u32;
    crate::text::lemma_byte_len_one(c);
    assert(s =~= encode_scalar(u)) by {
        assert(seq![c].drop_first() =~= Seq::<char>::empty());
        reveal_with_fuel(encode_utf8, 2);
    }
    char_is_scalar(c);
    char_u32_cast(c, u);
    reveal_with_fuel(fed_all, 5);
    if u < 0x80 {
        assert(u < 0x80 ==> (u & 0x7F) == u) by (bit_vector);
        assert(s.drop_last() =~= Seq::empty());
        assert(s.last() == u);
        assert(s.last() as char == c);
    } else {
        lemma_bits(u);
        let t = s.drop_last();
        let w = t.drop_last();
        let x = w.drop_last();
        if has_width_2_encoding(u) {
            assert(w =~= Seq::empty());
        } else if has_width_3_encoding(u) {
            assert(x =~= Seq::empty());
        } else {
            assert(x.drop_last() =~= Seq::empty());
        }
    }
}

} // verus!
