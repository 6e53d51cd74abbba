//! Which keys the bytes of a terminal stand for.
use vstd::prelude::*;

use crate::input::{fed_all, EventView, Key, KeyEvent, Modifiers, ReaderView};
use crate::text::byte_len;

verus! {

/// A reader between two keys, outside a paste.
pub open spec fn is_idle(v: ReaderView) -> bool {
    !v.in_paste && !v.limit_hit && v.paste.len() == 0 && v.state is Ground
}

/// The bytes make the key, and leave the reader as it was.
pub open spec fn types(v: ReaderView, bytes: Seq<u8>, key: Key, mods: Modifiers) -> bool {
    let r = fed_all(v, bytes);
    &&& r.1 == Some(EventView::Key(KeyEvent { key, mods }))
    &&& is_idle(r.0)
}

pub open spec fn plain() -> Modifiers {
    Modifiers { ctrl: false, alt: false, shift: false }
}

proof fn lemma_feed(v: ReaderView, s: Seq<u8>, b: u8)
    ensures
        fed_all(v, s.push(b)) == fed_all(v, s).0.fed(b),
        fed_all(v, Seq::empty()).0 == v,
{
    assert(s.push(b).drop_last() =~= s);
}

proof fn lemma_feed_1(v: ReaderView, a: u8)
    ensures
        fed_all(v, seq![a]) == v.fed(a),
{
    lemma_feed(v, Seq::empty(), a);
    assert(Seq::<u8>::empty().push(a) =~= seq![a]);
}

proof fn lemma_feed_2(v: ReaderView, a: u8, b: u8)
    ensures
        fed_all(v, seq![a, b]) == v.fed(a).0.fed(b),
{
    lemma_feed_1(v, a);
    lemma_feed(v, seq![a], b);
    assert(seq![a].push(b) =~= seq![a, b]);
}

proof fn lemma_feed_3(v: ReaderView, a: u8, b: u8, c: u8)
    ensures
        fed_all(v, seq![a, b, c]) == v.fed(a).0.fed(b).0.fed(c),
{
    lemma_feed_2(v, a, b);
    lemma_feed(v, seq![a, b], c);
    assert(seq![a, b].push(c) =~= seq![a, b, c]);
}

proof fn lemma_feed_4(v: ReaderView, a: u8, b: u8, c: u8, d: u8)
    ensures
        fed_all(v, seq![a, b, c, d]) == v.fed(a).0.fed(b).0.fed(c).0.fed(d),
{
    lemma_feed_3(v, a, b, c);
    lemma_feed(v, seq![a, b, c], d);
    assert(seq![a, b, c].push(d) =~= seq![a, b, c, d]);
}

/// The arrow keys, Home and End send an escape, `[` or `O`, and a letter.
pub proof fn law_arrow_keys(v: ReaderView, o: u8)
    requires
        is_idle(v),
        o == 91 || o == 79,
    ensures
        types(v, seq![27u8, o, 'A' as u8], Key::Up, plain()),
        types(v, seq![27u8, o, 'B' as u8], Key::Down, plain()),
        types(v, seq![27u8, o, 'C' as u8], Key::Right, plain()),
        types(v, seq![27u8, o, 'D' as u8], Key::Left, plain()),
        types(v, seq![27u8, o, 'H' as u8], Key::Home, plain()),
        types(v, seq![27u8, o, 'F' as u8], Key::End, plain()),
{
    lemma_feed_3(v, 27, o, 'A' as u8);
    lemma_feed_3(v, 27, o, 'B' as u8);
    lemma_feed_3(v, 27, o, 'C' as u8);
    lemma_feed_3(v, 27, o, 'D' as u8);
    lemma_feed_3(v, 27, o, 'H' as u8);
    lemma_feed_3(v, 27, o, 'F' as u8);
}

/// Home, Delete and End are also numbered, with a tilde behind the number.
pub proof fn law_numbered_keys(v: ReaderView)
    requires
        is_idle(v),
    ensures
        types(v, seq![27u8, 91u8, '1' as u8, '~' as u8], Key::Home, plain()),
        types(v, seq![27u8, 91u8, '3' as u8, '~' as u8], Key::Delete, plain()),
        types(v, seq![27u8, 91u8, '4' as u8, '~' as u8], Key::End, plain()),
        types(v, seq![27u8, 91u8, '7' as u8, '~' as u8], Key::Home, plain()),
        types(v, seq![27u8, 91u8, '8' as u8, '~' as u8], Key::End, plain()),
        types(
            v,
            seq![27u8, 91u8, 'Z' as u8],
            Key::Tab,
            Modifiers { ctrl: false, alt: false, shift: true },
        ),
{
    lemma_feed_4(v, 27, 91, '1' as u8, '~' as u8);
    lemma_feed_4(v, 27, 91, '3' as u8, '~' as u8);
    lemma_feed_4(v, 27, 91, '4' as u8, '~' as u8);
    lemma_feed_4(v, 27, 91, '7' as u8, '~' as u8);
    lemma_feed_4(v, 27, 91, '8' as u8, '~' as u8);
    lemma_feed_3(v, 27, 91, 'Z' as u8);
}

/// Shift, Alt and Ctrl held with an arrow key count 1, 2 and 4, and one more is sent.
pub proof fn law_modified_arrow(v: ReaderView, ctrl: bool, alt: bool, shift: bool, d: u8)
    requires
        is_idle(v),
        d == 49 + (if shift {
            1int
        } else {
            0
        }) + (if alt {
            2int
        } else {
            0
        }) + (if ctrl {
            4int
        } else {
            0
        }),
    ensures
        types(
            v,
            seq![27u8, 91u8, '1' as u8, ';' as u8, d, 'D' as u8],
            Key::Left,
            Modifiers { ctrl, alt, shift },
        ),
        types(
            v,
            seq![27u8, 91u8, '1' as u8, ';' as u8, d, 'C' as u8],
            Key::Right,
            Modifiers { ctrl, alt, shift },
        ),
{
    lemma_feed_4(v, 27, 91, '1' as u8, ';' as u8);
    let s = seq![27u8, 91u8, '1' as u8, ';' as u8];
    lemma_feed(v, s, d);
    lemma_feed(v, s.push(d), 'D' as u8);
    lemma_feed(v, s.push(d), 'C' as u8);
    assert(s.push(d).push('D' as u8) =~= seq![27u8, 91u8, '1' as u8, ';' as u8, d, 'D' as u8]);
    assert(s.push(d).push('C' as u8) =~= seq![27u8, 91u8, '1' as u8, ';' as u8, d, 'C' as u8]);
    assert(0u32 & 4 == 0 && 0u32 & 2 == 0 && 0u32 & 1 == 0 && 1u32 & 4 == 0 && 1u32 & 2 == 0
        && 1u32 & 1 != 0 && 2u32 & 4 == 0 && 2u32 & 2 != 0 && 2u32 & 1 == 0 && 3u32 & 4 == 0
        && 3u32 & 2 != 0 && 3u32 & 1 != 0 && 4u32 & 4 != 0 && 4u32 & 2 == 0 && 4u32 & 1 == 0
        && 5u32 & 4 != 0 && 5u32 & 2 == 0 && 5u32 & 1 != 0 && 6u32 & 4 != 0 && 6u32 & 2 != 0
        && 6u32 & 1 == 0 && 7u32 & 4 != 0 && 7u32 & 2 != 0 && 7u32 & 1 != 0) by (bit_vector);
}

/// Ctrl and a letter send the number of the letter, but for those that are keys of their own; an
/// escape before a character is Alt with it.
pub proof fn law_control_and_alt(v: ReaderView, c: char)
    requires
        is_idle(v),
    ensures
        'a' <= c <= 'z' && c != 'h' && c != 'i' && c != 'j' && c != 'm' ==> types(
            v,
            seq![(c as u8 - 96) as u8],
            Key::Char(c),
            Modifiers { ctrl: true, alt: false, shift: false },
        ),
        ' ' <= c <= '~' && c != '[' && c != 'O' ==> types(
            v,
            seq![27u8, c as u8],
            Key::Char(c),
            Modifiers { ctrl: false, alt: true, shift: false },
        ),
        ' ' <= c <= '~' ==> types(v, seq![c as u8], Key::Char(c), plain()),
{
    if 'a' <= c <= 'z' {
        lemma_feed_1(v, (c as u8 - 96) as u8);
        assert(c as u8 as char == c);
    }
    if ' ' <= c <= '~' {
        lemma_feed_2(v, 27, c as u8);
        lemma_feed_1(v, c as u8);
        assert(c as u8 as char == c);
    }
}

/// Enter sends a carriage return or a newline, Tab a tab, Backspace 127, and with Ctrl 8.
pub proof fn law_single_byte_keys(v: ReaderView)
    requires
        is_idle(v),
    ensures
        types(v, seq![13u8], Key::Enter, plain()),
        types(v, seq![10u8], Key::Enter, plain()),
        types(v, seq![9u8], Key::Tab, plain()),
        types(v, seq![127u8], Key::Backspace, plain()),
        types(v, seq![8u8], Key::Backspace, Modifiers { ctrl: true, alt: false, shift: false }),
{
    lemma_feed_1(v, 13);
    lemma_feed_1(v, 10);
    lemma_feed_1(v, 9);
    lemma_feed_1(v, 127);
    lemma_feed_1(v, 8);
}

/// An escape on its own is the Escape key once no byte follows.
pub proof fn law_escape_key(v: ReaderView)
    requires
        is_idle(v),
    ensures
        v.fed(27).1 is None,
        v.fed(27).0.timed_out().1 == Some(
            EventView::Key(KeyEvent { key: Key::Escape, mods: plain() }),
        ),
        v.timed_out().1 is None,
{
}

/// The bytes of printable characters, tabs and newlines.
pub open spec fn pasted_bytes(t: Seq<char>) -> Seq<u8> {
    Seq::new(t.len(), |i: int| t[i] as u8)
}

pub open spec fn is_pasteable(t: Seq<char>) -> bool {
    forall|i: int|
        0 <= i < t.len() ==> ' ' <= (#[trigger] t[i]) <= '~' || t[i] == '\n' || t[i] == '\t'
}

proof fn lemma_pasting(v: ReaderView, t: Seq<char>)
    requires
        v.in_paste,
        !v.limit_hit,
        v.state is Ground,
        v.paste.len() == 0,
        is_pasteable(t),
        t.len() <= 1024,
    ensures
        ({
            let r = fed_all(v, pasted_bytes(t)).0;
            r.in_paste && !r.limit_hit && r.state is Ground && r.paste == t && byte_len(t) == t.len()
        }),
    decreases t.len(),
{
    if t.len() == 0 {
        assert(pasted_bytes(t) =~= Seq::empty());
        lemma_feed(v, Seq::empty(), 0);
        assert(v.paste =~= t);
    } else {
        let u = t.drop_last();
        let c = t.last();
        assert(t[t.len() - 1] == c);
        assert forall|i: int| 0 <= i < u.len() implies ' ' <= (#[trigger] u[i]) <= '~' || u[i]
            == '\n' || u[i] == '\t' by {
            assert(u[i] == t[i]);
        }
        lemma_pasting(v, u);
        assert(pasted_bytes(t) =~= pasted_bytes(u).push(c as u8));
        lemma_feed(v, pasted_bytes(u), c as u8);
        assert(u.push(c) =~= t);
        assert(c as u8 as char == c);
        crate::text::lemma_byte_len_push(u, c);
        crate::text::lemma_byte_len_one(c);
    }
}

/// What is pasted arrives at once, as the text that it is: no character of it is taken for a key.
pub proof fn law_paste_arrives(v: ReaderView, t: Seq<char>)
    requires
        is_idle(v),
        is_pasteable(t),
        0 < t.len() <= 1024,
    ensures
        ({
            let open = fed_all(
                v,
                seq![27u8, 91u8, '2' as u8, '0' as u8, '0' as u8, '~' as u8],
            ).0;
            let r = fed_all(open, pasted_bytes(t)).0;
            let done = fed_all(r, seq![27u8, 91u8, '2' as u8, '0' as u8, '1' as u8, '~' as u8]);
            done.1 == Some(EventView::Paste(t)) && is_idle(done.0)
        }),
{
    let s = seq![27u8, 91u8, '2' as u8, '0' as u8];
    lemma_feed_4(v, 27, 91, '2' as u8, '0' as u8);
    lemma_feed(v, s, '0' as u8);
    lemma_feed(v, s.push('0' as u8), '~' as u8);
    assert(s.push('0' as u8).push('~' as u8) =~= seq![
        27u8,
        91u8,
        '2' as u8,
        '0' as u8,
        '0' as u8,
        '~' as u8,
    ]);
    let open = fed_all(v, seq![27u8, 91u8, '2' as u8, '0' as u8, '0' as u8, '~' as u8]).0;
    lemma_pasting(open, t);
    let r = fed_all(open, pasted_bytes(t)).0;
    lemma_feed_4(r, 27, 91, '2' as u8, '0' as u8);
    lemma_feed(r, s, '1' as u8);
    lemma_feed(r, s.push('1' as u8), '~' as u8);
    assert(s.push('1' as u8).push('~' as u8) =~= seq![
        27u8,
        91u8,
        '2' as u8,
        '0' as u8,
        '1' as u8,
        '~' as u8,
    ]);
}

} // verus!
