//! Paths as the system hands them out: bytes that need not be text.
//!
//! Each byte is read as one character, so that the rules for paths hold of it as they stand.
use vstd::prelude::*;

use crate::dirs::joined_path;
use crate::text::{chars_of, string_of};

verus! {

/// A path with one character for each byte.
pub open spec fn byte_text(b: Seq<u8>) -> Seq<char> {
    Seq::new(b.len(), |i: int| b[i] as char)
}

/// The path that has one byte for each character.
pub open spec fn text_bytes(s: Seq<char>) -> Seq<u8> {
    Seq::new(s.len(), |i: int| s[i] as u8)
}

pub open spec fn opt_text(b: Option<Vec<u8>>) -> Option<Seq<char>> {
    match b {
        Some(v) => Some(byte_text(v@)),
        None => None,
    }
}

pub fn text_of(b: &Vec<u8>) -> (r: String)
    ensures
        r@ == byte_text(b@),
{
    let mut v: Vec<char> = Vec::new();
    let mut i: usize = 0;
    while i < b.len()
        invariant
            i <= b.len(),
            v.len() == i,
            forall|k: int| 0 <= k < i ==> #[trigger] v@[k] == b@[k] as char,
        decreases b.len() - i,
    {
        v.push(b[i] as char);
        i += 1;
    }
    assert(v@ =~= byte_text(b@));
    string_of(v.as_slice())
}

pub fn bytes_of(s: &str) -> (r: Vec<u8>)
    ensures
        r@ == text_bytes(s@),
{
    let t = chars_of(s);
    let mut v: Vec<u8> = Vec::new();
    let mut i: usize = 0;
    while i < t.len()
        invariant
            i <= t.len(),
            t@ == s@,
            v.len() == i,
            forall|k: int| 0 <= k < i ==> #[trigger] v@[k] == s@[k] as u8,
        decreases t.len() - i,
    {
        v.push(t[i] as u8);
        i += 1;
    }
    assert(v@ =~= text_bytes(s@));
    v
}

/// Reading a path keeps its bytes, whatever they are.
pub proof fn law_bytes_are_kept(b: Seq<u8>)
    ensures
        text_bytes(byte_text(b)) == b,
{
    assert forall|i: int| 0 <= i < b.len() implies (b[i] as char) as u8 == b[i] by {
        let x = b[i];
        assert((x as u32) as u8 == x) by (bit_vector);
    }
    assert(text_bytes(byte_text(b)) =~= b);
}

/// A name below a directory is the directory's bytes, a slash and the name's.
pub proof fn law_joined_bytes(dir: Seq<u8>, name: Seq<char>)
    requires
        dir.len() > 0,
        dir.last() != 0x2f,
        name.len() > 0 ==> name[0] != '/',
    ensures
        text_bytes(joined_path(byte_text(dir), name)) == dir.push(0x2f) + text_bytes(name),
{
    law_bytes_are_kept(dir);
    let d = byte_text(dir);
    assert(d.last() == dir.last() as char);
    let joined = joined_path(d, name);
    assert(joined == d.push('/') + name);
    assert('/' as u8 == 0x2f);
    assert forall|i: int| 0 <= i < dir.len() implies text_bytes(joined)[i] == dir[i] by {
        assert(joined[i] == d[i]);
        assert(text_bytes(d)[i] == dir[i]);
    }
    assert(text_bytes(joined) =~= dir.push(0x2f) + text_bytes(name));
}

} // verus!
