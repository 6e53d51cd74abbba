//! Text as bytes.
use vstd::prelude::*;
use vstd::utf8::*;

verus! {

/// `String::from_utf8` returns the text that the bytes encode, and an error exactly where
/// they are not valid UTF-8.
#[verifier::external_body]
fn from_utf8(bytes: Vec<u8>) -> (r: Option<String>)
    ensures
        match r {
            Some(s) => valid_utf8(bytes@) && encode_utf8(s@) == bytes@,
            None => !valid_utf8(bytes@),
        },
{
    String::from_utf8(bytes).ok()
}

/// The text that bytes encode, if they are valid.
pub open spec fn text_of(bytes: Seq<u8>) -> Option<Seq<char>> {
    if valid_utf8(bytes) {
        Some(decode_utf8(bytes))
    } else {
        None
    }
}

/// The text that the bytes from `from` up to `to` encode, if they are valid.
pub fn text_at(data: &Vec<u8>, from: usize, to: usize) -> (r: Option<String>)
    requires
        from <= to <= data.len(),
    ensures
        match text_of(data@.subrange(from as int, to as int)) {
            Some(t) => r matches Some(s) && s@ == t,
            None => r is None,
        },
{
    let mut part: Vec<u8> = Vec::new();
    let mut i: usize = from;
    while i < to
        invariant
            from <= i <= to <= data.len(),
            part@ =~= data@.subrange(from as int, i as int),
        decreases to - i,
    {
        part.push(data[i]);
        i += 1;
    }
    let r = from_utf8(part);
    proof {
        if r is Some {
            encode_utf8_decode_utf8(r->0@);
        }
    }
    r
}

/// Encoding a text and reading it gives the text back.
pub proof fn law_text_round_trip(s: Seq<char>)
    ensures
        text_of(encode_utf8(s)) == Some(s),
{
    encode_utf8_valid_utf8(s);
    encode_utf8_decode_utf8(s);
}

} // verus!
