//! Text as bytes: the wire format and the board format are 7-bit ASCII, so the
//! library reads a `&str` through its UTF-8 bytes and builds a `String` from
//! ASCII bytes.

use vstd::prelude::*;
use vstd::string::StringSliceAdditionalSpecFns;
use vstd::string::StrSliceExecFns;

verus! {

/// Every byte is below 128.
pub open spec fn is_ascii_bytes(bytes: Seq<u8>) -> bool {
    forall|i: int| 0 <= i < bytes.len() ==> #[trigger] bytes[i] < 128
}

/// The characters that ASCII bytes stand for.
pub open spec fn ascii_text(bytes: Seq<u8>) -> Seq<char> {
    Seq::new(bytes.len(), |i: int| bytes[i] as char)
}

/// The bytes of ASCII characters.
pub open spec fn ascii_bytes(chars: Seq<char>) -> Seq<u8> {
    Seq::new(chars.len(), |i: int| chars[i] as u8)
}

/// The UTF-8 bytes of a text.
pub fn bytes_of(s: &str) -> (r: Vec<u8>)
    ensures
        r@ == s.spec_bytes(),
{
    s.as_bytes_vec()
}

/// `String::from_utf8` on bytes below 128: the text with one character for
/// each byte.
#[verifier::external_body]
pub(crate) fn ascii_string(bytes: Vec<u8>) -> (s: String)
    requires
        is_ascii_bytes(bytes@),
    ensures
        s@ == ascii_text(bytes@),
{
    match String::from_utf8(bytes) {
        Ok(s) => s,
        Err(_) => String::new(),
    }
}

/// The UTF-8 bytes of ASCII characters are the characters themselves.
pub proof fn lemma_ascii_round_trip(bytes: Seq<u8>)
    requires
        is_ascii_bytes(bytes),
    ensures
        vstd::utf8::is_ascii_chars(ascii_text(bytes)),
        vstd::utf8::encode_utf8(ascii_text(bytes)) == bytes,
        ascii_bytes(ascii_text(bytes)) == bytes,
{
    let chars = ascii_text(bytes);
    assert forall|i: int| 0 <= i < chars.len() implies '\0' <= #[trigger] chars[i] <= '\u{7f}' by {
        assert(bytes[i] < 128);
    }
    vstd::utf8::is_ascii_chars_encode_utf8(chars);
    let enc = vstd::utf8::encode_utf8(chars);
    assert forall|i: int| 0 <= i < enc.len() implies enc[i] == bytes[i] by {
        assert(bytes[i] < 128);
        assert(chars[i] as u8 == enc[i]);
    }
    assert(enc =~= bytes);
    assert forall|i: int| 0 <= i < bytes.len() implies ascii_bytes(chars)[i] == bytes[i] by {
        assert(bytes[i] < 128);
    }
    assert(ascii_bytes(chars) =~= bytes);
}


/// A copy of the bytes from `from` up to `to`.
pub fn slice_bytes(bytes: &Vec<u8>, from: usize, to: usize) -> (r: Vec<u8>)
    requires
        from <= to <= bytes@.len(),
    ensures
        r@ == bytes@.subrange(from as int, to as int),
{
    let mut r: Vec<u8> = Vec::new();
    let mut i: usize = from;
    while i < to
        invariant
            from <= i <= to <= bytes@.len(),
            r@ == bytes@.subrange(from as int, i as int),
        decreases to - i,
    {
        r.push(bytes[i]);
        assert(r@ =~= bytes@.subrange(from as int, i + 1));
        i += 1;
    }
    r
}

/// Appends all of `tail` to `bytes`.
pub fn append_bytes(bytes: &mut Vec<u8>, tail: &Vec<u8>)
    ensures
        final(bytes)@ == old(bytes)@ + tail@,
{
    let mut i: usize = 0;
    while i < tail.len()
        invariant
            i <= tail@.len(),
            bytes@ == old(bytes)@ + tail@.subrange(0, i as int),
        decreases tail@.len() - i,
    {
        bytes.push(tail[i]);
        assert(bytes@ =~= old(bytes)@ + tail@.subrange(0, i + 1));
        i += 1;
    }
    assert(tail@.subrange(0, tail@.len() as int) =~= tail@);
}


/// The bytes of a text that is ASCII, one for each character; `None` for a
/// text that is not.
pub fn ascii_bytes_of(s: &str) -> (r: Option<Vec<u8>>)
    ensures
        r.is_some() == vstd::utf8::is_ascii_chars(s@),
        r.is_some() ==> r.unwrap()@ == ascii_bytes(s@) && r.unwrap()@ == s.spec_bytes()
            && is_ascii_bytes(r.unwrap()@),
{
    if !s.is_ascii() {
        return None;
    }
    let bytes = bytes_of(s);
    proof {
        vstd::string::is_ascii_spec_bytes(s);
        assert(bytes@ =~= ascii_bytes(s@));
        vstd::utf8::is_ascii_chars_nat_bound(s@);
        assert forall|i: int| 0 <= i < bytes@.len() implies #[trigger] bytes@[i] < 128 by {
            assert((s@[i] as nat) < 128);
        }
    }
    Some(bytes)
}

} // verus!
