//! The message that a request to the contest server carries.

use crate::base94::is_text;
use crate::base94::text_bytes_to_wire;
use crate::base94::text_to_wire;
use crate::text::append_bytes;
use crate::text::bytes_of;
use vstd::prelude::*;

verus! {

/// The body of a request that sends a text: the text as one string token of
/// the wire, `S` and then the text's wire bytes. `None` for a text with a
/// character outside the alphabet.
pub fn encode(message: String) -> (r: Option<Vec<u8>>)
    ensures
        r.is_some() == is_text(vstd::utf8::encode_utf8(message@)),
        r.is_some() ==> r.unwrap()@ == seq![83u8] + text_to_wire(vstd::utf8::encode_utf8(message@)),
{
    let text = bytes_of(message.as_str());
    match text_bytes_to_wire(&text) {
        Some(wire) => {
            let mut encoded: Vec<u8> = Vec::new();
            encoded.push(83);
            append_bytes(&mut encoded, &wire);
            Some(encoded)
        },
        None => None,
    }
}

} // verus!
