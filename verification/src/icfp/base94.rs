//! The integer codec of the wire on integers of any size, and the text codec.

use crate::base94::digits_wire;
use crate::base94::is_wire;
use crate::base94::is_wire_byte;
use crate::base94::lemma_encode_decode;
use crate::base94::wire_digits;
use crate::base94::wire_of_value;
use crate::base94::wire_value;
use crate::bigint::radix_digits;
use crate::bigint::BigInt;
use crate::text::ascii_string;
use crate::text::ascii_text;
use crate::text::bytes_of;
use crate::text::is_ascii_bytes;
use vstd::prelude::*;
use vstd::string::StringSliceAdditionalSpecFns;

pub use crate::base94::base94_to_str;
pub use crate::base94::str_to_base94;

verus! {

/// The wire text of a number as a token carries it: the shortest text that
/// is not empty, so zero is the single zero digit `!`.
pub open spec fn wire_of_number(n: nat) -> Seq<u8> {
    if n == 0 {
        seq![33u8]
    } else {
        wire_of_value(n)
    }
}

/// The number that a wire text stands for, or `None` when a byte is not of
/// the wire. The empty text stands for zero.
pub fn base94_to_int(s: &str) -> (r: Option<BigInt>)
    ensures
        r.is_some() == is_wire(s.spec_bytes()),
        r.is_some() ==> r.unwrap()@ == wire_value(s.spec_bytes()),
{
    let bytes = bytes_of(s);
    decode_big(&bytes)
}

/// The number that wire bytes stand for, or `None` when a byte is not of the
/// wire.
pub fn decode_big(bytes: &Vec<u8>) -> (r: Option<BigInt>)
    ensures
        r.is_some() == is_wire(bytes@),
        r.is_some() ==> r.unwrap()@ == wire_value(bytes@),
{
    let mut digits: Vec<u8> = Vec::new();
    let mut i: usize = 0;
    while i < bytes.len()
        invariant
            i <= bytes@.len(),
            digits@ == wire_digits(bytes@).subrange(0, i as int),
            forall|j: int| 0 <= j < i ==> is_wire_byte(#[trigger] bytes@[j]),
        decreases bytes@.len() - i,
    {
        let b = bytes[i];
        if b < 33 || b > 126 {
            return None;
        }
        digits.push(b - 33);
        assert(digits@ =~= wire_digits(bytes@).subrange(0, i + 1));
        i += 1;
    }
    proof {
        assert(digits@ =~= wire_digits(bytes@));
        assert forall|j: int| 0 <= j < digits@.len() implies (#[trigger] digits@[j] as nat) < 94 by {
            assert(is_wire_byte(bytes@[j]));
        }
    }
    BigInt::from_radix_be(&digits, 94)
}

/// The wire text of a number that is not negative: its shortest text, and
/// for zero the single zero digit.
pub fn int_to_base94(n: &BigInt) -> (r: String)
    requires
        n@ >= 0,
    ensures
        r@ == ascii_text(wire_of_number(n@ as nat)),
{
    let bytes = encode_big(n);
    ascii_string(bytes)
}

/// The wire bytes of a number that is not negative.
pub fn encode_big(n: &BigInt) -> (r: Vec<u8>)
    requires
        n@ >= 0,
    ensures
        r@ == wire_of_number(n@ as nat),
        is_wire(r@),
        is_ascii_bytes(r@),
        r@.len() > 0,
{
    let digits = n.to_radix_be(94);
    let mut r: Vec<u8> = Vec::new();
    let mut i: usize = 0;
    while i < digits.len()
        invariant
            i <= digits@.len(),
            radix_digits(digits@, 94),
            r@ == digits_wire(digits@).subrange(0, i as int),
        decreases digits@.len() - i,
    {
        assert((digits@[i as int] as nat) < 94);
        r.push(digits[i] + 33);
        assert(r@ =~= digits_wire(digits@).subrange(0, i + 1));
        i += 1;
    }
    proof {
        assert(r@ =~= digits_wire(digits@));
        assert forall|j: int| 0 <= j < r@.len() implies is_wire_byte(#[trigger] r@[j]) by {
            assert((digits@[j] as nat) < 94);
        }
        assert(wire_digits(r@) =~= digits@) by {
            assert forall|j: int| 0 <= j < digits@.len() implies wire_digits(r@)[j] == digits@[j] by {
                assert((digits@[j] as nat) < 94);
            }
        }
        if n@ > 0 {
            assert(r@[0] != 33);
            lemma_encode_decode(r@);
        } else {
            assert(r@ =~= seq![33u8]);
        }
    }
    r
}

} // verus!
