//! The two base-94 codecs of the wire format.
//!
//! The wire is 7-bit ASCII in the range 33..=126, 94 symbols. Read as a
//! number, a wire byte is the digit `byte - 33`, most significant digit first.
//! Read as text, a wire byte stands for one character of a fixed alphabet of 94
//! characters.

use crate::bigint::radix_value;
use crate::text::ascii_string;
use crate::text::ascii_text;
use crate::text::bytes_of;
use crate::text::is_ascii_bytes;
use vstd::prelude::*;
use vstd::string::StringSliceAdditionalSpecFns;

verus! {

/// The radix of the integer codec, and the size of the alphabet.
pub const BASE: u64 = 94;

/// A byte of the wire: printable ASCII without the space.
pub open spec fn is_wire_byte(b: u8) -> bool {
    33 <= b <= 126
}

/// Every byte is a byte of the wire.
pub open spec fn is_wire(bytes: Seq<u8>) -> bool {
    forall|i: int| 0 <= i < bytes.len() ==> is_wire_byte(#[trigger] bytes[i])
}

/// The digits that wire bytes stand for.
pub open spec fn wire_digits(bytes: Seq<u8>) -> Seq<u8> {
    Seq::new(bytes.len(), |i: int| (bytes[i] - 33) as u8)
}

/// The wire bytes that stand for digits.
pub open spec fn digits_wire(digits: Seq<u8>) -> Seq<u8> {
    Seq::new(digits.len(), |i: int| (digits[i] + 33) as u8)
}

/// The number that wire bytes stand for.
pub open spec fn wire_value(bytes: Seq<u8>) -> nat {
    radix_value(wire_digits(bytes), 94)
}

/// The shortest wire text of a number: no leading zero digit, and nothing at
/// all for zero.
pub open spec fn wire_of_value(n: nat) -> Seq<u8>
    decreases n,
{
    if n == 0 {
        Seq::empty()
    } else {
        wire_of_value(n / 94).push((n % 94 + 33) as u8)
    }
}

/// The character of the alphabet at an index below 94: lower case, upper
/// case, digits, then punctuation in the order
/// ``!"#$%&'()*+,-./:;<=>?@[\]^_`|~``, then space and newline.
pub open spec fn alphabet(i: u8) -> u8 {
    if i < 26 {
        (97 + i) as u8
    } else if i < 52 {
        (65 + (i - 26)) as u8
    } else if i < 62 {
        (48 + (i - 52)) as u8
    } else if i < 77 {
        (33 + (i - 62)) as u8
    } else if i < 84 {
        (58 + (i - 77)) as u8
    } else if i < 90 {
        (91 + (i - 84)) as u8
    } else if i == 90 {
        124
    } else if i == 91 {
        126
    } else if i == 92 {
        32
    } else {
        10
    }
}

/// A character of the alphabet.
pub open spec fn in_alphabet(c: u8) -> bool {
    exists|i: u8| i < 94 && alphabet(i) == c
}

/// The index of a character in the alphabet.
pub open spec fn alphabet_index(c: u8) -> u8 {
    if 97 <= c <= 122 {
        (c - 97) as u8
    } else if 65 <= c <= 90 {
        (c - 65 + 26) as u8
    } else if 48 <= c <= 57 {
        (c - 48 + 52) as u8
    } else if 33 <= c <= 47 {
        (c - 33 + 62) as u8
    } else if 58 <= c <= 64 {
        (c - 58 + 77) as u8
    } else if 91 <= c <= 96 {
        (c - 91 + 84) as u8
    } else if c == 124 {
        90
    } else if c == 126 {
        91
    } else if c == 32 {
        92
    } else {
        93
    }
}

/// Every character is in the alphabet.
pub open spec fn is_text(bytes: Seq<u8>) -> bool {
    forall|i: int| 0 <= i < bytes.len() ==> in_alphabet(#[trigger] bytes[i])
}

/// The text that wire bytes stand for.
pub open spec fn wire_to_text(bytes: Seq<u8>) -> Seq<u8> {
    Seq::new(bytes.len(), |i: int| alphabet((bytes[i] - 33) as u8))
}

/// The wire bytes that stand for a text.
pub open spec fn text_to_wire(bytes: Seq<u8>) -> Seq<u8> {
    Seq::new(bytes.len(), |i: int| (alphabet_index(bytes[i]) + 33) as u8)
}

/// The alphabet has no character twice: a character's index leads back to it,
/// and an index's character leads back to the index.
pub proof fn lemma_alphabet_bijective(c: u8)
    ensures
        in_alphabet(c) <==> (c == 10 || (32 <= c <= 126 && c != 123 && c != 125)),
        in_alphabet(c) ==> alphabet_index(c) < 94 && alphabet(alphabet_index(c)) == c,
        c < 94 ==> in_alphabet(alphabet(c)) && alphabet_index(alphabet(c)) == c,
        in_alphabet(c) ==> c < 128,
{
    if c == 10 || (32 <= c <= 126 && c != 123 && c != 125) {
        let i = alphabet_index(c);
        assert(i < 94 && alphabet(i) == c);
    }
    if c < 94 {
        assert(alphabet(c) == alphabet(c));
    }
}

/// Decoding the shortest wire text of a number gives the number back.
pub proof fn lemma_decode_encode(n: nat)
    ensures
        is_wire(wire_of_value(n)),
        wire_value(wire_of_value(n)) == n,
        n > 0 ==> wire_of_value(n).len() > 0 && wire_of_value(n)[0] != 33,
    decreases n,
{
    if n > 0 {
        lemma_decode_encode(n / 94);
        let w = wire_of_value(n);
        let p = wire_of_value(n / 94);
        assert(w == p.push((n % 94 + 33) as u8));
        assert(wire_digits(w).drop_last() =~= wire_digits(p));
        assert(wire_digits(w).last() == n % 94);
        assert((n / 94) * 94 + n % 94 == n) by (nonlinear_arith);
        if n / 94 > 0 {
            assert(w[0] == p[0]);
        } else {
            assert(p.len() == 0);
            assert(w[0] == (n % 94 + 33) as u8);
        }
    } else {
        assert(wire_digits(wire_of_value(0)) =~= Seq::<u8>::empty());
    }
}

/// Encoding the number of a wire text gives the text back, when the text has
/// no leading zero digit.
pub proof fn lemma_encode_decode(bytes: Seq<u8>)
    requires
        is_wire(bytes),
        bytes.len() > 0 ==> bytes[0] != 33,
    ensures
        wire_of_value(wire_value(bytes)) == bytes,
        bytes.len() > 0 ==> wire_value(bytes) > 0,
    decreases bytes.len(),
{
    if bytes.len() == 0 {
        assert(wire_digits(bytes) =~= Seq::<u8>::empty());
        assert(wire_of_value(0) =~= bytes);
    } else {
        let p = bytes.drop_last();
        let d = (bytes.last() - 33) as nat;
        assert(is_wire_byte(bytes.last()));
        assert(wire_digits(bytes).drop_last() =~= wire_digits(p));
        let vp = wire_value(p);
        assert(wire_value(bytes) == vp * 94 + d);
        assert forall|i: int| 0 <= i < p.len() implies is_wire_byte(#[trigger] p[i]) by {
            assert(p[i] == bytes[i]);
        }
        if p.len() > 0 {
            assert(p[0] == bytes[0]);
        }
        lemma_encode_decode(p);
        if p.len() == 0 {
            assert(is_wire_byte(bytes[0]));
            assert(d > 0);
            assert(wire_digits(p) =~= Seq::<u8>::empty());
            assert(vp == 0);
        }
        let v = wire_value(bytes);
        assert(v > 0 && v / 94 == vp && v % 94 == d) by (nonlinear_arith)
            requires
                v == vp * 94 + d,
                0 <= d < 94,
                vp >= 0,
                vp > 0 || d > 0,
        ;
        assert(wire_of_value(v) == wire_of_value(vp).push((d + 33) as u8));
        assert(wire_of_value(v) =~= bytes);
    }
}

/// The number that a wire text stands for, or `None` when a byte is not of
/// the wire or the number does not fit in 64 bits.
pub fn base94_to_int(s: &str) -> (r: Option<u64>)
    ensures
        r.is_some() == (is_wire(s.spec_bytes()) && wire_value(s.spec_bytes()) <= u64::MAX),
        r.is_some() ==> r.unwrap() == wire_value(s.spec_bytes()),
{
    let bytes = bytes_of(s);
    decode_u64(&bytes)
}

/// The number that a wire text stands for, as the lexer reads the number of
/// a variable: `None` when a byte is not of the wire or the number does not
/// fit in 64 bits.
pub fn from_base94(s: &str) -> (r: Option<u64>)
    ensures
        r.is_some() == (is_wire(s.spec_bytes()) && wire_value(s.spec_bytes()) <= u64::MAX),
        r.is_some() ==> r.unwrap() == wire_value(s.spec_bytes()),
{
    base94_to_int(s)
}

/// The shortest wire text of a number, as a variable's number is written;
/// for zero the empty text.
pub fn to_base94(s: u64) -> (r: String)
    ensures
        r@ == ascii_text(wire_of_value(s as nat)),
{
    int_to_base94(s)
}

/// The number that wire bytes stand for, or `None` when a byte is not of the
/// wire or the number does not fit in 64 bits.
pub fn decode_u64(bytes: &Vec<u8>) -> (r: Option<u64>)
    ensures
        r.is_some() == (is_wire(bytes@) && wire_value(bytes@) <= u64::MAX),
        r.is_some() ==> r.unwrap() == wire_value(bytes@),
{
    let ghost digits = wire_digits(bytes@);
    let n = bytes.len();
    let mut result: u64 = 0;
    let mut overflow = false;
    let mut i: usize = 0;
    proof {
        assert(digits.subrange(0, 0) =~= Seq::<u8>::empty());
    }
    while i < n
        invariant
            i <= n,
            n == bytes@.len(),
            digits == wire_digits(bytes@),
            forall|j: int| 0 <= j < i ==> is_wire_byte(#[trigger] bytes@[j]),
            !overflow ==> result == radix_value(digits.subrange(0, i as int), 94),
            overflow ==> radix_value(digits.subrange(0, i as int), 94) > u64::MAX,
        decreases n - i,
    {
        let b = bytes[i];
        if b < 33 || b > 126 {
            return None;
        }
        let d: u64 = (b - 33) as u64;
        proof {
            let p = digits.subrange(0, i + 1);
            assert(p.drop_last() =~= digits.subrange(0, i as int));
            assert(p.last() == d);
            let v = radix_value(digits.subrange(0, i as int), 94);
            assert(radix_value(p, 94) == v * 94 + d);
            assert(v * 94 + d >= v) by (nonlinear_arith)
                requires
                    v >= 0,
                    d >= 0,
            ;
        }
        if !overflow {
            if result > (u64::MAX - d) / 94 {
                overflow = true;
                assert(result * 94 + d > u64::MAX) by (nonlinear_arith)
                    requires
                        result > (u64::MAX - d) / 94,
                        0 <= d < 94,
                ;
            } else {
                assert(result * 94 + d <= u64::MAX) by (nonlinear_arith)
                    requires
                        result <= (u64::MAX - d) / 94,
                        0 <= d < 94,
                ;
                result = result * 94 + d;
            }
        }
        i += 1;
    }
    proof {
        assert(digits.subrange(0, n as int) =~= digits);
    }
    if overflow {
        None
    } else {
        Some(result)
    }
}

/// The shortest wire text of a number; for zero the empty text.
pub fn int_to_base94(n: u64) -> (r: String)
    ensures
        r@ == ascii_text(wire_of_value(n as nat)),
{
    let bytes = encode_u64(n);
    ascii_string(bytes)
}

/// The shortest wire bytes of a number; for zero none.
pub fn encode_u64(n: u64) -> (r: Vec<u8>)
    ensures
        r@ == wire_of_value(n as nat),
        is_wire(r@),
        is_ascii_bytes(r@),
{
    let mut reversed: Vec<u8> = Vec::new();
    let mut rest: u64 = n;
    while rest > 0
        invariant
            wire_of_value(n as nat) == wire_of_value(rest as nat) + reversed@.reverse(),
        decreases rest,
    {
        let digit: u8 = (rest % 94) as u8;
        let ghost before = reversed@;
        reversed.push(digit + 33);
        proof {
            let tail = wire_of_value((rest / 94) as nat);
            assert(wire_of_value(rest as nat) == tail.push((digit + 33) as u8));
            assert(reversed@.reverse() =~= seq![(digit + 33) as u8] + before.reverse());
            assert(tail.push((digit + 33) as u8) + before.reverse() =~= tail + reversed@.reverse());
        }
        rest = rest / 94;
    }
    let mut r: Vec<u8> = Vec::new();
    let mut i: usize = reversed.len();
    while i > 0
        invariant
            i <= reversed@.len(),
            r@ == reversed@.reverse().subrange(0, reversed@.len() - i),
        decreases i,
    {
        i -= 1;
        r.push(reversed[i]);
        assert(r@ =~= reversed@.reverse().subrange(0, reversed@.len() - i));
    }
    proof {
        assert(r@ =~= reversed@.reverse());
        assert(wire_of_value(0) =~= Seq::<u8>::empty());
        assert(r@ =~= wire_of_value(n as nat));
        lemma_decode_encode(n as nat);
    }
    r
}

/// The character of the alphabet that a wire byte stands for.
pub fn text_byte(wire: u8) -> (r: u8)
    requires
        is_wire_byte(wire),
    ensures
        r == alphabet((wire - 33) as u8),
        in_alphabet(r),
        r < 128,
{
    let i: u8 = wire - 33;
    proof {
        lemma_alphabet_bijective(i);
        lemma_alphabet_bijective(alphabet(i));
    }
    if i < 26 {
        97 + i
    } else if i < 52 {
        65 + (i - 26)
    } else if i < 62 {
        48 + (i - 52)
    } else if i < 77 {
        33 + (i - 62)
    } else if i < 84 {
        58 + (i - 77)
    } else if i < 90 {
        91 + (i - 84)
    } else if i == 90 {
        124
    } else if i == 91 {
        126
    } else if i == 92 {
        32
    } else {
        10
    }
}

/// The wire byte that stands for a character, or `None` when the character
/// is not in the alphabet.
pub fn wire_byte(c: u8) -> (r: Option<u8>)
    ensures
        r.is_some() == in_alphabet(c),
        r.is_some() ==> r.unwrap() == alphabet_index(c) + 33 && is_wire_byte(r.unwrap()),
{
    proof {
        lemma_alphabet_bijective(c);
    }
    if c == 10 {
        Some(93 + 33)
    } else if c < 32 || c > 126 || c == 123 || c == 125 {
        None
    } else if 97 <= c && c <= 122 {
        Some(c - 97 + 33)
    } else if 65 <= c && c <= 90 {
        Some(c - 65 + 26 + 33)
    } else if 48 <= c && c <= 57 {
        Some(c - 48 + 52 + 33)
    } else if 33 <= c && c <= 47 {
        Some(c - 33 + 62 + 33)
    } else if 58 <= c && c <= 64 {
        Some(c - 58 + 77 + 33)
    } else if 91 <= c && c <= 96 {
        Some(c - 91 + 84 + 33)
    } else if c == 124 {
        Some(90 + 33)
    } else if c == 126 {
        Some(91 + 33)
    } else {
        Some(92 + 33)
    }
}

/// The text that wire bytes stand for.
pub fn wire_bytes_to_text(wire: &Vec<u8>) -> (r: Vec<u8>)
    requires
        is_wire(wire@),
    ensures
        r@ == wire_to_text(wire@),
        is_text(r@),
        is_ascii_bytes(r@),
{
    let mut r: Vec<u8> = Vec::new();
    let mut i: usize = 0;
    while i < wire.len()
        invariant
            i <= wire@.len(),
            is_wire(wire@),
            r@ == wire_to_text(wire@).subrange(0, i as int),
            is_text(r@),
            is_ascii_bytes(r@),
        decreases wire@.len() - i,
    {
        assert(is_wire_byte(wire@[i as int]));
        let c = text_byte(wire[i]);
        r.push(c);
        assert(r@ =~= wire_to_text(wire@).subrange(0, i + 1));
        i += 1;
    }
    assert(r@ =~= wire_to_text(wire@));
    r
}

/// The wire bytes that stand for a text, or `None` when a character of the
/// text is not in the alphabet.
pub fn text_bytes_to_wire(text: &Vec<u8>) -> (r: Option<Vec<u8>>)
    ensures
        r.is_some() == is_text(text@),
        r.is_some() ==> r.unwrap()@ == text_to_wire(text@) && is_wire(r.unwrap()@),
{
    let mut r: Vec<u8> = Vec::new();
    let mut i: usize = 0;
    while i < text.len()
        invariant
            i <= text@.len(),
            r@ == text_to_wire(text@).subrange(0, i as int),
            is_wire(r@),
            forall|j: int| 0 <= j < i ==> in_alphabet(#[trigger] text@[j]),
        decreases text@.len() - i,
    {
        match wire_byte(text[i]) {
            Some(b) => {
                r.push(b);
            },
            None => {
                return None;
            },
        }
        assert(r@ =~= text_to_wire(text@).subrange(0, i + 1));
        i += 1;
    }
    assert(r@ =~= text_to_wire(text@));
    Some(r)
}

/// The text that a wire text stands for.
pub fn base94_to_str(s: &str) -> (r: String)
    requires
        is_wire(s.spec_bytes()),
    ensures
        r@ == ascii_text(wire_to_text(s.spec_bytes())),
{
    let wire = bytes_of(s);
    let text = wire_bytes_to_text(&wire);
    ascii_string(text)
}

/// The wire text that stands for a text.
pub fn str_to_base94(s: &str) -> (r: String)
    requires
        is_text(s.spec_bytes()),
    ensures
        r@ == ascii_text(text_to_wire(s.spec_bytes())),
{
    let text = bytes_of(s);
    match text_bytes_to_wire(&text) {
        Some(wire) => {
            proof {
                assert forall|i: int| 0 <= i < wire@.len() implies #[trigger] wire@[i] < 128 by {
                    assert(is_wire_byte(wire@[i]));
                }
            }
            ascii_string(wire)
        },
        None => String::new(),
    }
}

/// Wire text and text are two readings of the same bytes: each map undoes the
/// other.
pub proof fn lemma_text_wire_round_trip(bytes: Seq<u8>)
    ensures
        is_wire(bytes) ==> is_text(wire_to_text(bytes)) && text_to_wire(wire_to_text(bytes))
            == bytes,
        is_text(bytes) ==> is_wire(text_to_wire(bytes)) && wire_to_text(text_to_wire(bytes))
            == bytes,
{
    if is_wire(bytes) {
        let t = wire_to_text(bytes);
        assert forall|i: int| 0 <= i < t.len() implies in_alphabet(#[trigger] t[i])
            && text_to_wire(t)[i] == bytes[i] by {
            assert(is_wire_byte(bytes[i]));
            lemma_alphabet_bijective((bytes[i] - 33) as u8);
        }
        assert(text_to_wire(t) =~= bytes);
    }
    if is_text(bytes) {
        let w = text_to_wire(bytes);
        assert forall|i: int| 0 <= i < w.len() implies is_wire_byte(#[trigger] w[i])
            && wire_to_text(w)[i] == bytes[i] by {
            assert(in_alphabet(bytes[i]));
            lemma_alphabet_bijective(bytes[i]);
        }
        assert(wire_to_text(w) =~= bytes);
    }
}

} // verus!
