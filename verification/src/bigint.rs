//! Unbounded signed integers.
//!
//! A [`BigInt`] keeps its sign and its magnitude as plain data, so that the
//! rest of the library can build, read and compare integers in verified code.
//! The arithmetic itself, and the change of radix, is done by `num`'s big
//! integers.

use num::bigint::Sign;
use vstd::prelude::*;

verus! {

/// The number that a little-endian sequence of base 2^32 digits stands for.
pub open spec fn magnitude_value(digits: Seq<u32>) -> nat
    decreases digits.len(),
{
    if digits.len() == 0 {
        0
    } else {
        digits[0] as nat + 4294967296 * magnitude_value(digits.subrange(1, digits.len() as int))
    }
}

/// The integer that a sign and a magnitude stand for.
pub open spec fn signed_value(negative: bool, digits: Seq<u32>) -> int {
    if negative {
        -(magnitude_value(digits) as int)
    } else {
        magnitude_value(digits) as int
    }
}

/// A magnitude is canonical when its most significant digit is not zero.
pub open spec fn canonical_magnitude(digits: Seq<u32>) -> bool {
    digits.len() > 0 ==> digits.last() != 0
}

/// The number that a big-endian sequence of digits stands for in a radix.
pub open spec fn radix_value(digits: Seq<u8>, radix: nat) -> nat
    decreases digits.len(),
{
    if digits.len() == 0 {
        0
    } else {
        radix_value(digits.drop_last(), radix) * radix + digits.last() as nat
    }
}

/// Every digit is below the radix.
pub open spec fn radix_digits(digits: Seq<u8>, radix: nat) -> bool {
    forall|i: int| 0 <= i < digits.len() ==> (#[trigger] digits[i] as nat) < radix
}

/// Division that rounds towards zero.
pub open spec fn truncated_div(a: int, b: int) -> int {
    if b == 0 {
        0
    } else if a >= 0 {
        if b > 0 {
            a / b
        } else {
            -(a / (-b))
        }
    } else {
        if b > 0 {
            -((-a) / b)
        } else {
            (-a) / (-b)
        }
    }
}

/// The remainder of the division that rounds towards zero: it has the sign of
/// the dividend.
pub open spec fn truncated_rem(a: int, b: int) -> int {
    a - b * truncated_div(a, b)
}

/// The decimal digits of a natural number, most significant first; zero is
/// the single digit `0`.
pub open spec fn decimal_digits(n: nat) -> Seq<char>
    decreases n,
{
    if n < 10 {
        seq![(('0' as u8) + (n as u8)) as char]
    } else {
        decimal_digits(n / 10).push((('0' as u8) + ((n % 10) as u8)) as char)
    }
}

/// An integer in decimal, with a leading `-` when it is negative.
pub open spec fn decimal_text(n: int) -> Seq<char> {
    if n < 0 {
        seq!['-'] + decimal_digits((-n) as nat)
    } else {
        decimal_digits(n as nat)
    }
}

/// A canonical magnitude that is not empty stands for a positive number.
pub proof fn lemma_canonical_positive(digits: Seq<u32>)
    requires
        digits.len() > 0,
        digits.last() != 0,
    ensures
        magnitude_value(digits) > 0,
    decreases digits.len(),
{
    let rest = digits.subrange(1, digits.len() as int);
    if rest.len() > 0 {
        assert(rest.last() == digits.last());
        lemma_canonical_positive(rest);
        assert(4294967296 * magnitude_value(rest) > 0) by (nonlinear_arith)
            requires
                magnitude_value(rest) > 0,
        ;
    }
}

/// Two canonical magnitudes of the same number are the same digits.
pub proof fn lemma_canonical_unique(a: Seq<u32>, b: Seq<u32>)
    requires
        canonical_magnitude(a),
        canonical_magnitude(b),
        magnitude_value(a) == magnitude_value(b),
    ensures
        a == b,
    decreases a.len(),
{
    if a.len() == 0 {
        if b.len() > 0 {
            lemma_canonical_positive(b);
        }
        assert(a =~= b);
    } else if b.len() == 0 {
        lemma_canonical_positive(a);
    } else {
        let ra = a.subrange(1, a.len() as int);
        let rb = b.subrange(1, b.len() as int);
        let va = magnitude_value(ra);
        let vb = magnitude_value(rb);
        assert(a[0] == b[0] && va == vb) by (nonlinear_arith)
            requires
                a[0] as nat + 4294967296 * va == b[0] as nat + 4294967296 * vb,
                a[0] < 4294967296,
                b[0] < 4294967296,
        ;
        if ra.len() > 0 {
            assert(ra.last() == a.last());
        }
        if rb.len() > 0 {
            assert(rb.last() == b.last());
        }
        lemma_canonical_unique(ra, rb);
        assert(a =~= seq![a[0]] + ra);
        assert(b =~= seq![b[0]] + rb);
    }
}

/// An integer of any size.
#[derive(Debug, PartialEq, Eq, Hash)]
pub struct BigInt {
    negative: bool,
    magnitude: Vec<u32>,
}

impl View for BigInt {
    type V = int;

    closed spec fn view(&self) -> int {
        signed_value(self.negative, self.magnitude@)
    }
}

impl Clone for BigInt {
    fn clone(&self) -> (r: Self)
        ensures
            r@ == self@,
    {
        proof {
            use_type_invariant(self);
        }
        BigInt { negative: self.negative, magnitude: copy_digits(&self.magnitude) }
    }
}

impl BigInt {
    /// The representation is canonical: the most significant digit is not
    /// zero, and zero is not negative.
    #[verifier::type_invariant]
    pub closed spec fn canonical(&self) -> bool {
        &&& canonical_magnitude(self.magnitude@)
        &&& self.negative ==> self.magnitude@.len() > 0
    }

    /// Zero.
    pub fn zero() -> (r: BigInt)
        ensures
            r@ == 0,
    {
        BigInt { negative: false, magnitude: Vec::new() }
    }

    /// The integer with the value of `v`.
    pub fn from_u64(v: u64) -> (r: BigInt)
        ensures
            r@ == v,
    {
        BigInt { negative: false, magnitude: magnitude_of(v) }
    }

    /// The integer with the value of `v`.
    pub fn from_i64(v: i64) -> (r: BigInt)
        ensures
            r@ == v,
    {
        if v >= 0 {
            BigInt { negative: false, magnitude: magnitude_of(v as u64) }
        } else {
            let m: u64 = ((-(v + 1)) as u64) + 1;
            BigInt { negative: true, magnitude: magnitude_of(m) }
        }
    }

    /// Whether the integer is zero.
    pub fn is_zero(&self) -> (r: bool)
        ensures
            r == (self@ == 0),
    {
        proof {
            use_type_invariant(self);
            if self.magnitude@.len() > 0 {
                lemma_canonical_positive(self.magnitude@);
            }
        }
        self.magnitude.len() == 0
    }

    /// Whether the integer is one.
    pub fn is_one(&self) -> (r: bool)
        ensures
            r == (self@ == 1),
    {
        proof {
            use_type_invariant(self);
            let d = self.magnitude@;
            if d.len() > 0 {
                lemma_canonical_positive(d);
                let rest = d.subrange(1, d.len() as int);
                if rest.len() > 0 {
                    assert(rest.last() == d.last());
                    lemma_canonical_positive(rest);
                    assert(4294967296 * magnitude_value(rest) >= 4294967296) by (nonlinear_arith)
                        requires
                            magnitude_value(rest) > 0,
                    ;
                }
            }
        }
        !self.negative && self.magnitude.len() == 1 && self.magnitude[0] == 1
    }

    /// Whether the integer is below zero.
    pub fn is_negative(&self) -> (r: bool)
        ensures
            r == (self@ < 0),
    {
        proof {
            use_type_invariant(self);
            if self.magnitude@.len() > 0 {
                lemma_canonical_positive(self.magnitude@);
            }
        }
        self.negative
    }

    /// The integer with the opposite sign.
    pub fn neg(&self) -> (r: BigInt)
        ensures
            r@ == -self@,
    {
        proof {
            use_type_invariant(self);
        }
        let digits = copy_digits(&self.magnitude);
        if self.magnitude.len() == 0 {
            BigInt { negative: false, magnitude: digits }
        } else {
            BigInt { negative: !self.negative, magnitude: digits }
        }
    }

    /// Whether two integers are the same number.
    pub fn equals(&self, other: &BigInt) -> (r: bool)
        ensures
            r == (self@ == other@),
    {
        proof {
            use_type_invariant(self);
            use_type_invariant(other);
            let a = self.magnitude@;
            let b = other.magnitude@;
            if a.len() > 0 {
                lemma_canonical_positive(a);
            }
            if b.len() > 0 {
                lemma_canonical_positive(b);
            }
            if magnitude_value(a) == magnitude_value(b) {
                lemma_canonical_unique(a, b);
            }
        }
        if self.negative != other.negative || self.magnitude.len() != other.magnitude.len() {
            return false;
        }
        let n = self.magnitude.len();
        let mut i: usize = 0;
        while i < n
            invariant
                i <= n,
                n == self.magnitude@.len(),
                n == other.magnitude@.len(),
                self.negative == other.negative,
                self@ == other@ ==> self.magnitude@ == other.magnitude@,
                forall|j: int| 0 <= j < i ==> self.magnitude@[j] == other.magnitude@[j],
            decreases n - i,
        {
            if self.magnitude[i] != other.magnitude[i] {
                return false;
            }
            i += 1;
        }
        assert(self.magnitude@ =~= other.magnitude@);
        true
    }

    /// The absolute value, reduced modulo 2^64.
    pub fn low_u64(&self) -> (r: u64)
        ensures
            r == vstd::math::abs(self@) % 18446744073709551616,
    {
        let n = self.magnitude.len();
        let ghost d = self.magnitude@;
        proof {
            assert(vstd::math::abs(self@) == magnitude_value(d));
            if n >= 1 {
                let r1 = d.subrange(1, d.len() as int);
                assert(magnitude_value(d) == d[0] as nat + 4294967296 * magnitude_value(r1));
                if n >= 2 {
                    let r2 = r1.subrange(1, r1.len() as int);
                    let v2 = magnitude_value(r2);
                    assert(r1[0] == d[1]);
                    assert(magnitude_value(r1) == d[1] as nat + 4294967296 * v2);
                    assert((d[0] as nat + 4294967296 * (d[1] as nat + 4294967296 * v2))
                        % 18446744073709551616 == d[0] as nat + 4294967296 * (d[1] as nat))
                        by (nonlinear_arith)
                        requires
                            d[0] < 4294967296,
                            d[1] < 4294967296,
                            v2 >= 0,
                    ;
                } else {
                    assert(magnitude_value(r1) == 0);
                }
            }
        }
        if n == 0 {
            0
        } else if n == 1 {
            self.magnitude[0] as u64
        } else {
            let lo: u64 = self.magnitude[0] as u64;
            let hi: u64 = self.magnitude[1] as u64;
            assert(lo + 4294967296 * hi <= u64::MAX) by (nonlinear_arith)
                requires
                    lo < 4294967296,
                    hi < 4294967296,
            ;
            lo + 4294967296 * hi
        }
    }

    /// The integer as an `i32`, when it fits.
    pub fn to_i32(&self) -> (r: Option<i32>)
        ensures
            match r {
                Some(v) => v == self@,
                None => self@ < i32::MIN || self@ > i32::MAX,
            },
    {
        proof {
            use_type_invariant(self);
            let d = self.magnitude@;
            if d.len() > 0 {
                let rest = d.subrange(1, d.len() as int);
                if rest.len() > 0 {
                    assert(rest.last() == d.last());
                    lemma_canonical_positive(rest);
                    assert(4294967296 * magnitude_value(rest) >= 4294967296) by (nonlinear_arith)
                        requires
                            magnitude_value(rest) > 0,
                    ;
                }
            }
        }
        let n = self.magnitude.len();
        if n == 0 {
            Some(0)
        } else if n == 1 {
            let m: u32 = self.magnitude[0];
            if self.negative {
                if m <= 2147483648 {
                    Some((-(m as i64)) as i32)
                } else {
                    None
                }
            } else {
                if m <= 2147483647 {
                    Some(m as i32)
                } else {
                    None
                }
            }
        } else {
            None
        }
    }

    /// The sum of two integers.
    pub fn add(&self, other: &BigInt) -> (r: BigInt)
        ensures
            r@ == self@ + other@,
    {
        num_add(self, other)
    }

    /// The difference of two integers.
    pub fn sub(&self, other: &BigInt) -> (r: BigInt)
        ensures
            r@ == self@ - other@,
    {
        num_sub(self, other)
    }

    /// The product of two integers.
    pub fn mul(&self, other: &BigInt) -> (r: BigInt)
        ensures
            r@ == self@ * other@,
    {
        num_mul(self, other)
    }

    /// The quotient rounded towards zero, or `None` when the divisor is zero.
    pub fn checked_div(&self, other: &BigInt) -> (r: Option<BigInt>)
        ensures
            other@ == 0 ==> r.is_none(),
            other@ != 0 ==> r.is_some() && r.unwrap()@ == truncated_div(self@, other@),
    {
        if other.is_zero() {
            None
        } else {
            Some(num_div(self, other))
        }
    }

    /// The remainder of the division rounded towards zero, or `None` when the
    /// divisor is zero.
    pub fn checked_rem(&self, other: &BigInt) -> (r: Option<BigInt>)
        ensures
            other@ == 0 ==> r.is_none(),
            other@ != 0 ==> r.is_some() && r.unwrap()@ == truncated_rem(self@, other@),
    {
        if other.is_zero() {
            None
        } else {
            Some(num_rem(self, other))
        }
    }

    /// Whether this integer is below the other.
    pub fn less_than(&self, other: &BigInt) -> (r: bool)
        ensures
            r == (self@ < other@),
    {
        num_less(self, other)
    }

    /// The integer that big-endian digits stand for in a radix, or `None`
    /// when a digit is not below the radix.
    pub fn from_radix_be(digits: &Vec<u8>, radix: u32) -> (r: Option<BigInt>)
        requires
            2 <= radix <= 256,
        ensures
            r.is_some() == radix_digits(digits@, radix as nat),
            r.is_some() ==> r.unwrap()@ == radix_value(digits@, radix as nat),
    {
        let mut i: usize = 0;
        while i < digits.len()
            invariant
                i <= digits@.len(),
                2 <= radix <= 256,
                forall|j: int| 0 <= j < i ==> (#[trigger] digits@[j] as nat) < radix as nat,
            decreases digits@.len() - i,
        {
            if digits[i] as u32 >= radix {
                return None;
            }
            i += 1;
        }
        Some(num_from_radix_be(digits, radix))
    }

    /// The big-endian digits of a non-negative integer in a radix, without
    /// leading zeros; zero is the single digit 0.
    pub fn to_radix_be(&self, radix: u32) -> (r: Vec<u8>)
        requires
            2 <= radix <= 256,
            self@ >= 0,
        ensures
            radix_digits(r@, radix as nat),
            radix_value(r@, radix as nat) == self@,
            r@.len() > 0,
            self@ == 0 ==> r@ == seq![0u8],
            self@ > 0 ==> r@[0] != 0,
    {
        num_to_radix_be(self, radix)
    }

    /// The integer in decimal.
    pub fn to_decimal(&self) -> (r: String)
        ensures
            r@ == decimal_text(self@),
    {
        num_to_decimal(self)
    }
}

/// A copy of the digits.
fn copy_digits(digits: &Vec<u32>) -> (r: Vec<u32>)
    ensures
        r@ == digits@,
{
    let mut r: Vec<u32> = Vec::new();
    let mut i: usize = 0;
    while i < digits.len()
        invariant
            i <= digits@.len(),
            r@ == digits@.subrange(0, i as int),
        decreases digits@.len() - i,
    {
        r.push(digits[i]);
        assert(r@ =~= digits@.subrange(0, i + 1));
        i += 1;
    }
    assert(r@ =~= digits@);
    r
}

/// The canonical digits of a `u64`.
fn magnitude_of(v: u64) -> (r: Vec<u32>)
    ensures
        canonical_magnitude(r@),
        magnitude_value(r@) == v,
        v == 0 <==> r@.len() == 0,
{
    let lo: u32 = (v % 4294967296) as u32;
    let hi: u32 = (v / 4294967296) as u32;
    let mut r: Vec<u32> = Vec::new();
    if hi != 0 {
        r.push(lo);
        r.push(hi);
        proof {
            let d = r@;
            let r1 = d.subrange(1, 2);
            let r2 = r1.subrange(1, 1);
            assert(magnitude_value(r2) == 0);
            assert(r1[0] == hi);
            assert(magnitude_value(r1) == hi as nat + 4294967296 * magnitude_value(r2));
            assert(magnitude_value(d) == lo as nat + 4294967296 * magnitude_value(r1));
        }
    } else if lo != 0 {
        r.push(lo);
        proof {
            let d = r@;
            let r1 = d.subrange(1, 1);
            assert(magnitude_value(r1) == 0);
            assert(magnitude_value(d) == lo as nat + 4294967296 * magnitude_value(r1));
        }
    }
    r
}

/// `num::BigInt::from_slice`, `+` and `to_u32_digits`: the sum of the two
/// integers, in canonical digits.
#[verifier::external_body]
fn num_add(a: &BigInt, b: &BigInt) -> (r: BigInt)
    ensures
        r@ == a@ + b@,
{
    let x = num::BigInt::from_slice(
        if a.negative { Sign::Minus } else { Sign::Plus },
        &a.magnitude,
    );
    let y = num::BigInt::from_slice(
        if b.negative { Sign::Minus } else { Sign::Plus },
        &b.magnitude,
    );
    let (sign, magnitude) = (x + y).to_u32_digits();
    BigInt { negative: sign == Sign::Minus, magnitude }
}

/// `num::BigInt::from_slice`, `-` and `to_u32_digits`: the difference of the
/// two integers, in canonical digits.
#[verifier::external_body]
fn num_sub(a: &BigInt, b: &BigInt) -> (r: BigInt)
    ensures
        r@ == a@ - b@,
{
    let x = num::BigInt::from_slice(
        if a.negative { Sign::Minus } else { Sign::Plus },
        &a.magnitude,
    );
    let y = num::BigInt::from_slice(
        if b.negative { Sign::Minus } else { Sign::Plus },
        &b.magnitude,
    );
    let (sign, magnitude) = (x - y).to_u32_digits();
    BigInt { negative: sign == Sign::Minus, magnitude }
}

/// `num::BigInt::from_slice`, `*` and `to_u32_digits`: the product of the two
/// integers, in canonical digits.
#[verifier::external_body]
fn num_mul(a: &BigInt, b: &BigInt) -> (r: BigInt)
    ensures
        r@ == a@ * b@,
{
    let x = num::BigInt::from_slice(
        if a.negative { Sign::Minus } else { Sign::Plus },
        &a.magnitude,
    );
    let y = num::BigInt::from_slice(
        if b.negative { Sign::Minus } else { Sign::Plus },
        &b.magnitude,
    );
    let (sign, magnitude) = (x * y).to_u32_digits();
    BigInt { negative: sign == Sign::Minus, magnitude }
}

/// `num::BigInt::from_slice`, `/` and `to_u32_digits`: the quotient rounded
/// towards zero, in canonical digits. `num` panics on a zero divisor.
#[verifier::external_body]
fn num_div(a: &BigInt, b: &BigInt) -> (r: BigInt)
    requires
        b@ != 0,
    ensures
        r@ == truncated_div(a@, b@),
{
    let x = num::BigInt::from_slice(
        if a.negative { Sign::Minus } else { Sign::Plus },
        &a.magnitude,
    );
    let y = num::BigInt::from_slice(
        if b.negative { Sign::Minus } else { Sign::Plus },
        &b.magnitude,
    );
    let (sign, magnitude) = (x / y).to_u32_digits();
    BigInt { negative: sign == Sign::Minus, magnitude }
}

/// `num::BigInt::from_slice`, `%` and `to_u32_digits`: the remainder of the
/// division rounded towards zero, in canonical digits. `num` panics on a zero
/// divisor.
#[verifier::external_body]
fn num_rem(a: &BigInt, b: &BigInt) -> (r: BigInt)
    requires
        b@ != 0,
    ensures
        r@ == truncated_rem(a@, b@),
{
    let x = num::BigInt::from_slice(
        if a.negative { Sign::Minus } else { Sign::Plus },
        &a.magnitude,
    );
    let y = num::BigInt::from_slice(
        if b.negative { Sign::Minus } else { Sign::Plus },
        &b.magnitude,
    );
    let (sign, magnitude) = (x % y).to_u32_digits();
    BigInt { negative: sign == Sign::Minus, magnitude }
}

/// `num::BigInt::from_slice` and `<`: whether the first integer is below the
/// second.
#[verifier::external_body]
fn num_less(a: &BigInt, b: &BigInt) -> (r: bool)
    ensures
        r == (a@ < b@),
{
    let x = num::BigInt::from_slice(
        if a.negative { Sign::Minus } else { Sign::Plus },
        &a.magnitude,
    );
    let y = num::BigInt::from_slice(
        if b.negative { Sign::Minus } else { Sign::Plus },
        &b.magnitude,
    );
    x < y
}

/// `num::BigUint::from_radix_be` and `to_u32_digits`: the number that the
/// digits stand for, in canonical digits. `num` returns `None` only when a
/// digit is not below the radix, and panics on a radix outside 2..=256.
#[verifier::external_body]
fn num_from_radix_be(digits: &Vec<u8>, radix: u32) -> (r: BigInt)
    requires
        2 <= radix <= 256,
        radix_digits(digits@, radix as nat),
    ensures
        r@ == radix_value(digits@, radix as nat),
{
    match num::BigUint::from_radix_be(digits, radix) {
        Some(x) => BigInt { negative: false, magnitude: x.to_u32_digits() },
        None => BigInt { negative: false, magnitude: Vec::new() },
    }
}

/// `num::BigUint::from_slice` and `to_radix_be`: the digits of the magnitude
/// in the radix, most significant first and without leading zeros; for zero
/// the single digit 0. `num` panics on a radix outside 2..=256.
#[verifier::external_body]
fn num_to_radix_be(a: &BigInt, radix: u32) -> (r: Vec<u8>)
    requires
        2 <= radix <= 256,
        a@ >= 0,
    ensures
        radix_digits(r@, radix as nat),
        radix_value(r@, radix as nat) == a@,
        r@.len() > 0,
        a@ == 0 ==> r@ == seq![0u8],
        a@ > 0 ==> r@[0] != 0,
{
    num::BigUint::from_slice(&a.magnitude).to_radix_be(radix)
}

/// `num::BigInt::from_slice` and `to_string`: the integer in decimal, with a
/// leading `-` when it is negative.
#[verifier::external_body]
fn num_to_decimal(a: &BigInt) -> (r: String)
    ensures
        r@ == decimal_text(a@),
{
    let x = num::BigInt::from_slice(
        if a.negative { Sign::Minus } else { Sign::Plus },
        &a.magnitude,
    );
    x.to_string()
}

} // verus!
