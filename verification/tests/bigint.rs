use icfl_toolkit::bigint::BigInt;

fn big(v: i64) -> BigInt {
    BigInt::from_i64(v)
}

#[test]
fn arithmetic() {
    assert_eq!(big(7).add(&big(-9)), big(-2));
    assert_eq!(big(7).sub(&big(-9)), big(16));
    assert_eq!(big(7).mul(&big(-9)), big(-63));
    assert_eq!(big(-7).mul(&big(0)), BigInt::zero());
    assert_eq!(big(i64::MAX).add(&big(1)).to_decimal(), "9223372036854775808");
    assert_eq!(big(i64::MIN).to_decimal(), "-9223372036854775808");
    assert_eq!(BigInt::from_u64(u64::MAX).to_decimal(), "18446744073709551615");
    assert_eq!(BigInt::from_u64(u64::MAX).mul(&BigInt::from_u64(u64::MAX)).to_decimal(),
        "340282366920938463426481119284349108225");
}

#[test]
fn division_rounds_towards_zero() {
    assert_eq!(big(7).checked_div(&big(2)), Some(big(3)));
    assert_eq!(big(-7).checked_div(&big(2)), Some(big(-3)));
    assert_eq!(big(7).checked_div(&big(-2)), Some(big(-3)));
    assert_eq!(big(-7).checked_div(&big(-2)), Some(big(3)));
    assert_eq!(big(7).checked_rem(&big(2)), Some(big(1)));
    assert_eq!(big(-7).checked_rem(&big(2)), Some(big(-1)));
    assert_eq!(big(7).checked_rem(&big(-2)), Some(big(1)));
    assert_eq!(big(-7).checked_rem(&big(-2)), Some(big(-1)));
    assert_eq!(big(7).checked_div(&big(0)), None);
    assert_eq!(big(7).checked_rem(&big(0)), None);
}

#[test]
fn comparisons() {
    assert!(big(-3).less_than(&big(2)));
    assert!(!big(2).less_than(&big(2)));
    assert!(!big(3).less_than(&big(-4)));
    assert!(big(5).equals(&big(5)));
    assert!(!big(5).equals(&big(-5)));
    assert!(BigInt::zero().is_zero());
    assert!(big(3).sub(&big(3)).is_zero());
    assert!(!big(3).sub(&big(3)).is_negative());
    assert!(big(3).sub(&big(4)).is_negative());
    assert!(big(4).sub(&big(3)).is_one());
    assert_eq!(big(-5).neg(), big(5));
    assert_eq!(BigInt::zero().neg(), BigInt::zero());
}

#[test]
fn conversions() {
    assert_eq!(big(-5).low_u64(), 5);
    let two_64 = BigInt::from_u64(u64::MAX).add(&big(1));
    assert_eq!(two_64.low_u64(), 0);
    assert_eq!(two_64.add(&big(9)).low_u64(), 9);
    assert_eq!(big(i32::MAX as i64).to_i32(), Some(i32::MAX));
    assert_eq!(big(i32::MIN as i64).to_i32(), Some(i32::MIN));
    assert_eq!(big(i32::MAX as i64 + 1).to_i32(), None);
    assert_eq!(big(i32::MIN as i64 - 1).to_i32(), None);
    assert_eq!(two_64.to_i32(), None);
    assert_eq!(BigInt::zero().to_i32(), Some(0));
}

#[test]
fn radix() {
    assert_eq!(BigInt::from_radix_be(&vec![2, 94, 27], 159), Some(BigInt::from_u64(0xFFFF)));
    assert_eq!(BigInt::from_radix_be(&vec![2, 159, 27], 159), None);
    assert_eq!(BigInt::from_radix_be(&vec![], 94), Some(BigInt::zero()));
    assert_eq!(BigInt::from_u64(0xFFFF).to_radix_be(159), vec![2, 94, 27]);
    assert_eq!(BigInt::zero().to_radix_be(94), vec![0]);
    assert_eq!(BigInt::from_u64(255).to_radix_be(256), vec![255]);
}

#[test]
fn agrees_with_machine_integers() {
    let samples: [i64; 15] = [
        0,
        1,
        -1,
        2,
        -3,
        93,
        94,
        -95,
        4294967295,
        4294967296,
        -4294967297,
        1 << 40,
        i64::MAX,
        i64::MIN,
        -(1 << 62),
    ];
    for &a in samples.iter() {
        for &b in samples.iter() {
            let (x, y) = (big(a), big(b));
            let (wide_a, wide_b) = (a as i128, b as i128);
            assert_eq!(x.add(&y).to_decimal(), (wide_a + wide_b).to_string());
            assert_eq!(x.sub(&y).to_decimal(), (wide_a - wide_b).to_string());
            assert_eq!(x.mul(&y).to_decimal(), (wide_a * wide_b).to_string());
            assert_eq!(x.less_than(&y), a < b);
            assert_eq!(x.equals(&y), a == b);
            if b != 0 {
                assert_eq!(x.checked_div(&y).unwrap().to_decimal(), (wide_a / wide_b).to_string());
                assert_eq!(x.checked_rem(&y).unwrap().to_decimal(), (wide_a % wide_b).to_string());
            }
        }
        let x = big(a);
        assert_eq!(x.to_decimal(), a.to_string());
        assert_eq!(x.neg().to_decimal(), (-(a as i128)).to_string());
        assert_eq!(x.is_negative(), a < 0);
        assert_eq!(x.is_zero(), a == 0);
        assert_eq!(x.is_one(), a == 1);
        assert_eq!(x.low_u64(), a.unsigned_abs());
        assert_eq!(x.to_i32(), i32::try_from(a).ok());
        assert_eq!(x.clone(), x);
        if a >= 0 {
            let digits = x.to_radix_be(94);
            assert_eq!(BigInt::from_radix_be(&digits, 94), Some(x));
        }
    }
}
