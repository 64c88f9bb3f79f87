use icfl_toolkit::base94::base94_to_int;
use icfl_toolkit::base94::base94_to_str;
use icfl_toolkit::base94::from_base94;
use icfl_toolkit::base94::int_to_base94;
use icfl_toolkit::base94::str_to_base94;
use icfl_toolkit::base94::to_base94;
use icfl_toolkit::bigint::BigInt;
use icfl_toolkit::comms::encode;
use icfl_toolkit::icfp;

#[test]
fn integers_round_trip() {
    assert_eq!(base94_to_int("/6"), Some(1337));
    assert_eq!(int_to_base94(1337), "/6");
    assert_eq!(int_to_base94(0), "");
    assert_eq!(base94_to_int(""), Some(0));
    assert_eq!(base94_to_int("!"), Some(0));
    assert_eq!(base94_to_int("!/6"), Some(1337));
    assert_eq!(int_to_base94(93), "~");
    assert_eq!(int_to_base94(94), "\"!");
    for n in [1u64, 93, 94, 95, 8835, 8836, 1 << 32, u64::MAX] {
        assert_eq!(base94_to_int(&int_to_base94(n)), Some(n));
    }
    for s in ["\"", "~~~", "4%34", "\"!!!!"] {
        assert_eq!(int_to_base94(base94_to_int(s).unwrap()), s);
    }
}

#[test]
fn integers_are_rejected() {
    assert_eq!(base94_to_int(" "), None);
    assert_eq!(base94_to_int("a b"), None);
    assert_eq!(base94_to_int("\u{7f}"), None);
    assert_eq!(base94_to_int("é"), None);
    // 2^64 - 1 is the last number that fits
    let top = int_to_base94(u64::MAX);
    assert_eq!(top.len(), 10);
    assert_eq!(base94_to_int(&top), Some(u64::MAX));
    assert_eq!(base94_to_int("~~~~~~~~~~"), None);
    assert_eq!(base94_to_int("\"!!!!!!!!!!"), None);
}

#[test]
fn big_integers_round_trip() {
    assert_eq!(icfp::base94_to_int("/6"), Some(BigInt::from_u64(1337)));
    assert_eq!(icfp::int_to_base94(&BigInt::from_u64(1337)), "/6");
    assert_eq!(icfp::int_to_base94(&BigInt::zero()), "!");
    assert_eq!(icfp::base94_to_int(""), Some(BigInt::zero()));
    assert_eq!(icfp::base94_to_int("a b"), None);
    let big = icfp::base94_to_int("~~~~~~~~~~~~~~~~~~~~").unwrap();
    assert_eq!(big.to_decimal(), "2901062411314618233730627546741369470975");
    assert_eq!(icfp::int_to_base94(&big), "~~~~~~~~~~~~~~~~~~~~");
}

#[test]
fn texts_round_trip() {
    assert_eq!(base94_to_str("B%,,/}Q/2,$_"), "Hello World!");
    assert_eq!(str_to_base94("Hello World!"), "B%,,/}Q/2,$_");
    let wire: String = (33u8..=126).map(|b| b as char).collect();
    let text = "abcdefghijklmnopqrstuvwxyzABCDEFGHIJKLMNOPQRSTUVWXYZ0123456789!\"#$%&'()*+,-./:;<=>?@[\\]^_`|~ \n";
    assert_eq!(base94_to_str(&wire), text);
    assert_eq!(str_to_base94(text), wire);
}

#[test]
fn request_body() {
    assert_eq!(encode("get index".to_string()), Some(b"S'%4}).$%8".to_vec()));
    assert_eq!(encode(String::new()), Some(b"S".to_vec()));
    assert_eq!(encode("{".to_string()), None);
    assert_eq!(encode("é".to_string()), None);
}

#[test]
fn variable_numbers_round_trip() {
    assert_eq!(from_base94("/6"), Some(1337));
    assert_eq!(to_base94(1337), "/6");
    assert_eq!(to_base94(0), "");
    assert_eq!(from_base94(""), Some(0));
    assert_eq!(from_base94("a b"), None);
    assert_eq!(from_base94(&to_base94(u64::MAX)), Some(u64::MAX));
    assert_eq!(from_base94("~~~~~~~~~~~"), None);
}
