use num_bigint::BigInt;
use pyintedit::local::LocalInteger;
use pyintedit::repack::from_python_digits;
use pyintedit::twos::{from_signed_bytes_le, to_signed_bytes_le};

fn words32(mut v: u128) -> Vec<u32> {
    let mut out: Vec<u32> = Vec::new();
    while v > 0 {
        out.push((v & 0xFFFF_FFFF) as u32);
        v >>= 32;
    }
    out
}

fn digits30(mut v: u128) -> Vec<u32> {
    let mut out: Vec<u32> = Vec::new();
    while v > 0 {
        out.push((v & 0x3FFF_FFFF) as u32);
        v >>= 30;
    }
    out
}

fn local_of(v: i128) -> LocalInteger {
    LocalInteger::from_words(v < 0, words32(v.unsigned_abs()))
}

fn assert_same(a: &LocalInteger, b: &LocalInteger) {
    assert_eq!(a.negative, b.negative);
    assert_eq!(a.magnitude, b.magnitude);
}

const SAMPLES: [i128; 27] = [
    0,
    1,
    -1,
    2,
    -2,
    127,
    128,
    -128,
    -129,
    255,
    -256,
    45123,
    -45123,
    (1 << 29) - 1,
    1 << 29,
    1 << 30,
    -(1 << 30),
    (1 << 31) - 1,
    1 << 31,
    -(1 << 31),
    1 << 32,
    -(1 << 32),
    (1 << 60) + 12345,
    -((1 << 60) + 12345),
    i128::MAX,
    i128::MIN + 1,
    -(1 << 90),
];

#[test]
fn round_trip_decode_after_encode() {
    for &v in SAMPLES.iter() {
        let x = local_of(v);
        let enc = to_signed_bytes_le(&x);
        let dec = from_signed_bytes_le(enc);
        assert_same(&x, &dec);
    }
}

#[test]
fn round_trip_encode_after_decode() {
    for &v in SAMPLES.iter() {
        let reference = BigInt::from(v).to_signed_bytes_le();
        let dec = from_signed_bytes_le(reference.clone());
        let enc = to_signed_bytes_le(&dec);
        if v == 0 {
            // the reference library writes zero as one zero byte, this
            // library as the empty buffer; both denote zero.
            assert!(enc.is_empty());
        } else {
            assert_eq!(enc, reference);
        }
    }
}

#[test]
fn strategy_equivalence_on_shared_values() {
    for &v in SAMPLES.iter() {
        let canonical = from_signed_bytes_le(BigInt::from(v).to_signed_bytes_le());
        let direct = from_python_digits(v < 0, &digits30(v.unsigned_abs()));
        assert_same(&canonical, &direct);
    }
}

#[test]
fn negative_powers_of_two_recovery() {
    for &k in [5u32, 29, 30, 31, 32, 33, 63, 64, 95, 100, 126].iter() {
        let reference = -(BigInt::from(1) << k);
        let dec = from_signed_bytes_le(reference.to_signed_bytes_le());
        assert!(dec.negative);
        assert_eq!(dec.magnitude, words32(1u128 << k));
        let enc = to_signed_bytes_le(&dec);
        assert_eq!(enc, reference.to_signed_bytes_le());
    }
}

#[test]
fn large_negative_power_matches_reference() {
    let magnitude = BigInt::from(65535u32).pow(150);
    let value = -magnitude.clone();
    let dec = from_signed_bytes_le(value.to_signed_bytes_le());
    assert!(dec.negative);
    let (_, reference_words) = magnitude.to_u32_digits();
    assert_eq!(dec.magnitude, reference_words);
    let enc = to_signed_bytes_le(&dec);
    assert_eq!(enc, value.to_signed_bytes_le());
}

#[test]
fn encode_minimal_forms() {
    assert_eq!(to_signed_bytes_le(&local_of(0)), Vec::<u8>::new());
    assert_eq!(to_signed_bytes_le(&local_of(1)), vec![1u8]);
    assert_eq!(to_signed_bytes_le(&local_of(-1)), vec![0xFFu8]);
    assert_eq!(to_signed_bytes_le(&local_of(127)), vec![0x7Fu8]);
    assert_eq!(to_signed_bytes_le(&local_of(128)), vec![0x80u8, 0]);
    assert_eq!(to_signed_bytes_le(&local_of(-128)), vec![0x80u8]);
    assert_eq!(to_signed_bytes_le(&local_of(-129)), vec![0x7Fu8, 0xFF]);
}

#[test]
fn decode_minus_45123() {
    let dec = from_signed_bytes_le(BigInt::from(-45123).to_signed_bytes_le());
    assert!(dec.negative);
    assert_eq!(dec.magnitude, vec![45123u32]);
}

#[test]
fn decode_tolerates_redundant_sign_bytes() {
    let a = from_signed_bytes_le(vec![1, 0, 0, 0, 0]);
    assert!(!a.negative);
    assert_eq!(a.magnitude, vec![1u32]);
    let b = from_signed_bytes_le(vec![0xFF, 0xFF]);
    assert!(b.negative);
    assert_eq!(b.magnitude, vec![1u32]);
}
