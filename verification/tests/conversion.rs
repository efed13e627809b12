use pyintedit::local::LocalInteger;
use pyintedit::repack::{from_python_digits, pytonormal};
use pyintedit::sizing::{buffer_len_padded, buffer_len_words};
use pyintedit::twos::{
    add_one_words, bytes_to_words_le, complement_words, from_signed_bytes_le,
    from_twos_complement_words, sub_one_words, words_to_bytes_le,
};

fn words32(mut v: u128) -> Vec<u32> {
    let mut out: Vec<u32> = Vec::new();
    while v > 0 {
        out.push((v & 0xFFFF_FFFF) as u32);
        v >>= 32;
    }
    out
}

#[test]
fn repack_empty_emits_single_zero_word() {
    assert_eq!(pytonormal(&vec![]), vec![0u32]);
}

#[test]
fn repack_single_digit() {
    assert_eq!(pytonormal(&vec![1]), vec![1u32]);
    assert_eq!(pytonormal(&vec![0x3FFF_FFFF]), vec![0x3FFF_FFFFu32]);
}

#[test]
fn repack_known_width30_sequence() {
    // digits (base 2^30): [2^30 - 1, 3] is the value 2^32 - 1; the final
    // carry word is emitted even though it is zero.
    assert_eq!(pytonormal(&vec![0x3FFF_FFFF, 0x3]), vec![0xFFFF_FFFFu32, 0]);
    // digits [1, 1, 1] is 1 + 2^30 + 2^60.
    assert_eq!(
        pytonormal(&vec![1, 1, 1]),
        vec![0x4000_0001u32, 0x1000_0000, 0]
    );
}

#[test]
fn repack_realignment_after_sixteen_digits() {
    // 16 digits of all ones: the value 2^480 - 1, exactly 15 full words,
    // then a zero carry word.
    let digits = vec![0x3FFF_FFFFu32; 16];
    let mut expected = vec![0xFFFF_FFFFu32; 15];
    expected.push(0);
    assert_eq!(pytonormal(&digits), expected);
    // one more digit starts the rotation again.
    let digits17 = vec![0x3FFF_FFFFu32; 17];
    let mut expected17 = vec![0xFFFF_FFFFu32; 15];
    expected17.push(0x3FFF_FFFF);
    assert_eq!(pytonormal(&digits17), expected17);
}

#[test]
fn direct_layout_zero_digit_count_is_zero() {
    let z = from_python_digits(false, &vec![]);
    assert!(!z.negative);
    assert!(z.magnitude.is_empty());
}

#[test]
fn direct_layout_negative_small_value() {
    let x = from_python_digits(true, &vec![45123]);
    assert!(x.negative);
    assert_eq!(x.magnitude, vec![45123u32]);
}

#[test]
fn decode_zero_byte_buffers() {
    let a = from_signed_bytes_le(vec![]);
    assert!(!a.negative);
    assert!(a.magnitude.is_empty());
    let b = from_signed_bytes_le(vec![0, 0, 0, 0]);
    assert!(!b.negative);
    assert!(b.magnitude.is_empty());
    let z = LocalInteger::zero();
    assert!(!z.negative);
    assert!(z.magnitude.is_empty());
}

#[test]
fn sign_bit_on_word_boundary_stays_positive() {
    // magnitude 2^31 with an explicit zero sign byte must not be read as
    // a negative value.
    let x = from_signed_bytes_le(vec![0, 0, 0, 0x80, 0]);
    assert!(!x.negative);
    assert_eq!(x.magnitude, vec![0x8000_0000u32]);
    let y = from_twos_complement_words(vec![0x8000_0000, 0]);
    assert!(!y.negative);
    assert_eq!(y.magnitude, vec![0x8000_0000u32]);
    // without the guard word the same bit pattern is -2^31.
    let n = from_twos_complement_words(vec![0x8000_0000]);
    assert!(n.negative);
    assert_eq!(n.magnitude, vec![0x8000_0000u32]);
}

#[test]
fn export_buffer_sizing() {
    assert_eq!(buffer_len_padded(0), 1);
    assert_eq!(buffer_len_padded(1), 2);
    assert_eq!(buffer_len_padded(8), 2);
    assert_eq!(buffer_len_padded(16), 3);
    assert_eq!(buffer_len_words(1), 4);
    assert_eq!(buffer_len_words(31), 4);
    assert_eq!(buffer_len_words(32), 8);
    assert_eq!(buffer_len_words(64), 12);
}

#[test]
fn word_arithmetic_helpers() {
    assert_eq!(add_one_words(&vec![0xFFFF_FFFF]), vec![0u32, 1]);
    assert_eq!(add_one_words(&vec![5]), vec![6u32]);
    assert_eq!(sub_one_words(&vec![0, 1]), vec![0xFFFF_FFFFu32, 0]);
    assert_eq!(sub_one_words(&vec![6]), vec![5u32]);
    assert_eq!(complement_words(&vec![0]), vec![0xFFFF_FFFFu32]);
    assert_eq!(
        complement_words(&vec![0x0F0F_0F0F, 0xFFFF_0000]),
        vec![0xF0F0_F0F0u32, 0x0000_FFFF]
    );
}

#[test]
fn byte_word_reinterpretation() {
    assert_eq!(bytes_to_words_le(&vec![1, 0, 0, 0, 2, 0, 0, 0]), vec![1u32, 2]);
    assert_eq!(words_to_bytes_le(&vec![1, 2]), vec![1u8, 0, 0, 0, 2, 0, 0, 0]);
    assert_eq!(
        bytes_to_words_le(&vec![0x78, 0x56, 0x34, 0x12]),
        vec![0x1234_5678u32]
    );
    assert_eq!(words_to_bytes_le(&vec![0x1234_5678]), vec![0x78u8, 0x56, 0x34, 0x12]);
}

#[test]
fn sign_query_matches_value() {
    assert!(from_python_digits(true, &vec![45123]).is_negative());
    assert!(!from_python_digits(false, &vec![45123]).is_negative());
    assert!(!LocalInteger::zero().is_negative());
}

#[test]
fn trimming_drops_leading_zero_words() {
    let x = LocalInteger::from_words(false, vec![5, 0, 0]);
    assert_eq!(x.magnitude, vec![5u32]);
    let y = LocalInteger::from_words(true, vec![0, 0]);
    assert!(!y.negative);
    assert!(y.magnitude.is_empty());
    let w = LocalInteger::from_words(false, words32(1u128 << 64));
    assert_eq!(w.magnitude, vec![0u32, 0, 1]);
}
