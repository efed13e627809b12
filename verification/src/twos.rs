use vstd::prelude::*;
use vstd::arithmetic::power2::{pow2, lemma_pow2_adds, lemma2_to64};
use crate::radix::{bytes_value, words_value, lemma_limbs_value_snoc, lemma_bytes_value_snoc,
    lemma_limbs_value_bound};
use crate::local::{LocalInteger, lemma_u32_words_in_range};
use crate::radix::lemma_limbs_value_lower;
use vstd::arithmetic::power2::lemma_pow2_pos;

verus! {

/// The signed integer that a little-endian two's-complement byte sequence
/// denotes: the top bit of the last byte is the sign bit.
pub open spec fn twos_value_bytes(s: Seq<u8>) -> int {
    if s.len() == 0 {
        0
    } else if s.last() >= 0x80 {
        bytes_value(s) - pow2(8 * s.len())
    } else {
        bytes_value(s) as int
    }
}

/// The signed integer that a little-endian two's-complement word sequence
/// denotes: the top bit of the last word is the sign bit.
pub open spec fn twos_value_words(s: Seq<u32>) -> int {
    if s.len() == 0 {
        0
    } else if s.last() >= 0x80000000 {
        words_value(s) - pow2(32 * s.len())
    } else {
        words_value(s) as int
    }
}

/// A sign-extension byte (0x00 after a clear sign bit, 0xFF after a set
/// one, 0x00 on an empty sequence) does not change the denoted integer.
pub proof fn lemma_twos_bytes_extend(s: Seq<u8>, x: u8)
    requires
        s.len() == 0 ==> x == 0,
        s.len() > 0 ==> (if s.last() >= 0x80 {
            x == 0xFF
        } else {
            x == 0
        }),
    ensures
        twos_value_bytes(s.push(x)) == twos_value_bytes(s),
{
    lemma2_to64();
    lemma_bytes_value_snoc(s, x);
    let n: nat = s.len();
    assert(s.push(x).last() == x);
    assert(s.push(x).len() == n + 1);
    if s.len() == 0 {
        assert(bytes_value(s.push(0)) == bytes_value(s) + 0 * pow2(0));
    } else if s.last() >= 0x80 {
        lemma_pow2_adds(8 * n, 8);
        assert(bytes_value(s.push(x)) == bytes_value(s) + 255 * pow2(8 * n));
        assert(pow2(8 * (n + 1)) == 256 * pow2(8 * n));
        assert(twos_value_bytes(s.push(x)) == bytes_value(s) + 255 * pow2(8 * n) - 256 * pow2(
            8 * n,
        ));
    } else {
        assert(bytes_value(s.push(x)) == bytes_value(s) + 0 * pow2(8 * n));
    }
}

/// Bitwise complement of every word: the value becomes
/// `2^(32 * len) - 1 - old value`.
pub fn complement_words(words: &Vec<u32>) -> (r: Vec<u32>)
    ensures
        r@.len() == words@.len(),
        words_value(r@) + words_value(words@) == pow2(32 * words@.len()) - 1,
{
    let mut r: Vec<u32> = Vec::with_capacity(words.len());
    let mut i: usize = 0;
    proof {
        assert(words@.subrange(0, 0) =~= Seq::<u32>::empty());
        lemma2_to64();
    }
    while i < words.len()
        invariant
            i <= words@.len(),
            r@.len() == i,
            words_value(r@) + words_value(words@.subrange(0, i as int)) == pow2(32 * (i as nat))
                - 1,
        decreases words@.len() - i,
    {
        let ghost oldr = r@;
        let w: u32 = words[i];
        r.push(!w);
        proof {
            lemma2_to64();
            let ii: int = i as int;
            assert(words@.subrange(0, ii + 1) =~= words@.subrange(0, ii).push(words@[ii]));
            lemma_limbs_value_snoc(oldr, !w, 32);
            lemma_limbs_value_snoc(words@.subrange(0, ii), w, 32);
            lemma_pow2_adds(32 * (i as nat), 32);
            assert(((!w) as u64) + (w as u64) == 0xFFFFFFFFu64) by (bit_vector);
            let p: int = pow2(32 * (i as nat)) as int;
            assert(((!w) as int + w as int) * p == 0xFFFFFFFF * p) by (nonlinear_arith)
                requires
                    ((!w) as int) + (w as int) == 0xFFFFFFFF,
            ;
            assert(((!w) as int) * p + (w as int) * p == (((!w) as int) + (w as int)) * p)
                by (nonlinear_arith);
            assert(pow2(32 * ((i + 1) as nat)) as int == 0x100000000 * p);
        }
        i = i + 1;
    }
    proof {
        assert(words@.subrange(0, words@.len() as int) =~= words@);
    }
    r
}

/// Adds one to a little-endian word magnitude, propagating the carry; at
/// most one word is appended.
pub fn add_one_words(words: &Vec<u32>) -> (r: Vec<u32>)
    ensures
        words_value(r@) == words_value(words@) + 1,
        r@.len() <= words@.len() + 1,
{
    let mut r: Vec<u32> = Vec::with_capacity(words.len());
    let mut carry: bool = true;
    let mut i: usize = 0;
    proof {
        assert(words@.subrange(0, 0) =~= Seq::<u32>::empty());
        lemma2_to64();
    }
    while i < words.len()
        invariant
            i <= words@.len(),
            r@.len() == i,
            words_value(r@) + (if carry {
                1nat
            } else {
                0nat
            }) * pow2(32 * (i as nat)) == words_value(words@.subrange(0, i as int)) + 1,
        decreases words@.len() - i,
    {
        let ghost oldr = r@;
        let ghost oldcarry = carry;
        let w: u32 = words[i];
        if carry {
            if w == 0xFFFFFFFF {
                r.push(0);
            } else {
                r.push(w + 1);
                carry = false;
            }
        } else {
            r.push(w);
        }
        proof {
            lemma2_to64();
            let ii: int = i as int;
            assert(words@.subrange(0, ii + 1) =~= words@.subrange(0, ii).push(words@[ii]));
            lemma_limbs_value_snoc(words@.subrange(0, ii), w, 32);
            assert(oldr.len() == i as nat);
            lemma_pow2_adds(32 * (i as nat), 32);
            let p: int = pow2(32 * (i as nat)) as int;
            assert(pow2(32 * ((i + 1) as nat)) as int == 0x100000000 * p);
            if oldcarry && w == 0xFFFFFFFF {
                lemma_limbs_value_snoc(oldr, 0, 32);
                assert(r@ == oldr.push(0));
                assert(words_value(r@) == words_value(oldr));
                assert(0x100000000 * p == p + 0xFFFFFFFF * p) by (nonlinear_arith);
                assert(words_value(r@) + 1nat * pow2(32 * ((i + 1) as nat)) == words_value(
                    words@.subrange(0, ii + 1),
                ) + 1);
            } else if oldcarry {
                lemma_limbs_value_snoc(oldr, (w + 1) as u32, 32);
                assert(r@ == oldr.push((w + 1) as u32));
                assert(((w + 1) as int) * p == p + (w as int) * p) by (nonlinear_arith);
                assert(words_value(r@) == words_value(oldr) + ((w + 1) as nat) * pow2(
                    32 * (i as nat),
                ));
                assert(words_value(r@) + 0nat * pow2(32 * ((i + 1) as nat)) == words_value(
                    words@.subrange(0, ii + 1),
                ) + 1);
            } else {
                lemma_limbs_value_snoc(oldr, w, 32);
                assert(r@ == oldr.push(w));
                assert(words_value(r@) + 0nat * pow2(32 * ((i + 1) as nat)) == words_value(
                    words@.subrange(0, ii + 1),
                ) + 1);
            }
        }
        i = i + 1;
    }
    proof {
        assert(words@.subrange(0, words@.len() as int) =~= words@);
    }
    if carry {
        let ghost oldr = r@;
        r.push(1);
        proof {
            lemma_limbs_value_snoc(oldr, 1, 32);
        }
    }
    r
}

/// Subtracts one from a non-zero little-endian word magnitude, propagating
/// the borrow; the length is kept (leading zeros may appear).
pub fn sub_one_words(words: &Vec<u32>) -> (r: Vec<u32>)
    requires
        words_value(words@) >= 1,
    ensures
        r@.len() == words@.len(),
        words_value(r@) == words_value(words@) - 1,
{
    let mut r: Vec<u32> = Vec::with_capacity(words.len());
    let mut borrow: bool = true;
    let mut i: usize = 0;
    proof {
        assert(words@.subrange(0, 0) =~= Seq::<u32>::empty());
        lemma2_to64();
    }
    while i < words.len()
        invariant
            i <= words@.len(),
            r@.len() == i,
            words_value(r@) == words_value(words@.subrange(0, i as int)) - 1 + (if borrow {
                pow2(32 * (i as nat)) as int
            } else {
                0int
            }),
        decreases words@.len() - i,
    {
        let ghost oldr = r@;
        let ghost oldborrow = borrow;
        let w: u32 = words[i];
        if borrow {
            if w == 0 {
                r.push(0xFFFFFFFF);
            } else {
                r.push(w - 1);
                borrow = false;
            }
        } else {
            r.push(w);
        }
        proof {
            lemma2_to64();
            let ii: int = i as int;
            assert(words@.subrange(0, ii + 1) =~= words@.subrange(0, ii).push(words@[ii]));
            lemma_limbs_value_snoc(words@.subrange(0, ii), w, 32);
            lemma_limbs_value_snoc(oldr, r@.last(), 32);
            lemma_pow2_adds(32 * (i as nat), 32);
            let p: int = pow2(32 * (i as nat)) as int;
            assert(pow2(32 * ((i + 1) as nat)) as int == 0x100000000 * p);
            if oldborrow && w == 0 {
                assert(0xFFFFFFFF * p == 0x100000000 * p - p) by (nonlinear_arith);
            } else if oldborrow {
                assert(((w - 1) as int) * p == (w as int) * p - p) by (nonlinear_arith);
            }
        }
        i = i + 1;
    }
    proof {
        assert(words@.subrange(0, words@.len() as int) =~= words@);
        if borrow {
            lemma_u32_words_in_range(r@);
            lemma_limbs_value_bound(r@, 32);
            assert(false);
        }
    }
    r
}

/// Reinterprets a little-endian byte buffer, whose length is a multiple of
/// four, as little-endian 32-bit words of the same value; the sign bit of
/// the last byte becomes the sign bit of the last word.
pub fn bytes_to_words_le(bytes: &Vec<u8>) -> (r: Vec<u32>)
    requires
        bytes@.len() % 4 == 0,
    ensures
        r@.len() == bytes@.len() / 4,
        words_value(r@) == bytes_value(bytes@),
        r@.len() > 0 ==> ((r@.last() >= 0x80000000) <==> (bytes@.last() >= 0x80)),
{
    let n: usize = bytes.len() / 4;
    let mut r: Vec<u32> = Vec::with_capacity(n);
    let mut i: usize = 0;
    proof {
        assert(bytes@.subrange(0, 0) =~= Seq::<u8>::empty());
        vstd::arithmetic::div_mod::lemma_fundamental_div_mod(bytes@.len() as int, 4);
    }
    while i < n
        invariant
            bytes@.len() == 4 * n,
            bytes@.len() <= usize::MAX,
            i <= n,
            r@.len() == i,
            words_value(r@) == bytes_value(bytes@.subrange(0, 4 * (i as int))),
            i > 0 ==> ((r@.last() >= 0x80000000) <==> (bytes@[4 * (i as int) - 1] >= 0x80)),
        decreases n - i,
    {
        let b0: u8 = bytes[4 * i];
        let b1: u8 = bytes[4 * i + 1];
        let b2: u8 = bytes[4 * i + 2];
        let b3: u8 = bytes[4 * i + 3];
        let w: u32 = (b0 as u32) | ((b1 as u32) << 8u32) | ((b2 as u32) << 16u32) | ((b3 as u32)
            << 24u32);
        let ghost oldr = r@;
        r.push(w);
        proof {
            lemma2_to64();
            let ii: int = i as int;
            let s0 = bytes@.subrange(0, 4 * ii);
            let s1 = bytes@.subrange(0, 4 * ii + 1);
            let s2 = bytes@.subrange(0, 4 * ii + 2);
            let s3 = bytes@.subrange(0, 4 * ii + 3);
            let s4 = bytes@.subrange(0, 4 * ii + 4);
            assert(s1 =~= s0.push(b0));
            assert(s2 =~= s1.push(b1));
            assert(s3 =~= s2.push(b2));
            assert(s4 =~= s3.push(b3));
            lemma_bytes_value_snoc(s0, b0);
            lemma_bytes_value_snoc(s1, b1);
            lemma_bytes_value_snoc(s2, b2);
            lemma_bytes_value_snoc(s3, b3);
            lemma_limbs_value_snoc(oldr, w, 32);
            assert((w as int) == (b0 as int) + (b1 as int) * 0x100 + (b2 as int) * 0x10000 + (
            b3 as int) * 0x1000000) by (bit_vector)
                requires
                    w == (b0 as u32) | ((b1 as u32) << 8u32) | ((b2 as u32) << 16u32) | ((
                    b3 as u32) << 24u32),
            ;
            assert((w >= 0x80000000u32) == (b3 >= 0x80u8)) by (bit_vector)
                requires
                    w == (b0 as u32) | ((b1 as u32) << 8u32) | ((b2 as u32) << 16u32) | ((
                    b3 as u32) << 24u32),
            ;
            let p: int = pow2(8 * (4 * (i as nat))) as int;
            lemma_pow2_adds(8 * (4 * (i as nat)), 8);
            lemma_pow2_adds(8 * (4 * (i as nat) + 1), 8);
            lemma_pow2_adds(8 * (4 * (i as nat) + 2), 8);
            assert(8 * (4 * (i as nat) + 1) == 8 * (4 * (i as nat)) + 8);
            assert(8 * (4 * (i as nat) + 2) == 8 * (4 * (i as nat) + 1) + 8);
            assert(8 * (4 * (i as nat) + 3) == 8 * (4 * (i as nat) + 2) + 8);
            assert(pow2(8 * (4 * (i as nat) + 1)) as int == 0x100 * p);
            assert(pow2(8 * (4 * (i as nat) + 2)) as int == 0x100 * (0x100 * p));
            assert(pow2(8 * (4 * (i as nat) + 3)) as int == 0x100 * (0x100 * (0x100 * p)));
            assert(32 * (i as nat) == 8 * (4 * (i as nat)));
            assert((w as int) * p == (b0 as int) * p + (b1 as int) * (0x100 * p) + (b2 as int) * (
            0x100 * (0x100 * p)) + (b3 as int) * (0x100 * (0x100 * (0x100 * p))))
                by (nonlinear_arith)
                requires
                    (w as int) == (b0 as int) + (b1 as int) * 0x100 + (b2 as int) * 0x10000 + (
                    b3 as int) * 0x1000000,
            ;
            assert(s4 == bytes@.subrange(0, 4 * ((i + 1) as int)));
            assert(bytes_value(s4) == words_value(r@));
        }
        i = i + 1;
    }
    proof {
        assert(bytes@.subrange(0, 4 * (n as int)) =~= bytes@);
        if r@.len() > 0 {
            assert(bytes@[4 * (n as int) - 1] == bytes@.last());
        }
    }
    r
}

/// Serialises little-endian 32-bit words into little-endian bytes of the
/// same value; the sign bit of the last word becomes the sign bit of the
/// last byte.
pub fn words_to_bytes_le(words: &Vec<u32>) -> (r: Vec<u8>)
    requires
        words@.len() * 4 <= usize::MAX,
    ensures
        r@.len() == 4 * words@.len(),
        bytes_value(r@) == words_value(words@),
        r@.len() > 0 ==> ((r@.last() >= 0x80) <==> (words@.last() >= 0x80000000)),
{
    let mut r: Vec<u8> = Vec::with_capacity(words.len() * 4);
    let mut i: usize = 0;
    proof {
        assert(words@.subrange(0, 0) =~= Seq::<u32>::empty());
    }
    while i < words.len()
        invariant
            words@.len() * 4 <= usize::MAX,
            i <= words@.len(),
            r@.len() == 4 * i,
            bytes_value(r@) == words_value(words@.subrange(0, i as int)),
            i > 0 ==> ((r@.last() >= 0x80) <==> (words@[i as int - 1] >= 0x80000000)),
        decreases words@.len() - i,
    {
        let w: u32 = words[i];
        let b0: u8 = w as u8;
        let b1: u8 = (w >> 8u32) as u8;
        let b2: u8 = (w >> 16u32) as u8;
        let b3: u8 = (w >> 24u32) as u8;
        let ghost oldr = r@;
        r.push(b0);
        r.push(b1);
        r.push(b2);
        r.push(b3);
        proof {
            lemma2_to64();
            let ii: int = i as int;
            assert(words@.subrange(0, ii + 1) =~= words@.subrange(0, ii).push(w));
            lemma_limbs_value_snoc(words@.subrange(0, ii), w, 32);
            lemma_bytes_value_snoc(oldr, b0);
            lemma_bytes_value_snoc(oldr.push(b0), b1);
            lemma_bytes_value_snoc(oldr.push(b0).push(b1), b2);
            lemma_bytes_value_snoc(oldr.push(b0).push(b1).push(b2), b3);
            assert(r@ == oldr.push(b0).push(b1).push(b2).push(b3));
            assert((w as int) == (b0 as int) + (b1 as int) * 0x100 + (b2 as int) * 0x10000 + (
            b3 as int) * 0x1000000) by (bit_vector)
                requires
                    b0 == w as u8,
                    b1 == (w >> 8u32) as u8,
                    b2 == (w >> 16u32) as u8,
                    b3 == (w >> 24u32) as u8,
            ;
            assert((w >= 0x80000000u32) == (b3 >= 0x80u8)) by (bit_vector)
                requires
                    b3 == (w >> 24u32) as u8,
            ;
            let p: int = pow2(8 * (4 * (i as nat))) as int;
            lemma_pow2_adds(8 * (4 * (i as nat)), 8);
            lemma_pow2_adds(8 * (4 * (i as nat) + 1), 8);
            lemma_pow2_adds(8 * (4 * (i as nat) + 2), 8);
            assert(8 * (4 * (i as nat) + 1) == 8 * (4 * (i as nat)) + 8);
            assert(8 * (4 * (i as nat) + 2) == 8 * (4 * (i as nat) + 1) + 8);
            assert(8 * (4 * (i as nat) + 3) == 8 * (4 * (i as nat) + 2) + 8);
            assert(pow2(8 * (4 * (i as nat) + 1)) as int == 0x100 * p);
            assert(pow2(8 * (4 * (i as nat) + 2)) as int == 0x100 * (0x100 * p));
            assert(pow2(8 * (4 * (i as nat) + 3)) as int == 0x100 * (0x100 * (0x100 * p)));
            assert(32 * (i as nat) == 8 * (4 * (i as nat)));
            assert((w as int) * p == (b0 as int) * p + (b1 as int) * (0x100 * p) + (b2 as int) * (
            0x100 * (0x100 * p)) + (b3 as int) * (0x100 * (0x100 * (0x100 * p))))
                by (nonlinear_arith)
                requires
                    (w as int) == (b0 as int) + (b1 as int) * 0x100 + (b2 as int) * 0x10000 + (
                    b3 as int) * 0x1000000,
            ;
            assert(bytes_value(r@) == words_value(words@.subrange(0, ii + 1)));
        }
        i = i + 1;
    }
    proof {
        assert(words@.subrange(0, words@.len() as int) =~= words@);
        if r@.len() > 0 {
            assert(words@[words@.len() - 1] == words@.last());
        }
    }
    r
}

/// Words and bytes of equal little-endian value and equal bit width denote
/// the same two's-complement integer when their sign bits agree.
pub proof fn lemma_twos_words_of_bytes(bs: Seq<u8>, ws: Seq<u32>)
    requires
        bs.len() == 4 * ws.len(),
        words_value(ws) == bytes_value(bs),
        ws.len() > 0 ==> ((ws.last() >= 0x80000000) <==> (bs.last() >= 0x80)),
    ensures
        twos_value_words(ws) == twos_value_bytes(bs),
{
    if ws.len() > 0 {
        assert(8 * bs.len() == 32 * ws.len());
    }
}

/// Reads a little-endian two's-complement word buffer as a canonical
/// sign-magnitude integer. A set sign bit means a negative value whose
/// magnitude is recovered by complementing every word and adding one.
pub fn from_twos_complement_words(words: Vec<u32>) -> (r: LocalInteger)
    ensures
        r.wf(),
        r.value() == twos_value_words(words@),
{
    if words.len() == 0 {
        LocalInteger::zero()
    } else if words[words.len() - 1] < 0x80000000 {
        LocalInteger::from_words(false, words)
    } else {
        let c = complement_words(&words);
        let m = add_one_words(&c);
        proof {
            assert(words_value(m@) == pow2(32 * words@.len()) - words_value(words@));
        }
        LocalInteger::from_words(true, m)
    }
}

/// Reads a little-endian two's-complement byte buffer of any length as a
/// canonical sign-magnitude integer, sign-extending it to a whole number
/// of 32-bit words first.
pub fn from_signed_bytes_le(bytes: Vec<u8>) -> (r: LocalInteger)
    ensures
        r.wf(),
        r.value() == twos_value_bytes(bytes@),
{
    let mut b = bytes;
    let fill: u8 = if b.len() > 0 && b[b.len() - 1] >= 0x80 {
        0xFF
    } else {
        0
    };
    while b.len() % 4 != 0
        invariant
            twos_value_bytes(b@) == twos_value_bytes(bytes@),
            fill == 0 || fill == 0xFF,
            b@.len() == 0 ==> fill == 0,
            b@.len() > 0 ==> ((b@.last() >= 0x80) <==> (fill == 0xFF)),
        decreases (4 - b@.len() % 4) % 4,
    {
        let ghost oldb = b@;
        b.push(fill);
        proof {
            lemma_twos_bytes_extend(oldb, fill);
        }
    }
    let words = bytes_to_words_le(&b);
    proof {
        vstd::arithmetic::div_mod::lemma_fundamental_div_mod(b@.len() as int, 4);
        lemma_twos_words_of_bytes(b@, words@);
    }
    from_twos_complement_words(words)
}

/// A two's-complement byte string of minimal length: no trailing byte may
/// be dropped without changing the denoted integer.
pub open spec fn twos_canonical(s: Seq<u8>) -> bool {
    s.len() > 0 ==> {
        &&& !(s.last() == 0 && (s.len() == 1 || s[s.len() - 2] < 0x80))
        &&& !(s.last() == 0xFF && s.len() > 1 && s[s.len() - 2] >= 0x80)
    }
}

/// Drops redundant sign-extension bytes from the top of a two's-complement
/// byte buffer; the denoted integer is unchanged.
pub fn trim_twos_bytes(bytes: Vec<u8>) -> (r: Vec<u8>)
    ensures
        twos_value_bytes(r@) == twos_value_bytes(bytes@),
        twos_canonical(r@),
        r@.len() <= bytes@.len(),
{
    let mut b = bytes;
    loop
        invariant
            twos_value_bytes(b@) == twos_value_bytes(bytes@),
            b@.len() <= bytes@.len(),
        ensures
            twos_value_bytes(b@) == twos_value_bytes(bytes@),
            twos_canonical(b@),
            b@.len() <= bytes@.len(),
        decreases b@.len(),
    {
        let n: usize = b.len();
        if n == 0 {
            break ;
        }
        let last: u8 = b[n - 1];
        let drop_zero: bool = last == 0 && (n == 1 || b[n - 2] < 0x80);
        let drop_ff: bool = last == 0xFF && n > 1 && b[n - 2] >= 0x80;
        if !(drop_zero || drop_ff) {
            break ;
        }
        let ghost oldb = b@;
        b.pop();
        proof {
            assert(b@ == oldb.subrange(0, oldb.len() - 1));
            assert(oldb =~= b@.push(last));
            lemma_twos_bytes_extend(b@, last);
        }
    }
    b
}

/// Encodes a sign-magnitude integer as its minimal little-endian
/// two's-complement byte string: the magnitude directly for non-negative
/// values; for negative ones, the complement of the magnitude-minus-one
/// with a set sign bit.
pub fn to_signed_bytes_le(x: &LocalInteger) -> (r: Vec<u8>)
    requires
        x.wf(),
        x.magnitude@.len() * 4 < usize::MAX,
    ensures
        twos_value_bytes(r@) == x.value(),
        twos_canonical(r@),
{
    if x.magnitude.len() == 0 {
        Vec::new()
    } else if !x.negative {
        let mut b = words_to_bytes_le(&x.magnitude);
        let ghost oldb = b@;
        b.push(0);
        proof {
            lemma_bytes_value_snoc(oldb, 0);
            assert(b@.last() == 0);
        }
        trim_twos_bytes(b)
    } else {
        proof {
            lemma_limbs_value_lower(x.magnitude@, 32);
            lemma_pow2_pos((32 * (x.magnitude@.len() - 1)) as nat);
        }
        let d = sub_one_words(&x.magnitude);
        let c = complement_words(&d);
        let mut b = words_to_bytes_le(&c);
        let ghost oldb = b@;
        b.push(0xFF);
        proof {
            lemma2_to64();
            let n: nat = x.magnitude@.len();
            lemma_bytes_value_snoc(oldb, 0xFF);
            assert(b@.last() == 0xFF);
            assert(8 * oldb.len() == 32 * n);
            lemma_pow2_adds(32 * n, 8);
            assert(8 * b@.len() == 32 * n + 8);
            assert(pow2(32 * n + 8) == 256 * pow2(32 * n));
            assert(bytes_value(oldb) == pow2(32 * n) - words_value(x.magnitude@));
            assert(twos_value_bytes(b@) == bytes_value(oldb) + 255 * pow2(32 * n) - pow2(
                32 * n + 8,
            ));
        }
        trim_twos_bytes(b)
    }
}

} // verus!
