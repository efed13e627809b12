use vstd::prelude::*;
use vstd::arithmetic::power2::{pow2, lemma_pow2_adds, lemma2_to64};
use vstd::arithmetic::div_mod::{lemma_fundamental_div_mod, lemma_fundamental_div_mod_converse,
    lemma_mod_bound, lemma_small_mod, lemma_mod_multiples_basic};
use vstd::bits::{lemma_u32_shl_is_mul, lemma_u32_pow2_no_overflow, lemma_u64_shl_is_mul,
    lemma_u64_pow2_no_overflow};
use crate::radix::{digits_value, words_value, lemma_limbs_value_snoc};
use crate::local::LocalInteger;

verus! {

/// The rotating bit offset of the repacking loop: at digit index `i` the
/// number of bits still pending in the carry is `(30 * i) % 32`, and the
/// loop computes it as `(32 - (2 * i) % 32) % 32`; the two coincide, and
/// the offset is always even.
proof fn lemma_repack_offset(i: int)
    requires
        i >= 0,
    ensures
        (32 - ((2 * i) % 32)) % 32 == (30 * i) % 32,
        ((30 * i) % 32) % 2 == 0,
{
    let r: int = (2 * i) % 32;
    let q: int = (2 * i) / 32;
    lemma_fundamental_div_mod(2 * i, 32);
    lemma_mod_bound(2 * i, 32);
    if r == 0 {
        assert(30 * i == (i - q) * 32 + 0);
        lemma_fundamental_div_mod_converse(30 * i, 32, i - q, 0);
        assert((32 - 0) % 32 == 0int) by {
            lemma_mod_multiples_basic(1, 32);
        }
    } else {
        assert(30 * i == (i - q - 1) * 32 + (32 - r));
        lemma_fundamental_div_mod_converse(30 * i, 32, i - q - 1, 32 - r);
        lemma_small_mod((32 - r) as nat, 32);
    }
    let b: int = (30 * i) % 32;
    let bq: int = (30 * i) / 32;
    lemma_fundamental_div_mod(30 * i, 32);
    assert(b == (15 * i - 16 * bq) * 2);
    lemma_mod_multiples_basic(15 * i - 16 * bq, 2);
}

/// Repacks a little-endian sequence of 30-bit digits (each stored in a
/// 32-bit unit) into a little-endian sequence of full 32-bit words of the
/// same magnitude. The final carry word is always emitted, even when zero;
/// the caller trims leading zero words.
pub fn pytonormal(pyints: &Vec<u32>) -> (r: Vec<u32>)
    requires
        forall|k: int| 0 <= k < pyints@.len() ==> (#[trigger] pyints@[k]) < 0x40000000,
        pyints@.len() * 2 <= usize::MAX,
    ensures
        words_value(r@) == digits_value(pyints@),
        r@.len() == (30 * pyints@.len()) / 32 + 1,
{
    let mut newints: Vec<u32> = Vec::with_capacity(pyints.len());
    let mut current: u32 = 0;
    let mut i: usize = 0;
    proof {
        assert(pyints@.subrange(0, 0) =~= Seq::<u32>::empty());
        lemma2_to64();
    }
    while i < pyints.len()
        invariant
            i <= pyints@.len(),
            pyints@.len() * 2 <= usize::MAX,
            forall|k: int| 0 <= k < pyints@.len() ==> (#[trigger] pyints@[k]) < 0x40000000,
            newints@.len() == (30 * (i as int)) / 32,
            (current as nat) < pow2(((30 * (i as int)) % 32) as nat),
            words_value(newints@) + (current as nat) * pow2((32 * newints@.len()) as nat)
                == digits_value(pyints@.subrange(0, i as int)),
        decreases pyints@.len() - i,
    {
        let ghost ii: int = i as int;
        let ghost len0: int = newints@.len() as int;
        let ghost bits: int = (30 * ii) % 32;
        let ghost c0: u32 = current;
        let ghost oldw = newints@;
        let next: u32 = pyints[i];
        let magic_num: usize = (32 - (i * 2) % 32) % 32;
        let m: u32 = magic_num as u32;
        let sh: u32 = (32 - m) % 32;
        proof {
            lemma2_to64();
            lemma_repack_offset(ii);
            lemma_fundamental_div_mod(30 * ii, 32);
            lemma_mod_bound(30 * ii, 32);
            assert(m as int == bits);
            assert(30 * ii == 32 * len0 + bits);
            assert(pyints@.subrange(0, ii + 1) =~= pyints@.subrange(0, ii).push(pyints@[ii]));
            lemma_limbs_value_snoc(pyints@.subrange(0, ii), next, 30);
        }
        if m != 0 {
            let w: u32 = current | (next << m);
            newints.push(w);
            current = next >> sh;
            proof {
                assert(bits >= 2);
                lemma_u32_pow2_no_overflow(m as nat);
                lemma_u32_shl_is_mul(1u32, m);
                assert(c0 < (1u32 << m));
                assert((w as u64) + ((next >> sh) as u64) * 0x100000000u64 == (c0 as u64) + (
                next as u64) * ((1u64 << (m as u64)) as u64)) by (bit_vector)
                    requires
                        w == (c0 | (next << m)),
                        2 <= m && m < 32u32,
                        m + sh == 32u32,
                        c0 < (1u32 << m),
                ;
                assert((next >> sh) < (1u32 << ((m - 2) as u32))) by (bit_vector)
                    requires
                        next < 0x40000000u32,
                        2 <= m && m < 32u32,
                        m + sh == 32u32,
                ;
                lemma_u64_pow2_no_overflow(m as nat);
                lemma_u64_shl_is_mul(1u64, m as u64);
                lemma_u32_pow2_no_overflow((m - 2) as nat);
                lemma_u32_shl_is_mul(1u32, (m - 2) as u32);
                // the next offset and word count
                assert(30 * (ii + 1) == (len0 + 1) * 32 + (bits - 2));
                lemma_fundamental_div_mod_converse(30 * (ii + 1), 32, len0 + 1, bits - 2);
                assert(newints@.len() == (30 * ((i + 1) as int)) / 32);
                assert((current as nat) < pow2(((30 * ((i + 1) as int)) % 32) as nat));
                // the value equation
                lemma_limbs_value_snoc(oldw, w, 32);
                let p: int = pow2((32 * len0) as nat) as int;
                let pnew: int = pow2((32 * (len0 + 1)) as nat) as int;
                let pm: int = pow2(m as nat) as int;
                let p30: int = pow2((30 * ii) as nat) as int;
                assert(pnew == p * pow2(32)) by {
                    lemma_pow2_adds((32 * len0) as nat, 32);
                }
                assert(p30 == pm * p) by {
                    lemma_pow2_adds(m as nat, (32 * len0) as nat);
                    assert((m as nat) + ((32 * len0) as nat) == (30 * ii) as nat);
                }
                let wn: int = words_value(newints@) as int;
                let wo: int = words_value(oldw) as int;
                let ds: int = digits_value(pyints@.subrange(0, ii)) as int;
                let dn: int = digits_value(pyints@.subrange(0, ii + 1)) as int;
                let c2: int = current as int;
                assert(wn + c2 * pnew == dn) by (nonlinear_arith)
                    requires
                        wn == wo + (w as int) * p,
                        (w as int) + c2 * pow2(32) == (c0 as int) + (next as int) * pm,
                        wo + (c0 as int) * p == ds,
                        dn == ds + (next as int) * p30,
                        p30 == pm * p,
                        pnew == p * pow2(32),
                        pow2(32) == 0x100000000,
                ;
                assert(words_value(newints@) + (current as nat) * pow2((32
                    * newints@.len()) as nat) == digits_value(
                    pyints@.subrange(0, (i + 1) as int),
                ));
            }
        } else {
            current = next >> sh;
            proof {
                assert(pow2(0) == 1);
                assert(c0 == 0);
                assert(sh == 0);
                assert(next >> 0u32 == next) by (bit_vector);
                assert(current == next);
                assert(30 * (ii + 1) == len0 * 32 + 30);
                lemma_fundamental_div_mod_converse(30 * (ii + 1), 32, len0, 30);
                assert(pow2(30) == 0x40000000);
                assert((current as nat) < pow2(((30 * ((i + 1) as int)) % 32) as nat));
                assert((32 * len0) as nat == (30 * ii) as nat);
                assert(words_value(newints@) + (current as nat) * pow2((32
                    * newints@.len()) as nat) == digits_value(
                    pyints@.subrange(0, (i + 1) as int),
                ));
            }
        }
        i = i + 1;
    }
    let ghost oldw = newints@;
    newints.push(current);
    proof {
        assert(pyints@.subrange(0, pyints@.len() as int) =~= pyints@);
        lemma_limbs_value_snoc(oldw, current, 32);
    }
    newints
}

/// Direct-layout conversion core: a sign and the foreign value's raw
/// little-endian 30-bit digit array become a canonical `LocalInteger`
/// of the same magnitude.
pub fn from_python_digits(negative: bool, digits: &Vec<u32>) -> (r: LocalInteger)
    requires
        forall|k: int| 0 <= k < digits@.len() ==> (#[trigger] digits@[k]) < 0x40000000,
        digits@.len() * 2 <= usize::MAX,
    ensures
        r.wf(),
        r.value() == if negative {
            -(digits_value(digits@) as int)
        } else {
            digits_value(digits@) as int
        },
{
    if digits.len() == 0 {
        proof {
            assert(digits_value(digits@) == 0);
        }
        LocalInteger::zero()
    } else {
        let words = pytonormal(digits);
        LocalInteger::from_words(negative, words)
    }
}

} // verus!
