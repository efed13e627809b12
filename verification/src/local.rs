use vstd::prelude::*;
use vstd::arithmetic::power2::{pow2, lemma_pow2_pos, lemma2_to64};
use crate::radix::{words_value, lemma_limbs_value_snoc_zero, lemma_limbs_value_inj,
    lemma_limbs_value_lower};

verus! {

/// Sign-magnitude arbitrary-precision integer: an explicit sign flag and a
/// magnitude stored as 32-bit words, least-significant word first, with no
/// redundant leading zero word. Zero is stored as an empty magnitude with a
/// non-negative sign.
pub struct LocalInteger {
    pub negative: bool,
    pub magnitude: Vec<u32>,
}

/// Every `u32` word fits in 32 bits.
pub proof fn lemma_u32_words_in_range(s: Seq<u32>)
    ensures
        forall|k: int| 0 <= k < s.len() ==> (#[trigger] s[k]) < pow2(32),
{
    lemma2_to64();
}

impl LocalInteger {
    /// The representation invariant: the top stored word is non-zero, and a
    /// negative sign is only carried by a non-zero magnitude.
    pub open spec fn wf(self) -> bool {
        &&& self.magnitude@.len() > 0 ==> self.magnitude@.last() != 0
        &&& self.negative ==> self.magnitude@.len() > 0
    }

    /// The represented mathematical integer.
    pub open spec fn value(self) -> int {
        if self.negative {
            -(words_value(self.magnitude@) as int)
        } else {
            words_value(self.magnitude@) as int
        }
    }

    /// The value zero: non-negative sign, empty magnitude.
    pub fn zero() -> (r: Self)
        ensures
            r.wf(),
            r.value() == 0,
            !r.negative,
            r.magnitude@.len() == 0,
    {
        LocalInteger { negative: false, magnitude: Vec::new() }
    }

    /// Builds a canonical integer from a sign and a little-endian word
    /// sequence, trimming leading zero words and normalising the sign of
    /// zero.
    pub fn from_words(negative: bool, words: Vec<u32>) -> (r: Self)
        ensures
            r.wf(),
            r.value() == if negative {
                -(words_value(words@) as int)
            } else {
                words_value(words@) as int
            },
    {
        let mag = trim_words(words);
        if mag.len() == 0 {
            LocalInteger { negative: false, magnitude: mag }
        } else {
            LocalInteger { negative, magnitude: mag }
        }
    }

    /// Whether the represented value is strictly negative.
    pub fn is_negative(&self) -> (r: bool)
        requires
            self.wf(),
        ensures
            r == self.negative,
            r == (self.value() < 0),
    {
        proof {
            if self.negative {
                lemma_limbs_value_lower(self.magnitude@, 32);
                lemma_pow2_pos((32 * (self.magnitude@.len() - 1)) as nat);
            }
        }
        self.negative
    }
}

/// Removes leading (most-significant) zero words; the value is unchanged.
pub fn trim_words(words: Vec<u32>) -> (r: Vec<u32>)
    ensures
        words_value(r@) == words_value(words@),
        r@.len() > 0 ==> r@.last() != 0,
        r@.len() <= words@.len(),
{
    let mut w = words;
    while w.len() > 0 && w[w.len() - 1] == 0
        invariant
            words_value(w@) == words_value(words@),
            w@.len() <= words@.len(),
        decreases w@.len(),
    {
        let ghost prev = w@;
        w.pop();
        proof {
            assert(w@ == prev.subrange(0, prev.len() - 1));
            assert(prev =~= w@.push(0));
            lemma_limbs_value_snoc_zero(w@, 32);
        }
    }
    w
}

/// A well-formed `LocalInteger` is determined by its value: equal values
/// mean equal sign and word-for-word equal magnitude.
pub proof fn lemma_value_determines_representation(a: LocalInteger, b: LocalInteger)
    requires
        a.wf(),
        b.wf(),
        a.value() == b.value(),
    ensures
        a.negative == b.negative,
        a.magnitude@ =~= b.magnitude@,
{
    lemma_u32_words_in_range(a.magnitude@);
    lemma_u32_words_in_range(b.magnitude@);
    if a.magnitude@.len() > 0 {
        lemma_limbs_value_lower(a.magnitude@, 32);
        lemma_pow2_pos((32 * (a.magnitude@.len() - 1)) as nat);
        assert(words_value(a.magnitude@) > 0);
    }
    if b.magnitude@.len() > 0 {
        lemma_limbs_value_lower(b.magnitude@, 32);
        lemma_pow2_pos((32 * (b.magnitude@.len() - 1)) as nat);
        assert(words_value(b.magnitude@) > 0);
    }
    if a.value() == 0 {
        assert(a.magnitude@.len() == 0);
        assert(b.magnitude@.len() == 0);
        assert(a.magnitude@ =~= b.magnitude@);
    } else {
        assert(a.negative == b.negative);
        assert(words_value(a.magnitude@) == words_value(b.magnitude@));
        lemma_limbs_value_inj(a.magnitude@, b.magnitude@, 32);
    }
}

} // verus!
