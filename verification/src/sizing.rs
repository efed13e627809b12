use vstd::prelude::*;
use vstd::arithmetic::div_mod::{lemma_fundamental_div_mod, lemma_mod_multiples_basic};

verus! {

/// Byte count of the generously padded canonical-API export buffer:
/// `(bits + 15) / 8` bytes always include at least one whole spare byte,
/// so the sign bit of a magnitude of `bits` bits fits.
pub fn buffer_len_padded(bits: usize) -> (r: usize)
    requires
        bits + 15 <= usize::MAX,
    ensures
        8 * r >= bits + 8,
        8 * r <= bits + 15,
{
    proof {
        lemma_fundamental_div_mod((bits + 15) as int, 8);
    }
    (bits + 15) / 8
}

/// Byte count of the exactly-sized canonical-API export buffer: the least
/// whole number of 32-bit words with room for the sign bit, as
/// `(bits + 32) / 32` words of four bytes. The result is a non-zero
/// multiple of four, so the buffer can be reread as whole words.
pub fn buffer_len_words(bits: usize) -> (r: usize)
    requires
        bits + 32 <= usize::MAX,
    ensures
        r % 4 == 0,
        r >= 4,
        8 * r >= bits + 1,
        8 * r <= bits + 32,
{
    proof {
        lemma_fundamental_div_mod((bits + 32) as int, 32);
        lemma_mod_multiples_basic(((bits + 32) / 32) as int, 4);
    }
    (bits + 32) / 32 * 4
}

} // verus!
