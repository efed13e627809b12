use vstd::prelude::*;
use vstd::arithmetic::power2::lemma_pow2_pos;
use crate::local::{LocalInteger, lemma_value_determines_representation};
use crate::radix::{digits_value, lemma_limbs_value_lower};
use crate::twos::twos_value_bytes;

verus! {

/// Round trip, decode after encode: an encoding of a well-formed integer,
/// decoded back, returns the very same sign and word sequence, for every
/// representable value.
pub proof fn lemma_decode_encode_round_trip(x: LocalInteger, enc: Seq<u8>, y: LocalInteger)
    requires
        x.wf(),
        twos_value_bytes(enc) == x.value(),
        y.wf(),
        y.value() == twos_value_bytes(enc),
    ensures
        y.negative == x.negative,
        y.magnitude@ =~= x.magnitude@,
{
    lemma_value_determines_representation(x, y);
}

/// Round trip, encode after decode: re-encoding a decoded byte buffer
/// yields bytes that denote the same integer as the original buffer.
pub proof fn lemma_encode_decode_round_trip(b: Seq<u8>, x: LocalInteger, enc: Seq<u8>)
    requires
        x.value() == twos_value_bytes(b),
        twos_value_bytes(enc) == x.value(),
    ensures
        twos_value_bytes(enc) == twos_value_bytes(b),
{
}

/// Strategy equivalence: when the canonical-API export bytes and the raw
/// digit array describe the same integer, the two extraction strategies
/// build identical sign-magnitude results — same sign, same words.
pub proof fn lemma_strategy_equivalence(
    bytes: Seq<u8>,
    negative: bool,
    digits: Seq<u32>,
    a: LocalInteger,
    b: LocalInteger,
)
    requires
        a.wf(),
        a.value() == twos_value_bytes(bytes),
        b.wf(),
        b.value() == (if negative {
            -(digits_value(digits) as int)
        } else {
            digits_value(digits) as int
        }),
        twos_value_bytes(bytes) == (if negative {
            -(digits_value(digits) as int)
        } else {
            digits_value(digits) as int
        }),
    ensures
        a.negative == b.negative,
        a.magnitude@ =~= b.magnitude@,
{
    lemma_value_determines_representation(a, b);
}

/// Zero handling: the only well-formed representation of zero has a
/// non-negative sign and an empty magnitude.
pub proof fn lemma_zero_form(x: LocalInteger)
    requires
        x.wf(),
        x.value() == 0,
    ensures
        !x.negative,
        x.magnitude@.len() == 0,
{
    if x.magnitude@.len() > 0 {
        lemma_limbs_value_lower(x.magnitude@, 32);
        lemma_pow2_pos((32 * (x.magnitude@.len() - 1)) as nat);
        assert(false);
    }
}

} // verus!
