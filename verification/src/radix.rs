use vstd::prelude::*;
use vstd::arithmetic::power2::{pow2, lemma_pow2_adds, lemma_pow2_pos, lemma2_to64};
use vstd::arithmetic::div_mod::lemma_fundamental_div_mod_converse;

verus! {

/// Value of a little-endian limb sequence read in base `2^width`:
/// limb `i` is weighted by `2^(width * i)`.
pub open spec fn limbs_value(s: Seq<u32>, width: nat) -> nat
    decreases s.len(),
{
    if s.len() == 0 {
        0
    } else {
        s[0] as nat + pow2(width) * limbs_value(s.drop_first(), width)
    }
}

/// Value of a little-endian byte sequence in base 256.
pub open spec fn bytes_value(s: Seq<u8>) -> nat
    decreases s.len(),
{
    if s.len() == 0 {
        0
    } else {
        s[0] as nat + pow2(8) * bytes_value(s.drop_first())
    }
}

/// The local magnitude radix: 32-bit words, least-significant first.
pub open spec fn words_value(s: Seq<u32>) -> nat {
    limbs_value(s, 32)
}

/// The foreign magnitude radix: 30 significant bits per stored 32-bit digit.
pub open spec fn digits_value(s: Seq<u32>) -> nat {
    limbs_value(s, 30)
}

/// Appending a limb adds its value at the next place.
pub proof fn lemma_limbs_value_snoc(s: Seq<u32>, x: u32, width: nat)
    ensures
        limbs_value(s.push(x), width) == limbs_value(s, width) + (x as nat) * pow2(
            width * s.len(),
        ),
    decreases s.len(),
{
    lemma2_to64();
    if s.len() == 0 {
        assert(s.push(x).len() == 1);
        assert(s.push(x)[0] == x);
        assert(s.push(x).drop_first() =~= Seq::<u32>::empty());
        assert(limbs_value(s.push(x).drop_first(), width) == 0);
        assert(limbs_value(s.push(x), width) == x as nat + pow2(width) * 0);
        assert((x as nat) * pow2(0) == x as nat) by {
            assert(pow2(0) == 1);
        }
    } else {
        assert(s.push(x).drop_first() =~= s.drop_first().push(x));
        assert(s.push(x)[0] == s[0]);
        lemma_limbs_value_snoc(s.drop_first(), x, width);
        let rest: nat = limbs_value(s.drop_first(), width);
        let n1: nat = (s.len() - 1) as nat;
        assert(limbs_value(s.push(x), width) == s[0] as nat + pow2(width) * (rest + (x as nat)
            * pow2(width * n1)));
        lemma_pow2_adds(width, width * n1);
        assert(width + width * n1 == width * s.len()) by (nonlinear_arith)
            requires
                n1 == s.len() - 1,
                s.len() >= 1,
        ;
        assert(pow2(width) * (rest + (x as nat) * pow2(width * n1)) == pow2(width) * rest + (
        x as nat) * (pow2(width) * pow2(width * n1))) by (nonlinear_arith);
    }
}

/// A limb sequence whose limbs all fit in `width` bits is bounded by
/// `2^(width * len)`.
pub proof fn lemma_limbs_value_bound(s: Seq<u32>, width: nat)
    requires
        forall|k: int| 0 <= k < s.len() ==> (#[trigger] s[k]) < pow2(width),
    ensures
        limbs_value(s, width) < pow2(width * s.len()),
    decreases s.len(),
{
    lemma_pow2_pos(width);
    if s.len() == 0 {
        lemma2_to64();
        assert(pow2(0) == 1);
    } else {
        let d = s.drop_first();
        assert(forall|k: int| 0 <= k < d.len() ==> (#[trigger] d[k]) < pow2(width)) by {
            assert(forall|k: int| 0 <= k < d.len() ==> d[k] == s[k + 1]);
        }
        lemma_limbs_value_bound(d, width);
        let n1: nat = (s.len() - 1) as nat;
        lemma_pow2_adds(width, width * n1);
        assert(width + width * n1 == width * s.len()) by (nonlinear_arith)
            requires
                n1 == s.len() - 1,
                s.len() >= 1,
        ;
        assert(s[0] as nat + pow2(width) * limbs_value(d, width) < pow2(width) * pow2(width * n1))
            by (nonlinear_arith)
            requires
                s[0] < pow2(width),
                limbs_value(d, width) < pow2(width * n1),
                pow2(width) > 0,
        ;
    }
}

/// A limb sequence with a non-zero top limb is at least `2^(width * (len - 1))`.
pub proof fn lemma_limbs_value_lower(s: Seq<u32>, width: nat)
    requires
        s.len() > 0,
        s.last() != 0,
    ensures
        limbs_value(s, width) >= pow2((width * (s.len() - 1)) as nat),
    decreases s.len(),
{
    lemma_pow2_pos(width);
    if s.len() == 1 {
        lemma2_to64();
        assert(pow2(0) == 1);
        assert((width * (s.len() - 1)) as nat == 0);
        assert(s[0] == s.last());
        assert(limbs_value(s, width) == s[0] as nat + pow2(width) * limbs_value(
            s.drop_first(),
            width,
        ));
        assert(pow2(width) * limbs_value(s.drop_first(), width) >= 0);
        assert(s[0] as nat >= 1);
    } else {
        let d = s.drop_first();
        assert(d.last() == s.last());
        lemma_limbs_value_lower(d, width);
        let n2: nat = (s.len() - 2) as nat;
        assert(d.len() - 1 == n2);
        assert((width * (d.len() - 1)) as nat == width * n2);
        assert(limbs_value(d, width) >= pow2(width * n2));
        lemma_pow2_adds(width, width * n2);
        assert(width + width * n2 == width * (s.len() - 1)) by (nonlinear_arith)
            requires
                n2 == s.len() - 2,
                s.len() >= 2,
        ;
        assert(s[0] as nat + pow2(width) * limbs_value(d, width) >= pow2(width) * pow2(
            width * n2,
        )) by (nonlinear_arith)
            requires
                limbs_value(d, width) >= pow2(width * n2),
                pow2(width) > 0,
        ;
        assert(limbs_value(s, width) == s[0] as nat + pow2(width) * limbs_value(d, width));
    }
}

/// In a canonical (top limb non-zero, limbs in range) little-endian
/// representation, the value determines the limb sequence.
pub proof fn lemma_limbs_value_inj(a: Seq<u32>, b: Seq<u32>, width: nat)
    requires
        width > 0,
        forall|k: int| 0 <= k < a.len() ==> (#[trigger] a[k]) < pow2(width),
        forall|k: int| 0 <= k < b.len() ==> (#[trigger] b[k]) < pow2(width),
        a.len() > 0 ==> a.last() != 0,
        b.len() > 0 ==> b.last() != 0,
        limbs_value(a, width) == limbs_value(b, width),
    ensures
        a =~= b,
    decreases a.len(),
{
    lemma_pow2_pos(width);
    if a.len() == 0 {
        if b.len() > 0 {
            lemma_limbs_value_lower(b, width);
            lemma_pow2_pos((width * (b.len() - 1)) as nat);
        }
        assert(b.len() == 0);
    } else if b.len() == 0 {
        lemma_limbs_value_lower(a, width);
        lemma_pow2_pos((width * (a.len() - 1)) as nat);
        assert(false);
    } else {
        let v: nat = limbs_value(a, width);
        let da = a.drop_first();
        let db = b.drop_first();
        assert(a[0] < pow2(width));
        assert(b[0] < pow2(width));
        assert(v as int == (limbs_value(da, width) as int) * (pow2(width) as int)
            + a[0] as int) by (nonlinear_arith)
            requires
                v == a[0] as nat + pow2(width) * limbs_value(da, width),
        ;
        assert(v as int == (limbs_value(db, width) as int) * (pow2(width) as int)
            + b[0] as int) by (nonlinear_arith)
            requires
                v == b[0] as nat + pow2(width) * limbs_value(db, width),
        ;
        lemma_fundamental_div_mod_converse(
            v as int,
            pow2(width) as int,
            limbs_value(da, width) as int,
            a[0] as int,
        );
        lemma_fundamental_div_mod_converse(
            v as int,
            pow2(width) as int,
            limbs_value(db, width) as int,
            b[0] as int,
        );
        assert(a[0] == (v as int) % (pow2(width) as int) && b[0] == (v as int) % (pow2(
            width,
        ) as int));
        assert(limbs_value(da, width) == (v as int) / (pow2(width) as int));
        assert(limbs_value(db, width) == (v as int) / (pow2(width) as int));
        assert(forall|k: int| 0 <= k < da.len() ==> (#[trigger] da[k]) < pow2(width)) by {
            assert(forall|k: int| 0 <= k < da.len() ==> da[k] == a[k + 1]);
        }
        assert(forall|k: int| 0 <= k < db.len() ==> (#[trigger] db[k]) < pow2(width)) by {
            assert(forall|k: int| 0 <= k < db.len() ==> db[k] == b[k + 1]);
        }
        if da.len() > 0 {
            assert(da.last() == a.last());
        }
        if db.len() > 0 {
            assert(db.last() == b.last());
        }
        lemma_limbs_value_inj(da, db, width);
        assert(a =~= b) by {
            assert(a.len() == b.len());
            assert(forall|k: int| 1 <= k < a.len() ==> a[k] == da[k - 1] && b[k] == db[k - 1]);
        }
    }
}

/// Appending a zero limb does not change the value.
pub proof fn lemma_limbs_value_snoc_zero(s: Seq<u32>, width: nat)
    ensures
        limbs_value(s.push(0), width) == limbs_value(s, width),
{
    lemma_limbs_value_snoc(s, 0, width);
}

/// Appending a byte adds its value at the next place.
pub proof fn lemma_bytes_value_snoc(s: Seq<u8>, x: u8)
    ensures
        bytes_value(s.push(x)) == bytes_value(s) + (x as nat) * pow2(8 * s.len()),
    decreases s.len(),
{
    lemma2_to64();
    if s.len() == 0 {
        assert(s.push(x).len() == 1);
        assert(s.push(x)[0] == x);
        assert(s.push(x).drop_first() =~= Seq::<u8>::empty());
        assert(bytes_value(s.push(x).drop_first()) == 0);
        assert(bytes_value(s.push(x)) == x as nat + pow2(8) * 0);
        assert((x as nat) * pow2(0) == x as nat) by {
            assert(pow2(0) == 1);
        }
    } else {
        assert(s.push(x).drop_first() =~= s.drop_first().push(x));
        assert(s.push(x)[0] == s[0]);
        lemma_bytes_value_snoc(s.drop_first(), x);
        let rest: nat = bytes_value(s.drop_first());
        let n1: nat = (s.len() - 1) as nat;
        lemma_pow2_adds(8, 8 * n1);
        assert(8 + 8 * n1 == 8 * s.len()) by (nonlinear_arith)
            requires
                n1 == s.len() - 1,
                s.len() >= 1,
        ;
        assert(pow2(8) * (rest + (x as nat) * pow2(8 * n1)) == pow2(8) * rest + (x as nat) * (pow2(
            8,
        ) * pow2(8 * n1))) by (nonlinear_arith);
    }
}

} // verus!
