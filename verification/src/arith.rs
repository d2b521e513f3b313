//! Small arithmetic helpers shared by the numerical core: absolute values
//! and magnitude bounds for sequences of integer numerators, and powers of
//! two as exact machine integers.

use vstd::prelude::*;
use vstd::arithmetic::power::{
    pow, lemma_pow0, lemma_pow1, lemma_pow_adds, lemma_pow_positive, lemma_pow_increases,
};
use vstd::arithmetic::power2::{pow2, lemma2_to64, lemma2_to64_rest};

verus! {

/// Absolute value of a mathematical integer.
pub open spec fn iabs(x: int) -> int {
    if x < 0 {
        -x
    } else {
        x
    }
}

/// Every element of `s` has magnitude at most `b`.
pub open spec fn bounded(s: Seq<int>, b: int) -> bool {
    forall|i: int| 0 <= i < s.len() ==> iabs(s[i]) <= b
}

/// The concrete value of `pow(2, 21)`.
pub proof fn lemma_pow2_21()
    ensures
        pow(2, 21) == 0x200000,
{
    lemma_pow_positive(2, 21);
    lemma2_to64();
    assert(pow2(21) == 0x200000);
}

/// `pow(2, e)` is positive and at most `pow(2, 21)` for the exponents the
/// conversion tables use.
pub proof fn lemma_pow2_le_21(e: nat)
    requires
        e <= 21,
    ensures
        0 < pow(2, e) <= 0x200000,
{
    lemma_pow_positive(2, e);
    lemma_pow_increases(2, e, 21);
    lemma_pow2_21();
}

/// The concrete value of `pow(2, 120)`; in particular it fits in an `i128`.
pub proof fn lemma_pow2_120()
    ensures
        pow(2, 120) == 0x1000000_00000000_00000000_00000000,
{
    lemma_pow_adds(2, 60, 60);
    lemma_pow_positive(2, 60);
    lemma2_to64_rest();
    assert(pow2(60) == 0x1000000000000000);
    assert(pow(2, 60) == 0x1000000000000000);
    assert(pow(2, 120) == 0x1000000000000000int * 0x1000000000000000);
    assert(0x1000000000000000int * 0x1000000000000000
        == 0x1000000_00000000_00000000_00000000) by (nonlinear_arith);
}

/// Exact power of two as an `i128`.
///
/// The exponent is capped so that the result, and one further
/// multiplication by it, stay well inside the `i128` range.
pub fn pow2i(e: u64) -> (r: i128)
    requires
        e <= 120,
    ensures
        r == pow(2, e as nat),
        1 <= r <= pow(2, 120),
{
    proof {
        lemma_pow2_120();
    }
    let mut r: i128 = 1;
    let mut i: u64 = 0;
    proof {
        lemma_pow0(2);
    }
    while i < e
        invariant
            i <= e <= 120,
            r == pow(2, i as nat),
            1 <= r,
        decreases e - i,
    {
        proof {
            lemma_pow_increases(2, (i + 1) as nat, 120);
            lemma_pow2_120();
            lemma_pow_adds(2, i as nat, 1);
            lemma_pow_positive(2, i as nat);
            assert(pow(2, 1) == 2) by {
                lemma_pow1(2);
            }
        }
        r = r * 2;
        i = i + 1;
    }
    proof {
        lemma_pow_increases(2, e as nat, 120);
    }
    r
}

} // verus!
