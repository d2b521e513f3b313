//! Chebyshev economization (telescoping) of the Maclaurin series of sinc.
//!
//! Starting from the degree-`n` Maclaurin coefficients of
//! `sinc(x) = sin(x)/x` — exactly `(-1)^(i/2) / (i+1)!` at even degrees
//! `i`, zero at odd degrees — the economizer converts to the Chebyshev
//! basis, zeroes the `cut_terms` highest-degree coefficients that share the
//! parity of `n`, and converts back.  Because Chebyshev polynomials have
//! equal-ripple magnitude, the removed terms are the ones contributing
//! least, and the round trip collapses the result to a polynomial of
//! genuinely lower degree.
//!
//! All of it is exact: the coefficients are held as integer numerators over
//! the scale `fact(n + 1) * pow(2, n)`.

use vstd::prelude::*;
use vstd::arithmetic::power::pow;
use crate::arith::{iabs, bounded};
use crate::chebyshev::{
    cheb_entry, fwd_dot, inv_dot, lemma_fwd_dot_upto_bound, lemma_inv_dot_upto_bound,
    monomial_to_chebyshev, chebyshev_to_monomial, INVERSE_INPUT_CAP,
};
use crate::combinatorics::{
    fact, fact_ratio, factorial, lemma_fact_13, lemma_fact_20, lemma_fact_increases,
    lemma_fact_pos, lemma_fact_ratio_le_fact,
};
use crate::polynomial::{ScaledCoeffs, EVAL_COEFF_CAP, EVAL_SCALE_CAP};

verus! {

/// Failure of the economizer's precondition.
#[derive(Clone, Copy, Debug, PartialEq, Eq, Structural)]
pub enum EconomizeError {
    /// `2 * cut_terms >= n`: not enough spare degrees to cut.
    NotEnoughSpareDegrees,
}

/// Maclaurin numerator of sinc at degree `i`, over the scale
/// `fact(n + 1)`: zero at odd degrees, `(-1)^(i/2) * fact(n+1) / fact(i+1)`
/// at even ones.
pub open spec fn mac_num(n: nat, i: nat) -> int {
    if i > n || i % 2 == 1 {
        0
    } else if (i / 2) % 2 == 1 {
        -(fact_ratio((i + 1) as nat, (n + 1) as nat) as int)
    } else {
        fact_ratio((i + 1) as nat, (n + 1) as nat) as int
    }
}

/// The Maclaurin numerators of sinc up to degree `n`.
pub open spec fn mac_seq(n: nat) -> Seq<int> {
    Seq::new((n + 1) as nat, |i: int| mac_num(n, i as nat))
}

/// Whether economization with `cut_terms` cuts zeroes the Chebyshev
/// coefficient at index `i`: the `cut_terms` highest indices of the parity
/// of `n` (of `n - 1` when `n` is odd, since the very top degree is then
/// skipped).
pub open spec fn is_cut(n: nat, cut: nat, i: int) -> bool {
    let top = if n % 2 == 0 {
        n as int
    } else {
        n - 1
    };
    &&& (top - i) % 2 == 0
    &&& top - 2 * cut < i <= top
}

/// Chebyshev numerators of the economized polynomial: the converted
/// Maclaurin series with the cut indices zeroed.
pub open spec fn econ_cheb(n: nat, cut: nat) -> Seq<int> {
    Seq::new(
        (n + 1) as nat,
        |i: int|
            if is_cut(n, cut, i) {
                0
            } else {
                fwd_dot(mac_seq(n), n, i)
            },
    )
}

/// Monomial numerators of the economized polynomial, over the scale
/// `fact(n + 1) * pow(2, n)`.
pub open spec fn econ_nums(n: nat, cut: nat) -> Seq<int> {
    Seq::new((n + 1) as nat, |i: int| inv_dot(econ_cheb(n, cut), i))
}

/// A Maclaurin numerator is at most the scale in magnitude (the series'
/// coefficients all lie in [-1, 1]).
pub proof fn lemma_mac_num_bound(n: nat, i: nat)
    ensures
        iabs(mac_num(n, i)) <= fact((n + 1) as nat),
{
    lemma_fact_pos((n + 1) as nat);
    if i <= n && i % 2 == 0 {
        lemma_fact_ratio_le_fact((i + 1) as nat, (n + 1) as nat);
    }
}

/// The Maclaurin coefficients of sinc up to degree `n`, exactly: numerator
/// `i` is `mac_num(n, i)` over the scale `fact(n + 1)`.
pub fn maclaurin_coeffs(n: u64) -> (c: ScaledCoeffs)
    requires
        2 <= n <= 16,
    ensures
        c.wf(),
        c.nums@.len() == n + 1,
        c.scale == fact((n + 1) as nat),
        c.nums_int() == mac_seq(n as nat),
        bounded(c.nums_int(), fact((n + 1) as nat) as int),
{
    let scale_u = factorial(n + 1);
    let mut nums: Vec<i128> = Vec::new();
    let mut i: u64 = 0;
    while i <= n
        invariant
            2 <= n <= 16,
            i <= n + 1,
            nums@.len() == i,
            forall|j: int|
                0 <= j < i ==> (#[trigger] nums@[j]) as int == mac_num(n as nat, j as nat),
        decreases n + 1 - i,
    {
        if i % 2 == 1 {
            nums.push(0);
        } else {
            // fact_ratio(i + 1, n + 1): the product (i + 2) * ... * (n + 1).
            let mut r: u64 = 1;
            let mut t: u64 = i + 2;
            proof {
                lemma_fact_ratio_le_fact((i + 1) as nat, (i + 1) as nat);
            }
            while t <= n + 1
                invariant
                    2 <= n <= 16,
                    i + 2 <= t <= n + 2,
                    r == fact_ratio((i + 1) as nat, (t - 1) as nat),
                decreases n + 2 - t,
            {
                proof {
                    lemma_fact_ratio_le_fact((i + 1) as nat, t as nat);
                    lemma_fact_increases(t as nat, 20);
                    lemma_fact_20();
                    assert(fact_ratio((i + 1) as nat, t as nat) == t * fact_ratio(
                        (i + 1) as nat,
                        (t - 1) as nat,
                    ));
                }
                r = r * t;
                t = t + 1;
            }
            if (i / 2) % 2 == 1 {
                nums.push(-(r as i128));
            } else {
                nums.push(r as i128);
            }
        }
        i = i + 1;
    }
    let c = ScaledCoeffs { scale: scale_u as i128, nums };
    proof {
        lemma_fact_pos((n + 1) as nat);
        assert(c.nums_int() =~= mac_seq(n as nat));
        assert forall|j: int| 0 <= j < c.nums_int().len() implies iabs(c.nums_int()[j]) <= fact(
            (n + 1) as nat,
        ) as int by {
            lemma_mac_num_bound(n as nat, j as nat);
        };
    }
    c
}

/// Zeroes the `cut_terms` highest-degree Chebyshev coefficients of the
/// parity of the top degree, leaving everything else unchanged.
pub fn truncate_chebyshev(b: &ScaledCoeffs, cut_terms: u64) -> (t: ScaledCoeffs)
    requires
        b.wf(),
        2 <= b.nums@.len(),
        2 * (cut_terms as int) < b.degree(),
    ensures
        t.wf(),
        t.scale == b.scale,
        t.nums@.len() == b.nums@.len(),
        forall|i: int|
            0 <= i < t.nums@.len() ==> t.nums_int()[i] == (if is_cut(
                b.degree(),
                cut_terms as nat,
                i,
            ) {
                0
            } else {
                b.nums_int()[i]
            }),
{
    let ghost deg = b.degree();
    let n = b.nums.len() - 1;
    let top: usize = if n % 2 == 0 {
        n
    } else {
        n - 1
    };
    let mut nums: Vec<i128> = Vec::new();
    let mut i: usize = 0;
    while i < b.nums.len()
        invariant
            i <= b.nums@.len(),
            nums@.len() == i,
            forall|j: int| 0 <= j < i ==> nums@[j] == b.nums@[j],
        decreases b.nums@.len() - i,
    {
        nums.push(b.nums[i]);
        i = i + 1;
    }
    let mut k: u64 = 0;
    while k < cut_terms
        invariant
            nums@.len() == b.nums@.len() == n + 1,
            n == deg,
            2 * (cut_terms as int) < n,
            top == (if n % 2 == 0 {
                n as int
            } else {
                n - 1
            }),
            k <= cut_terms,
            forall|j: int|
                0 <= j <= n ==> (#[trigger] nums@[j]) as int == (if (top - j) % 2 == 0 && top - 2
                    * k < j <= top {
                    0int
                } else {
                    b.nums_int()[j]
                }),
        decreases cut_terms - k,
    {
        let idx = top - 2 * (k as usize);
        nums.set(idx, 0);
        k = k + 1;
    }
    let t = ScaledCoeffs { scale: b.scale, nums };
    proof {
        assert forall|i2: int| 0 <= i2 < t.nums@.len() implies t.nums_int()[i2] == (if is_cut(
            deg,
            cut_terms as nat,
            i2,
        ) {
            0int
        } else {
            b.nums_int()[i2]
        }) by {
            assert(t.nums_int()[i2] == t.nums@.map_values(|v: i128| v as int)[i2]);
        };
    }
    t
}

/// Chebyshev economization of sinc: builds the Maclaurin coefficients up
/// to degree `n`, converts to the Chebyshev basis, zeroes the `cut_terms`
/// highest coefficients of the parity of `n`, and converts back.
///
/// Fails — without touching anything — when `2 * cut_terms >= n`: there
/// are then not enough spare degrees to cut.  Otherwise the result is the
/// economized coefficient vector over the scale `fact(n+1) * pow(2, n)`.
pub fn economize(n: u64, cut_terms: u64) -> (r: Result<ScaledCoeffs, EconomizeError>)
    requires
        2 <= n <= 12,
    ensures
        r is Err <==> 2 * (cut_terms as int) >= n,
        r matches Ok(c) ==> {
            &&& c.wf()
            &&& c.nums@.len() == n + 1
            &&& c.scale == fact((n + 1) as nat) * pow(2, n as nat)
            &&& c.nums_int() == econ_nums(n as nat, cut_terms as nat)
            &&& bounded(c.nums_int(), EVAL_COEFF_CAP as int)
            &&& c.scale <= EVAL_SCALE_CAP
        },
{
    if cut_terms >= n {
        return Err(EconomizeError::NotEnoughSpareDegrees);
    }
    if 2 * cut_terms >= n {
        return Err(EconomizeError::NotEnoughSpareDegrees);
    }
    let mac = maclaurin_coeffs(n);
    proof {
        lemma_fact_increases((n + 1) as nat, 20);
        lemma_fact_20();
    }
    let ch = monomial_to_chebyshev(&mac);
    proof {
        assert forall|i: int| 0 <= i < ch.nums_int().len() implies iabs(ch.nums_int()[i])
            <= INVERSE_INPUT_CAP as int by {
            lemma_fwd_dot_upto_bound(
                mac.nums_int(),
                n as nat,
                i,
                mac.nums_int().len() as int,
                fact((n + 1) as nat) as int,
            );
            lemma_fact_13();
            lemma_fact_increases((n + 1) as nat, 13);
            assert((n + 1) * (fact((n + 1) as nat) as int) * 0x200000 <= 13 * 6227020800
                * 0x200000) by (nonlinear_arith)
                requires
                    2 <= n <= 12,
                    0 <= fact((n + 1) as nat) <= 6227020800,
            ;
        };
    }
    let cut = truncate_chebyshev(&ch, cut_terms);
    proof {
        assert(bounded(cut.nums_int(), INVERSE_INPUT_CAP as int));
        // The sharper magnitude that actually flows out of the forward
        // conversion, for the bound on the final numerators.
        assert forall|i: int| 0 <= i < cut.nums_int().len() implies iabs(cut.nums_int()[i]) <= 13
            * 6227020800 * 0x200000 by {
            lemma_fwd_dot_upto_bound(
                mac.nums_int(),
                n as nat,
                i,
                mac.nums_int().len() as int,
                fact((n + 1) as nat) as int,
            );
            lemma_fact_13();
            lemma_fact_increases((n + 1) as nat, 13);
            assert((n + 1) * (fact((n + 1) as nat) as int) * 0x200000 <= 13 * 6227020800
                * 0x200000) by (nonlinear_arith)
                requires
                    2 <= n <= 12,
                    0 <= fact((n + 1) as nat) <= 6227020800,
            ;
        };
    }
    let res = chebyshev_to_monomial(&cut);
    proof {
        assert(cut.nums_int() =~= econ_cheb(n as nat, cut_terms as nat));
        assert(res.nums_int() =~= econ_nums(n as nat, cut_terms as nat));
        // The final numerators and the scale stay inside what `evaluate`
        // accepts, so an economized polynomial can be evaluated directly.
        assert forall|i: int| 0 <= i < res.nums_int().len() implies iabs(res.nums_int()[i])
            <= EVAL_COEFF_CAP as int by {
            lemma_inv_dot_upto_bound(
                cut.nums_int(),
                i,
                cut.nums_int().len() as int,
                13int * 6227020800 * 0x200000,
            );
            assert((n + 1) * (13 * 6227020800 * 0x200000int) * 3486784401 <= EVAL_COEFF_CAP as int)
                by (nonlinear_arith)
                requires
                    2 <= n <= 12,
            ;
        };
        lemma_fact_13();
        lemma_fact_increases((n + 1) as nat, 13);
        vstd::arithmetic::power::lemma_pow_increases(2, n as nat, 12);
        assert(pow(2, 12) == 4096) by {
            vstd::arithmetic::power::lemma_pow_positive(2, 12);
            vstd::arithmetic::power2::lemma2_to64();
            assert(vstd::arithmetic::power2::pow2(12) == 4096);
        }
        vstd::arithmetic::power::lemma_pow_positive(2, n as nat);
        assert((fact((n + 1) as nat) as int) * pow(2, n as nat) <= EVAL_SCALE_CAP as int)
            by (nonlinear_arith)
            requires
                0 <= fact((n + 1) as nat) <= 6227020800,
                0 < pow(2, n as nat) <= 4096,
        ;
    }
    Ok(res)
}

/// Degree reduction by economization: for an even degree `n`, every
/// monomial coefficient of the economized polynomial vanishes exactly at
/// every odd degree (sinc is even) and at every degree above
/// `n - 2 * cut_terms` (the cut Chebyshev terms carry away the top
/// degrees).  The result is an effectively degree-`(n - 2 * cut_terms)`
/// even polynomial.
pub proof fn lemma_economize_degree_reduction(n: nat, cut: nat, i: int)
    requires
        n % 2 == 0,
        2 <= n,
        2 * cut < n,
        0 <= i <= n,
        i % 2 == 1 || i > n - 2 * cut,
    ensures
        econ_nums(n, cut)[i] == 0,
{
    let b = econ_cheb(n, cut);
    assert forall|t: int| 0 <= t < b.len() implies b[t] == 0 || cheb_entry(t as nat, i as nat)
        == 0 by {
        if t % 2 == 1 {
            // An odd index is never cut (n is even), so b[t] is the forward
            // sum of the even-supported Maclaurin coefficients at an odd
            // output index, which vanishes.
            assert(!is_cut(n, cut, t));
            assert(forall|u: int| 0 <= u < mac_seq(n).len() && u % 2 == 1 ==> mac_seq(n)[u] == 0);
            crate::chebyshev::lemma_fwd_dot_zero_odd(mac_seq(n), n, t, mac_seq(n).len() as int);
        } else {
            if i % 2 == 1 {
                crate::chebyshev::lemma_cheb_entry_parity(t as nat, i as nat);
            } else if !is_cut(n, cut, t) {
                // t is even and not cut, so t <= n - 2 * cut < i, and a
                // Chebyshev polynomial has no terms above its own degree.
                assert(t < i);
                assert(cheb_entry(t as nat, i as nat) == 0);
            }
        }
    };
    crate::chebyshev::lemma_inv_dot_upto_zero(b, i, b.len() as int);
}

/// Determinism of the economizer: its contract pins the resulting scale
/// and numerators to functions of the degree and cut count alone, so two
/// runs on identical inputs yield identical results, bit for bit.  The
/// same holds of every operation of the library, each of whose results is
/// equated by its contract to a spec function of its inputs.
pub proof fn lemma_economize_deterministic(
    n: nat,
    cut: nat,
    scale1: int,
    nums1: Seq<int>,
    scale2: int,
    nums2: Seq<int>,
)
    requires
        scale1 == fact((n + 1) as nat) * pow(2, n),
        nums1 == econ_nums(n, cut),
        scale2 == fact((n + 1) as nat) * pow(2, n),
        nums2 == econ_nums(n, cut),
    ensures
        scale1 == scale2,
        nums1 == nums2,
{
}

} // verus!
