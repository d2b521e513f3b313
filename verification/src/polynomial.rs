//! Coefficient-vector representation and exact polynomial evaluation.
//!
//! A polynomial is a vector of integer numerators over one shared positive
//! scale: the coefficient of degree `i` is `nums[i] / scale`.  Evaluation
//! at a rational point `x_num / x_den` follows a Horner scheme from the
//! highest degree down, with the compensation used near values close to 1:
//! the constant term enters as `(c0 - 1)` and 1 is added back at the end.
//! In this exact arithmetic the compensation cancels identically; a
//! floating-point rendition of the same evaluation order suppresses
//! cancellation where the value is close to 1, which is why the order is
//! part of the contract.

use vstd::prelude::*;
use vstd::arithmetic::power::{
    pow, lemma_pow0, lemma_pow1, lemma_pow_adds, lemma_pow_positive, lemma_pow_increases,
};
use vstd::arithmetic::power2::{pow2, lemma2_to64};
use crate::arith::{iabs, bounded};

verus! {

/// Largest coefficient numerator magnitude `evaluate` accepts; keeps the
/// Horner accumulator inside `i128`.
pub const EVAL_COEFF_CAP: i128 = 0x40_00000000_00000000_00000000;

/// Largest scale `evaluate` accepts; keeps the result denominator inside
/// `i128`.
pub const EVAL_SCALE_CAP: i128 = 0x1_00000000_00000000_0000;

/// A polynomial held exactly: the coefficient of monomial degree `i` is
/// `nums[i] / scale`.
pub struct ScaledCoeffs {
    /// Shared positive denominator of every coefficient.
    pub scale: i128,
    /// Integer numerators, indexed by monomial degree.
    pub nums: Vec<i128>,
}

impl ScaledCoeffs {
    /// Well-formed: a positive scale and at least the constant term.
    pub open spec fn wf(&self) -> bool {
        &&& 1 <= self.scale
        &&& 1 <= self.nums@.len()
    }

    /// The numerators as mathematical integers.
    pub open spec fn nums_int(&self) -> Seq<int> {
        self.nums@.map_values(|v: i128| v as int)
    }

    /// Degree of the representation (the top index, whether or not its
    /// numerator is zero).
    pub open spec fn degree(&self) -> nat {
        (self.nums@.len() - 1) as nat
    }
}

/// Numerator of the value of the polynomial with numerators `c` at the
/// rational point `xn / xd`, over the denominator `pow(xd, c.len() - 1)`
/// (times the coefficient scale): the exact weighted sum
/// `sum_i c[i] * xn^i * xd^(len - 1 - i)`.
pub open spec fn eval_num(c: Seq<int>, xn: int, xd: int) -> int
    decreases c.len(),
{
    if c.len() == 0 {
        0
    } else {
        eval_num(c.subrange(1, c.len() as int), xn, xd) * xn + c[0] * pow(
            xd,
            (c.len() - 1) as nat,
        )
    }
}

/// At `x == 0` every x-dependent term of `eval_num` vanishes and the
/// evaluation collapses exactly to the constant term: the represented
/// value is `c[0] / scale`, whatever the other coefficients are.
pub proof fn lemma_eval_at_zero(c: Seq<int>, xd: int)
    requires
        c.len() >= 1,
    ensures
        eval_num(c, 0, xd) == c[0] * pow(xd, (c.len() - 1) as nat),
{
    assert(eval_num(c.subrange(1, c.len() as int), 0, xd) * 0 == 0);
}

/// Reverses a vector in place by swapping ends, as the Horner loop reads
/// coefficients from the highest degree down.
pub fn reverse(a: &mut Vec<i128>)
    ensures
        final(a)@.len() == old(a)@.len(),
        forall|i: int|
            0 <= i < final(a)@.len() ==> final(a)@[i] == old(a)@[final(a)@.len() - 1 - i],
{
    let n = a.len();
    let mut i: usize = 0;
    while i < n / 2
        invariant
            a@.len() == n,
            n == old(a)@.len(),
            i <= n / 2,
            forall|j: int|
                0 <= j < i ==> #[trigger] a@[j] == old(a)@[n - 1 - j] && a@[n - 1 - j] == old(
                    a,
                )@[j],
            forall|j: int| i <= j < n - i ==> a@[j] == old(a)@[j],
        decreases n / 2 - i,
    {
        let t1 = a[i];
        let t2 = a[n - 1 - i];
        a.set(i, t2);
        a.set(n - 1 - i, t1);
        i = i + 1;
    }
    proof {
        assert forall|k: int| 0 <= k < n implies a@[k] == old(a)@[n - 1 - k] by {
            if k < n / 2 {
            } else if n - 1 - k < n / 2 {
                let j = n - 1 - k;
                assert(a@[j] == old(a)@[n - 1 - j] && a@[n - 1 - j] == old(a)@[j]);
            } else {
                // middle element of an odd-length vector
                assert(k == n - 1 - k);
            }
        };
    }
}

/// The running power of the denominator advances by one step:
/// `p * xd == pow(xd, t)`, staying positive and at most `pow(2, t)`,
/// which is at most `pow(2, 20)` for the sizes the library admits.
proof fn horner_power_step(t: nat, xd: int, p: int)
    requires
        1 <= t <= 20,
        1 <= xd <= 2,
        p == pow(xd, (t - 1) as nat),
        1 <= p <= pow(2, (t - 1) as nat),
    ensures
        p * xd == pow(xd, t),
        1 <= p * xd <= pow(2, t),
        pow(2, t) <= 0x100000,
{
    lemma_pow_adds(xd, (t - 1) as nat, 1);
    lemma_pow1(xd);
    lemma_pow_adds(2, (t - 1) as nat, 1);
    lemma_pow1(2);
    lemma_pow_increases(2, t, 20);
    assert(pow(2, 20) == 0x100000) by {
        lemma_pow_positive(2, 20);
        lemma2_to64();
        assert(pow2(20) == 0x100000);
    }
    assert(1 <= p * xd <= pow(2, t)) by (nonlinear_arith)
        requires
            1 <= p <= pow(2, (t - 1) as nat),
            1 <= xd <= 2,
            pow(2, t) == pow(2, (t - 1) as nat) * 2,
    ;
}

/// Evaluates the polynomial at the rational point `x_num / x_den`,
/// returning the exact value as a fraction `(numerator, denominator)` with
/// denominator `scale * pow(x_den, degree)`.
///
/// The computation reverses the coefficients and accumulates from the
/// highest degree down; on the last step the constant term enters reduced
/// by 1 (that is, by `scale` in numerator terms) and 1 is added back at the
/// end, mirroring the compensated scheme.
pub fn evaluate(x_num: i128, x_den: i128, c: &ScaledCoeffs) -> (r: (i128, i128))
    requires
        c.wf(),
        c.nums@.len() <= 21,
        bounded(c.nums_int(), EVAL_COEFF_CAP as int),
        c.scale <= EVAL_SCALE_CAP,
        1 <= x_den <= 2,
        -x_den <= x_num <= x_den,
    ensures
        r.0 == eval_num(c.nums_int(), x_num as int, x_den as int),
        r.1 == c.scale * pow(x_den as int, c.degree()),
        1 <= r.1,
        x_num == 0 ==> r.0 * c.scale == c.nums_int()[0] * r.1,
{
    let ghost cs = c.nums_int();
    let ghost xn: int = x_num as int;
    let ghost xd: int = x_den as int;
    let ghost capi: int = EVAL_COEFF_CAP as int;
    let n = c.nums.len() - 1;
    proof {
        lemma_pow0(xd);
        lemma_pow0(2int);
    }
    if n == 0 {
        proof {
            assert(cs.subrange(1, 1).len() == 0);
            assert(eval_num(cs.subrange(1, 1), xn, xd) * xn == 0);
            assert(eval_num(cs, xn, xd) == cs[0] * pow(xd, 0));
            if x_num == 0 {
                assert(cs[0] * 1 * c.scale == cs[0] * (c.scale * 1)) by (nonlinear_arith);
            }
        }
        return (c.nums[0], c.scale);
    }
    // Copy the numerators and reverse them, highest degree first.
    let mut s: Vec<i128> = Vec::new();
    let mut idx: usize = 0;
    while idx < c.nums.len()
        invariant
            idx <= c.nums@.len(),
            s@.len() == idx,
            forall|j: int| 0 <= j < idx ==> s@[j] == c.nums@[j],
        decreases c.nums@.len() - idx,
    {
        s.push(c.nums[idx]);
        idx = idx + 1;
    }
    reverse(&mut s);
    let mut y: i128 = s[0];
    let mut p: i128 = 1;
    let mut t: usize = 1;
    proof {
        assert(cs.subrange(n as int, n + 1).len() == 1);
        assert(cs.subrange(n as int, n + 1)[0] == cs[n as int]);
        assert(cs.subrange(n as int, n + 1).subrange(1, 1).len() == 0);
        assert(eval_num(cs.subrange(n as int, n + 1).subrange(1, 1), xn, xd) * xn == 0);
        assert(eval_num(cs.subrange(n as int, n + 1), xn, xd) == cs[n as int] * pow(xd, 0));
        assert(iabs(cs[n as int]) <= capi);
        assert(1 * capi * 1 == capi) by (nonlinear_arith);
    }
    while t < n
        invariant
            1 <= t <= n,
            n + 1 == cs.len() == c.nums@.len(),
            n <= 20,
            cs == c.nums_int(),
            c.wf(),
            bounded(cs, capi),
            capi == EVAL_COEFF_CAP as int,
            xn == x_num as int,
            xd == x_den as int,
            1 <= x_den <= 2,
            -x_den <= x_num <= x_den,
            s@.len() == n + 1,
            forall|j: int| 0 <= j <= n ==> s@[j] == c.nums@[n - j],
            p == pow(xd, (t - 1) as nat),
            1 <= p <= pow(2, (t - 1) as nat),
            pow(2, (t - 1) as nat) <= 0x100000,
            y == eval_num(cs.subrange(n - t + 1, n + 1), xn, xd),
            iabs(y as int) <= t * capi * p,
        decreases n - t,
    {
        proof {
            horner_power_step(t as nat, xd, p as int);
            assert(iabs((y as int) * (x_num as int)) <= t * capi * (p * xd)) by (nonlinear_arith)
                requires
                    iabs(y as int) <= t * capi * (p as int),
                    iabs(xn) <= xd,
                    xn == x_num as int,
                    1 <= xd,
                    1 <= p,
                    t >= 1,
                    capi > 0,
            ;
            assert(t * capi * (p * xd) <= 20 * capi * 0x100000) by (nonlinear_arith)
                requires
                    1 <= t <= 20,
                    1 <= p * xd <= 0x100000,
                    capi > 0,
            ;
        }
        let p_new = p * x_den;
        proof {
            let term = cs[n - t] * (p_new as int);
            assert(iabs(term) <= capi * (p_new as int) && capi * (p_new as int) <= capi * 0x100000)
                by (nonlinear_arith)
                requires
                    iabs(cs[n - t]) <= capi,
                    term == cs[n - t] * (p_new as int),
                    1 <= p_new <= 0x100000,
                    capi > 0,
            ;
            assert(iabs((y as int) * (x_num as int) + term) <= (t + 1) * capi * (p_new as int))
                by (nonlinear_arith)
                requires
                    iabs((y as int) * (x_num as int)) <= t * capi * ((p as int) * (x_den as int)),
                    p_new == p * x_den,
                    iabs(term) <= capi * (p_new as int),
                    1 <= p_new,
            ;
            assert((t + 1) * capi * (p_new as int) <= 21 * capi * 0x100000) by (nonlinear_arith)
                requires
                    1 <= t <= 20,
                    1 <= p_new <= 0x100000,
                    capi > 0,
            ;
        }
        let y_new = y * x_num + s[t] * p_new;
        proof {
            let j = n - t;
            assert(cs.subrange(j, n + 1).subrange(1, n + 1 - j) =~= cs.subrange(j + 1, n + 1));
            assert(cs.subrange(j, n + 1)[0] == cs[j]);
            assert(cs.subrange(j, n + 1).len() - 1 == n - j);
            assert(eval_num(cs.subrange(j, n + 1), xn, xd) == eval_num(
                cs.subrange(j + 1, n + 1),
                xn,
                xd,
            ) * xn + cs[j] * pow(xd, (n - j) as nat));
            lemma_pow_increases(2, t as nat, 20);
            assert(pow(2, 20) == 0x100000) by {
                lemma_pow_positive(2, 20);
                lemma2_to64();
                assert(pow2(20) == 0x100000);
            }
        }
        y = y_new;
        p = p_new;
        t = t + 1;
    }
    // Final step: fold in the constant term reduced by 1 (by `scale` in
    // numerator terms), then add 1 back at the very end.
    proof {
        horner_power_step(n as nat, xd, p as int);
        assert(iabs((y as int) * (x_num as int)) <= n * capi * (p * xd)) by (nonlinear_arith)
            requires
                iabs(y as int) <= n * capi * (p as int),
                iabs(xn) <= xd,
                xn == x_num as int,
                1 <= xd,
                1 <= p,
                n >= 1,
                capi > 0,
        ;
        assert(n * capi * (p * xd) <= 20 * capi * 0x100000) by (nonlinear_arith)
            requires
                1 <= n <= 20,
                1 <= p * xd <= 0x100000,
                capi > 0,
        ;
    }
    let p_last = p * x_den;
    proof {
        let term0 = cs[0] * (p_last as int);
        assert(iabs(term0) <= capi * 0x100000) by (nonlinear_arith)
            requires
                iabs(cs[0]) <= capi,
                term0 == cs[0] * (p_last as int),
                1 <= p_last <= 0x100000,
                capi > 0,
        ;
        assert(1 <= c.scale * (p_last as int) <= (EVAL_SCALE_CAP as int) * 0x100000)
            by (nonlinear_arith)
            requires
                1 <= c.scale <= EVAL_SCALE_CAP as int,
                1 <= p_last <= 0x100000,
        ;
        assert((cs[0] - c.scale) * (p_last as int) == cs[0] * (p_last as int) - c.scale * (
        p_last as int)) by (nonlinear_arith);
    }
    let den = c.scale * p_last;
    let y_comp = y * x_num + (s[n] - c.scale) * p_last;
    let num = y_comp + den;
    proof {
        assert(s@[n as int] == c.nums@[0]);
        assert(cs.subrange(0, n + 1) =~= cs);
        assert(cs.subrange(0, n + 1).subrange(1, n + 1) =~= cs.subrange(1, n + 1));
        assert(eval_num(cs, xn, xd) == eval_num(cs.subrange(1, n + 1), xn, xd) * xn + cs[0] * pow(
            xd,
            n as nat,
        ));
        assert(y == eval_num(cs.subrange(1, n + 1), xn, xd));
        assert(num == eval_num(cs, xn, xd));
        if x_num == 0 {
            lemma_eval_at_zero(cs, xd);
            assert(cs[0] * pow(xd, n as nat) * c.scale == cs[0] * (c.scale * pow(xd, n as nat)))
                by (nonlinear_arith);
        }
    }
    (num, den)
}

} // verus!
