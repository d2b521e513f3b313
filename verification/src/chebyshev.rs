//! Basis conversion between monomial and Chebyshev coefficient
//! representations.
//!
//! Working on a degree-`nn` polynomial, both directions are triangular
//! linear maps with exactly representable entries once the right scale is
//! chosen:
//!
//! - forward (monomial to Chebyshev): the entry pairing monomial degree `r`
//!   with Chebyshev degree `r - 2k` is `binom(r, k) / pow(2, r - 1)`,
//!   halved when the Chebyshev degree is 0.  Multiplying every entry by
//!   `pow(2, nn)` makes it an integer, so the conversion multiplies the
//!   coefficient scale by `pow(2, nn)`.
//! - inverse (Chebyshev to monomial): the entries are the integer monomial
//!   coefficients of the Chebyshev polynomials themselves, built from the
//!   three-term recurrence `T_{n+1}(x) = 2x * T_n(x) - T_{n-1}(x)`; the
//!   scale is unchanged.

use vstd::prelude::*;
use vstd::arithmetic::power::{pow, lemma_pow1, lemma_pow_adds, lemma_pow_positive, lemma_pow_increases};
use crate::arith::{iabs, bounded, lemma_pow2_le_21};
use crate::combinatorics::{binom, binomial, lemma_binom_le_pow2};
use crate::polynomial::ScaledCoeffs;

verus! {

/// Largest magnitude a coefficient numerator may have on entry to the
/// forward conversion; keeps every intermediate product inside `i128`.
pub const FORWARD_INPUT_CAP: i128 = 0x1_00000000_00000000_00000000;

/// Largest magnitude a coefficient numerator may have on entry to the
/// inverse conversion, whose table entries grow up to `pow(3, 20)`.
pub const INVERSE_INPUT_CAP: i128 = 0x10000_00000000_00000000;

/// Largest scale a coefficient vector may have on entry to the forward
/// conversion, which multiplies the scale by `pow(2, nn)`.
pub const FORWARD_SCALE_CAP: i128 = 0x1_00000000_00000000_00000000;

/// Entry of the forward (monomial to Chebyshev) conversion table for top
/// degree `nn`, scaled by `pow(2, nn)`: row `r` is the monomial degree,
/// column `c` the Chebyshev degree.
pub open spec fn fwd_entry(nn: nat, r: nat, c: nat) -> int {
    if r > nn || c > r || (r - c) % 2 != 0 {
        0
    } else if c == 0 {
        binom(r, r / 2) * pow(2, (nn - r) as nat)
    } else {
        binom(r, ((r - c) / 2) as nat) * pow(2, (nn - r + 1) as nat)
    }
}

/// Monomial coefficient of degree `c` of the Chebyshev polynomial `T_r`.
pub open spec fn cheb_entry(r: nat, c: nat) -> int
    decreases r,
{
    if c > r {
        0
    } else if r == 0 {
        1
    } else if r == 1 {
        if c == 1 {
            1
        } else {
            0
        }
    } else {
        2 * (if c >= 1 {
            cheb_entry((r - 1) as nat, (c - 1) as nat)
        } else {
            0
        }) - cheb_entry((r - 2) as nat, c)
    }
}

/// A forward entry pairing degrees of unlike parity is zero.
pub proof fn lemma_fwd_entry_parity(nn: nat, r: nat, c: nat)
    requires
        (r + c) % 2 == 1,
    ensures
        fwd_entry(nn, r, c) == 0,
{
}

/// A Chebyshev polynomial has monomial terms only at degrees of its own
/// parity.
pub proof fn lemma_cheb_entry_parity(r: nat, c: nat)
    requires
        (r + c) % 2 == 1,
    ensures
        cheb_entry(r, c) == 0,
    decreases r,
{
    if c > r || r == 0 || r == 1 {
    } else {
        if c >= 1 {
            lemma_cheb_entry_parity((r - 1) as nat, (c - 1) as nat);
        }
        lemma_cheb_entry_parity((r - 2) as nat, c);
    }
}

/// Scaled forward entries are bounded by `pow(2, 21)` for `nn <= 20`.
pub proof fn lemma_fwd_entry_bound(nn: nat, r: nat, c: nat)
    requires
        nn <= 20,
    ensures
        0 <= fwd_entry(nn, r, c) <= 0x200000,
{
    if r > nn || c > r || (r - c) % 2 != 0 {
    } else if c == 0 {
        lemma_binom_le_pow2(r, r / 2);
        lemma_pow_positive(2, (nn - r) as nat);
        lemma_pow_adds(2, r, (nn - r) as nat);
        assert(binom(r, r / 2) * pow(2, (nn - r) as nat) <= pow(2, r) * pow(2, (nn - r) as nat))
            by (nonlinear_arith)
            requires
                binom(r, r / 2) <= pow(2, r),
                pow(2, (nn - r) as nat) > 0,
        ;
        lemma_pow2_le_21(nn);
        assert(binom(r, r / 2) * pow(2, (nn - r) as nat) >= 0) by (nonlinear_arith)
            requires
                binom(r, r / 2) >= 0,
                pow(2, (nn - r) as nat) > 0,
        ;
    } else {
        lemma_binom_le_pow2(r, ((r - c) / 2) as nat);
        lemma_pow_positive(2, (nn - r + 1) as nat);
        lemma_pow_adds(2, r, (nn - r + 1) as nat);
        assert(binom(r, ((r - c) / 2) as nat) * pow(2, (nn - r + 1) as nat)
            <= pow(2, r) * pow(2, (nn - r + 1) as nat)) by (nonlinear_arith)
            requires
                binom(r, ((r - c) / 2) as nat) <= pow(2, r),
                pow(2, (nn - r + 1) as nat) > 0,
        ;
        lemma_pow2_le_21((nn + 1) as nat);
        assert(binom(r, ((r - c) / 2) as nat) * pow(2, (nn - r + 1) as nat) >= 0)
            by (nonlinear_arith)
            requires
                binom(r, ((r - c) / 2) as nat) >= 0,
                pow(2, (nn - r + 1) as nat) > 0,
        ;
    }
}

/// The concrete value of `pow(3, 20)`.
pub proof fn lemma_pow3_20()
    ensures
        pow(3, 20) == 3486784401,
{
    reveal_with_fuel(pow, 21);
}

/// Chebyshev coefficients on row `r` are bounded by `pow(3, r)`.
pub proof fn lemma_cheb_entry_bound(r: nat, c: nat)
    ensures
        iabs(cheb_entry(r, c)) <= pow(3, r),
    decreases r,
{
    lemma_pow_positive(3, r);
    if c > r || r == 0 || r == 1 {
        lemma_pow_positive(3, r);
        if r == 1 {
            lemma_pow1(3);
        }
    } else {
        let e1 = if c >= 1 {
            cheb_entry((r - 1) as nat, (c - 1) as nat)
        } else {
            0
        };
        let e2 = cheb_entry((r - 2) as nat, c);
        if c >= 1 {
            lemma_cheb_entry_bound((r - 1) as nat, (c - 1) as nat);
        }
        lemma_cheb_entry_bound((r - 2) as nat, c);
        lemma_pow_increases(3, (r - 2) as nat, (r - 1) as nat);
        lemma_pow_adds(3, (r - 1) as nat, 1);
        lemma_pow1(3);
        assert(pow(3, r) == pow(3, (r - 1) as nat) * 3);
        assert(iabs(2 * e1 - e2) <= pow(3, r)) by (nonlinear_arith)
            requires
                iabs(e1) <= pow(3, (r - 1) as nat),
                iabs(e2) <= pow(3, (r - 1) as nat),
                pow(3, r) == pow(3, (r - 1) as nat) * 3,
                pow(3, (r - 1) as nat) > 0,
        ;
    }
}

/// `pow(3, r)` is at most `pow(3, 20)` for the rows the library uses.
pub proof fn lemma_pow3_le_20(e: nat)
    requires
        e <= 20,
    ensures
        0 < pow(3, e) <= 3486784401,
{
    lemma_pow_positive(3, e);
    lemma_pow_increases(3, e, 20);
    lemma_pow3_20();
}

/// Builds the scaled forward conversion table for top degree `nn`:
/// entry `[r][c]` is `fwd_entry(nn, r, c)`.
pub fn build_forward_table(nn: usize) -> (t: Vec<Vec<i128>>)
    requires
        1 <= nn <= 20,
    ensures
        t@.len() == nn + 1,
        forall|r: int| 0 <= r <= nn ==> (#[trigger] t@[r])@.len() == nn + 1,
        forall|r: int, c: int|
            0 <= r <= nn && 0 <= c <= nn ==> #[trigger] t@[r]@[c] == fwd_entry(
                nn as nat,
                r as nat,
                c as nat,
            ),
{
    let mut t: Vec<Vec<i128>> = Vec::new();
    let mut n: usize = 0;
    while n <= nn
        invariant
            1 <= nn <= 20,
            n <= nn + 1,
            t@.len() == n,
            forall|r: int| 0 <= r < n ==> (#[trigger] t@[r])@.len() == nn + 1,
            forall|r: int, c: int|
                0 <= r < n && 0 <= c <= nn ==> #[trigger] t@[r]@[c] == fwd_entry(
                    nn as nat,
                    r as nat,
                    c as nat,
                ),
        decreases nn + 1 - n,
    {
        let mut row: Vec<i128> = Vec::new();
        let mut z: usize = 0;
        while z <= nn
            invariant
                nn <= 20,
                z <= nn + 1,
                row@.len() == z,
                forall|c: int| 0 <= c < z ==> row@[c] == 0,
            decreases nn + 1 - z,
        {
            row.push(0);
            z = z + 1;
        }
        // Fill the cells of row `n` that carry a nonzero entry: Chebyshev
        // degrees n, n - 2, ..., down to 0 or 1.
        let mut k: usize = 0;
        while k <= n / 2
            invariant
                1 <= nn <= 20,
                n <= nn,
                k <= n / 2 + 1,
                row@.len() == nn + 1,
                forall|c: int|
                    0 <= c <= nn ==> row@[c] == (if (n - c) % 2 == 0 && n - 2 * k < c <= n {
                        fwd_entry(nn as nat, n as nat, c as nat)
                    } else {
                        0
                    }),
            decreases n / 2 - k + 1,
        {
            let index = n - 2 * k;
            let b = binomial(n as u64, k as u64);
            proof {
                lemma_binom_le_pow2(n as nat, k as nat);
                lemma_pow2_le_21(n as nat);
                lemma_pow2_le_21((nn - n + 1) as nat);
            }
            let e: i128 = if index == 0 {
                let p = crate::arith::pow2i((nn - n) as u64);
                proof {
                    lemma_pow2_le_21((nn - n) as nat);
                    assert((b as i128) * p <= 0x200000 * 0x200000) by (nonlinear_arith)
                        requires
                            0 <= b as i128 <= 0x200000,
                            0 <= p <= 0x200000,
                    ;
                    assert((b as i128) * p >= 0) by (nonlinear_arith)
                        requires
                            0 <= b as i128,
                            0 <= p,
                    ;
                }
                (b as i128) * p
            } else {
                let p = crate::arith::pow2i((nn - n + 1) as u64);
                proof {
                    assert((b as i128) * p <= 0x200000 * 0x200000) by (nonlinear_arith)
                        requires
                            0 <= b as i128 <= 0x200000,
                            0 <= p <= 0x200000,
                    ;
                    assert((b as i128) * p >= 0) by (nonlinear_arith)
                        requires
                            0 <= b as i128,
                            0 <= p,
                    ;
                }
                (b as i128) * p
            };
            proof {
                assert(e == fwd_entry(nn as nat, n as nat, index as nat)) by {
                    assert((n - index) % 2 == 0);
                    assert(((n - index) / 2) as nat == k as nat);
                    if index == 0 {
                        assert(n / 2 == k);
                    }
                };
            }
            row.set(index, e);
            k = k + 1;
        }
        proof {
            assert forall|c: int| 0 <= c <= nn implies row@[c] == fwd_entry(
                nn as nat,
                n as nat,
                c as nat,
            ) by {
                if (n - c) % 2 == 0 && n - 2 * (n / 2 + 1) < c <= n {
                } else {
                    assert(fwd_entry(nn as nat, n as nat, c as nat) == 0) by {
                        if c > n {
                        } else if (n - c) % 2 != 0 {
                            assert((n as nat + c as nat) % 2 == 1);
                            lemma_fwd_entry_parity(nn as nat, n as nat, c as nat);
                        }
                    };
                }
            };
        }
        t.push(row);
        n = n + 1;
    }
    t
}

/// Builds the inverse conversion table: entry `[r][c]` is the degree-`c`
/// monomial coefficient of `T_r`, by the three-term recurrence.
pub fn build_inverse_table(nn: usize) -> (t: Vec<Vec<i128>>)
    requires
        1 <= nn <= 20,
    ensures
        t@.len() == nn + 1,
        forall|r: int| 0 <= r <= nn ==> (#[trigger] t@[r])@.len() == nn + 1,
        forall|r: int, c: int|
            0 <= r <= nn && 0 <= c <= nn ==> #[trigger] t@[r]@[c] == cheb_entry(
                r as nat,
                c as nat,
            ),
{
    let mut t: Vec<Vec<i128>> = Vec::new();
    let mut n: usize = 0;
    while n <= nn
        invariant
            1 <= nn <= 20,
            n <= nn + 1,
            t@.len() == n,
            forall|r: int| 0 <= r < n ==> (#[trigger] t@[r])@.len() == nn + 1,
            forall|r: int, c: int|
                0 <= r < n && 0 <= c <= nn ==> #[trigger] t@[r]@[c] == cheb_entry(
                    r as nat,
                    c as nat,
                ),
        decreases nn + 1 - n,
    {
        let mut row: Vec<i128> = Vec::new();
        let mut c: usize = 0;
        while c <= nn
            invariant
                1 <= nn <= 20,
                n <= nn,
                c <= nn + 1,
                row@.len() == c,
                t@.len() == n,
                forall|r: int| 0 <= r < n ==> (#[trigger] t@[r])@.len() == nn + 1,
                forall|r: int, cc: int|
                    0 <= r < n && 0 <= cc <= nn ==> #[trigger] t@[r]@[cc] == cheb_entry(
                        r as nat,
                        cc as nat,
                    ),
                forall|cc: int| 0 <= cc < c ==> row@[cc] == cheb_entry(n as nat, cc as nat),
            decreases nn + 1 - c,
        {
            let e: i128 = if n == 0 {
                if c == 0 {
                    1
                } else {
                    0
                }
            } else if n == 1 {
                if c == 1 {
                    1
                } else {
                    0
                }
            } else {
                let prev = if c >= 1 {
                    t[n - 1][c - 1]
                } else {
                    0
                };
                let prev2 = t[n - 2][c];
                proof {
                    if c >= 1 {
                        lemma_cheb_entry_bound((n - 1) as nat, (c - 1) as nat);
                        lemma_pow3_le_20((n - 1) as nat);
                    }
                    lemma_cheb_entry_bound((n - 2) as nat, c as nat);
                    lemma_pow3_le_20((n - 2) as nat);
                }
                2 * prev - prev2
            };
            proof {
                if n >= 2 && c > n {
                    assert(cheb_entry((n - 1) as nat, (c - 1) as nat) == 0);
                    assert(cheb_entry((n - 2) as nat, c as nat) == 0);
                }
            }
            row.push(e);
            c = c + 1;
        }
        t.push(row);
        n = n + 1;
    }
    t
}

/// Partial weighted sum of the forward map for output index `i`: the
/// contributions of source coefficients `a[0], ..., a[j-1]`.
pub open spec fn fwd_dot_upto(a: Seq<int>, nn: nat, i: int, j: int) -> int
    decreases j,
{
    if j <= 0 {
        0
    } else {
        fwd_dot_upto(a, nn, i, j - 1) + a[j - 1] * fwd_entry(nn, (j - 1) as nat, i as nat)
    }
}

/// Scaled Chebyshev coefficient `i` of the polynomial with monomial
/// numerators `a`: the full weighted sum over every source coefficient.
pub open spec fn fwd_dot(a: Seq<int>, nn: nat, i: int) -> int {
    fwd_dot_upto(a, nn, i, a.len() as int)
}

/// Partial weighted sum of the inverse map for output index `i`.
pub open spec fn inv_dot_upto(b: Seq<int>, i: int, j: int) -> int
    decreases j,
{
    if j <= 0 {
        0
    } else {
        inv_dot_upto(b, i, j - 1) + b[j - 1] * cheb_entry((j - 1) as nat, i as nat)
    }
}

/// Monomial numerator `i` of the polynomial with Chebyshev numerators `b`.
pub open spec fn inv_dot(b: Seq<int>, i: int) -> int {
    inv_dot_upto(b, i, b.len() as int)
}

/// Source coefficients below the output index contribute nothing: both
/// tables are lower triangular.
pub proof fn lemma_fwd_dot_prefix_zero(a: Seq<int>, nn: nat, i: int, j: int)
    requires
        0 <= j <= i,
    ensures
        fwd_dot_upto(a, nn, i, j) == 0,
    decreases j,
{
    if j > 0 {
        lemma_fwd_dot_prefix_zero(a, nn, i, j - 1);
        assert(fwd_entry(nn, (j - 1) as nat, i as nat) == 0);
        assert(a[j - 1] * 0 == 0);
    }
}

/// Source coefficients below the output index contribute nothing to the
/// inverse map either.
pub proof fn lemma_inv_dot_prefix_zero(b: Seq<int>, i: int, j: int)
    requires
        0 <= j <= i,
    ensures
        inv_dot_upto(b, i, j) == 0,
    decreases j,
{
    if j > 0 {
        lemma_inv_dot_prefix_zero(b, i, j - 1);
        assert(cheb_entry((j - 1) as nat, i as nat) == 0);
        assert(b[j - 1] * 0 == 0);
    }
}

/// A forward sum at an odd output index over coefficients supported only
/// on even indices vanishes: every term pairs a zero coefficient or a
/// parity-zero table entry.
pub proof fn lemma_fwd_dot_zero_odd(a: Seq<int>, nn: nat, i: int, j: int)
    requires
        0 <= i,
        i % 2 == 1,
        0 <= j <= a.len(),
        forall|t: int| 0 <= t < a.len() && t % 2 == 1 ==> a[t] == 0,
    ensures
        fwd_dot_upto(a, nn, i, j) == 0,
    decreases j,
{
    if j > 0 {
        lemma_fwd_dot_zero_odd(a, nn, i, j - 1);
        if (j - 1) % 2 == 1 {
            assert(a[j - 1] == 0);
        } else {
            lemma_fwd_entry_parity(nn, (j - 1) as nat, i as nat);
            assert(a[j - 1] * 0 == 0);
        }
    }
}

/// An inverse sum vanishes when every source index carries a zero
/// coefficient or a zero table entry.
pub proof fn lemma_inv_dot_upto_zero(b: Seq<int>, i: int, j: int)
    requires
        0 <= i,
        0 <= j <= b.len(),
        forall|t: int| 0 <= t < j ==> b[t] == 0 || cheb_entry(t as nat, i as nat) == 0,
    ensures
        inv_dot_upto(b, i, j) == 0,
    decreases j,
{
    if j > 0 {
        lemma_inv_dot_upto_zero(b, i, j - 1);
        assert(b[j - 1] == 0 || cheb_entry((j - 1) as nat, i as nat) == 0);
        assert(b[j - 1] * cheb_entry((j - 1) as nat, i as nat) == 0) by (nonlinear_arith)
            requires
                b[j - 1] == 0 || cheb_entry((j - 1) as nat, i as nat) == 0,
        ;
    }
}

/// Magnitude of a partial forward sum: at most one scaled table entry per
/// source coefficient.
pub proof fn lemma_fwd_dot_upto_bound(a: Seq<int>, nn: nat, i: int, j: int, cap: int)
    requires
        nn <= 20,
        0 <= i,
        0 <= j <= a.len(),
        cap >= 0,
        bounded(a, cap),
    ensures
        iabs(fwd_dot_upto(a, nn, i, j)) <= j * cap * 0x200000,
    decreases j,
{
    if j > 0 {
        lemma_fwd_dot_upto_bound(a, nn, i, j - 1, cap);
        lemma_fwd_entry_bound(nn, (j - 1) as nat, i as nat);
        assert(iabs(fwd_dot_upto(a, nn, i, j - 1) + a[j - 1] * fwd_entry(nn, (j - 1) as nat, i as nat))
            <= j * cap * 0x200000) by (nonlinear_arith)
            requires
                iabs(fwd_dot_upto(a, nn, i, j - 1)) <= (j - 1) * cap * 0x200000,
                iabs(a[j - 1]) <= cap,
                0 <= fwd_entry(nn, (j - 1) as nat, i as nat) <= 0x200000,
                cap >= 0,
        ;
    } else {
        assert(0 * cap * 0x200000 == 0) by (nonlinear_arith);
    }
}

/// Magnitude of a partial inverse sum: at most `pow(3, 20)` per source
/// coefficient.
pub proof fn lemma_inv_dot_upto_bound(b: Seq<int>, i: int, j: int, cap: int)
    requires
        0 <= i,
        0 <= j <= b.len(),
        b.len() <= 21,
        cap >= 0,
        bounded(b, cap),
    ensures
        iabs(inv_dot_upto(b, i, j)) <= j * cap * 3486784401,
    decreases j,
{
    if j > 0 {
        lemma_inv_dot_upto_bound(b, i, j - 1, cap);
        lemma_cheb_entry_bound((j - 1) as nat, i as nat);
        lemma_pow3_le_20((j - 1) as nat);
        assert(iabs(inv_dot_upto(b, i, j - 1) + b[j - 1] * cheb_entry((j - 1) as nat, i as nat))
            <= j * cap * 3486784401) by (nonlinear_arith)
            requires
                iabs(inv_dot_upto(b, i, j - 1)) <= (j - 1) * cap * 3486784401,
                iabs(b[j - 1]) <= cap,
                iabs(cheb_entry((j - 1) as nat, i as nat)) <= 3486784401,
                cap >= 0,
        ;
    } else {
        assert(0 * cap * 3486784401 == 0) by (nonlinear_arith);
    }
}

/// Converts monomial coefficients to Chebyshev coefficients.
///
/// The returned vector represents the same polynomial in the Chebyshev
/// basis: output numerator `i` is the weighted sum `fwd_dot` of the input
/// numerators, and the scale grows by `pow(2, degree)` so that every entry
/// of the triangular map is an integer.
pub fn monomial_to_chebyshev(a: &ScaledCoeffs) -> (b: ScaledCoeffs)
    requires
        a.wf(),
        2 <= a.nums@.len() <= 21,
        bounded(a.nums_int(), FORWARD_INPUT_CAP as int),
        a.scale <= FORWARD_SCALE_CAP,
    ensures
        b.wf(),
        b.nums@.len() == a.nums@.len(),
        b.scale == a.scale * pow(2, a.degree()),
        forall|i: int|
            0 <= i < b.nums@.len() ==> b.nums_int()[i] == fwd_dot(a.nums_int(), a.degree(), i),
{
    let ghost cs = a.nums_int();
    let ghost capi: int = FORWARD_INPUT_CAP as int;
    let nn = a.nums.len() - 1;
    let tbl = build_forward_table(nn);
    let mut out: Vec<i128> = Vec::new();
    let mut i: usize = 0;
    while i <= nn
        invariant
            1 <= nn <= 20,
            nn + 1 == cs.len() == a.nums@.len(),
            cs == a.nums_int(),
            bounded(cs, capi),
            capi == FORWARD_INPUT_CAP as int,
            i <= nn + 1,
            out@.len() == i,
            tbl@.len() == nn + 1,
            forall|r: int| 0 <= r <= nn ==> (#[trigger] tbl@[r])@.len() == nn + 1,
            forall|r: int, c: int|
                0 <= r <= nn && 0 <= c <= nn ==> #[trigger] tbl@[r]@[c] == fwd_entry(
                    nn as nat,
                    r as nat,
                    c as nat,
                ),
            forall|q: int| 0 <= q < i ==> out@[q] == fwd_dot(cs, nn as nat, q),
        decreases nn + 1 - i,
    {
        let mut acc: i128 = 0;
        let mut j: usize = i;
        proof {
            lemma_fwd_dot_prefix_zero(cs, nn as nat, i as int, i as int);
        }
        while j <= nn
            invariant
                1 <= nn <= 20,
                nn + 1 == cs.len() == a.nums@.len(),
                cs == a.nums_int(),
                bounded(cs, capi),
                capi == FORWARD_INPUT_CAP as int,
                i <= nn,
                i <= j <= nn + 1,
                tbl@.len() == nn + 1,
                forall|r: int| 0 <= r <= nn ==> (#[trigger] tbl@[r])@.len() == nn + 1,
                forall|r: int, c: int|
                    0 <= r <= nn && 0 <= c <= nn ==> #[trigger] tbl@[r]@[c] == fwd_entry(
                        nn as nat,
                        r as nat,
                        c as nat,
                    ),
                acc == fwd_dot_upto(cs, nn as nat, i as int, j as int),
            decreases nn + 1 - j,
        {
            proof {
                lemma_fwd_dot_upto_bound(cs, nn as nat, i as int, j as int, capi);
                assert(j * capi * 0x200000 <= 21 * capi * 0x200000) by (nonlinear_arith)
                    requires
                        0 <= j <= 21,
                        capi > 0,
                ;
                lemma_fwd_entry_bound(nn as nat, j as nat, i as nat);
                assert(iabs(cs[j as int] * fwd_entry(nn as nat, j as nat, i as nat)) <= capi
                    * 0x200000) by (nonlinear_arith)
                    requires
                        iabs(cs[j as int]) <= capi,
                        0 <= fwd_entry(nn as nat, j as nat, i as nat) <= 0x200000,
                        capi > 0,
                ;
            }
            acc = acc + a.nums[j] * tbl[j][i];
            j = j + 1;
        }
        out.push(acc);
        i = i + 1;
    }
    let p = crate::arith::pow2i(nn as u64);
    proof {
        crate::arith::lemma_pow2_le_21(nn as nat);
        assert(1 <= a.scale * p <= (FORWARD_SCALE_CAP as int) * 0x200000) by (nonlinear_arith)
            requires
                1 <= a.scale <= FORWARD_SCALE_CAP as int,
                1 <= p <= 0x200000,
        ;
    }
    let scale = a.scale * p;
    ScaledCoeffs { scale, nums: out }
}

/// Converts Chebyshev coefficients back to monomial coefficients.
///
/// The table entries are the integer monomial coefficients of the
/// Chebyshev polynomials, so the scale is unchanged: output numerator `i`
/// is the weighted sum `inv_dot` of the input numerators.
pub fn chebyshev_to_monomial(b: &ScaledCoeffs) -> (a: ScaledCoeffs)
    requires
        b.wf(),
        2 <= b.nums@.len() <= 21,
        bounded(b.nums_int(), INVERSE_INPUT_CAP as int),
    ensures
        a.wf(),
        a.nums@.len() == b.nums@.len(),
        a.scale == b.scale,
        forall|i: int| 0 <= i < a.nums@.len() ==> a.nums_int()[i] == inv_dot(b.nums_int(), i),
{
    let ghost cs = b.nums_int();
    let ghost capi: int = INVERSE_INPUT_CAP as int;
    let nn = b.nums.len() - 1;
    let tbl = build_inverse_table(nn);
    let mut out: Vec<i128> = Vec::new();
    let mut i: usize = 0;
    while i <= nn
        invariant
            1 <= nn <= 20,
            nn + 1 == cs.len() == b.nums@.len(),
            cs == b.nums_int(),
            bounded(cs, capi),
            capi == INVERSE_INPUT_CAP as int,
            i <= nn + 1,
            out@.len() == i,
            tbl@.len() == nn + 1,
            forall|r: int| 0 <= r <= nn ==> (#[trigger] tbl@[r])@.len() == nn + 1,
            forall|r: int, c: int|
                0 <= r <= nn && 0 <= c <= nn ==> #[trigger] tbl@[r]@[c] == cheb_entry(
                    r as nat,
                    c as nat,
                ),
            forall|q: int| 0 <= q < i ==> out@[q] == inv_dot(cs, q),
        decreases nn + 1 - i,
    {
        let mut acc: i128 = 0;
        let mut j: usize = i;
        proof {
            lemma_inv_dot_prefix_zero(cs, i as int, i as int);
        }
        while j <= nn
            invariant
                1 <= nn <= 20,
                nn + 1 == cs.len() == b.nums@.len(),
                cs == b.nums_int(),
                bounded(cs, capi),
                capi == INVERSE_INPUT_CAP as int,
                i <= nn,
                i <= j <= nn + 1,
                tbl@.len() == nn + 1,
                forall|r: int| 0 <= r <= nn ==> (#[trigger] tbl@[r])@.len() == nn + 1,
                forall|r: int, c: int|
                    0 <= r <= nn && 0 <= c <= nn ==> #[trigger] tbl@[r]@[c] == cheb_entry(
                        r as nat,
                        c as nat,
                    ),
                acc == inv_dot_upto(cs, i as int, j as int),
            decreases nn + 1 - j,
        {
            proof {
                lemma_inv_dot_upto_bound(cs, i as int, j as int, capi);
                assert(j * capi * 3486784401 <= 21 * capi * 3486784401) by (nonlinear_arith)
                    requires
                        0 <= j <= 21,
                        capi > 0,
                ;
                lemma_cheb_entry_bound(j as nat, i as nat);
                lemma_pow3_le_20(j as nat);
                assert(iabs(cs[j as int] * cheb_entry(j as nat, i as nat)) <= capi * 3486784401)
                    by (nonlinear_arith)
                    requires
                        iabs(cs[j as int]) <= capi,
                        iabs(cheb_entry(j as nat, i as nat)) <= 3486784401,
                        capi > 0,
                ;
            }
            acc = acc + b.nums[j] * tbl[j][i];
            j = j + 1;
        }
        out.push(acc);
        i = i + 1;
    }
    ScaledCoeffs { scale: b.scale, nums: out }
}

} // verus!
