//! Factorials and binomial coefficients.
//!
//! The conversion table between the monomial and Chebyshev bases is built
//! from binomial coefficients, and the Maclaurin series of sinc from
//! factorials.  Both are computed exactly on machine integers, against
//! recursive mathematical definitions.

use vstd::prelude::*;
use vstd::arithmetic::power::{pow, lemma_pow0, lemma_pow_adds, lemma_pow_positive};
use vstd::arithmetic::div_mod::lemma_div_by_multiple;

verus! {

/// Mathematical factorial.
pub open spec fn fact(n: nat) -> nat
    decreases n,
{
    if n == 0 {
        1
    } else {
        n * fact((n - 1) as nat)
    }
}

/// Mathematical binomial coefficient, by Pascal's rule.
pub open spec fn binom(n: nat, k: nat) -> nat
    decreases n,
{
    if k == 0 {
        1
    } else if k > n {
        0
    } else {
        binom((n - 1) as nat, (k - 1) as nat) + binom((n - 1) as nat, k)
    }
}

/// Factorials are positive.
pub proof fn lemma_fact_pos(n: nat)
    ensures
        fact(n) >= 1,
    decreases n,
{
    if n > 0 {
        lemma_fact_pos((n - 1) as nat);
        assert(n * fact((n - 1) as nat) >= 1) by (nonlinear_arith)
            requires
                n >= 1,
                fact((n - 1) as nat) >= 1,
        ;
    }
}

/// Factorials are monotone.
pub proof fn lemma_fact_increases(m: nat, n: nat)
    requires
        m <= n,
    ensures
        fact(m) <= fact(n),
    decreases n,
{
    if m < n {
        lemma_fact_increases(m, (n - 1) as nat);
        lemma_fact_pos((n - 1) as nat);
        assert(fact(n) == n * fact((n - 1) as nat));
        assert(n * fact((n - 1) as nat) >= 1 * fact((n - 1) as nat)) by (nonlinear_arith)
            requires
                n >= 1,
                fact((n - 1) as nat) >= 1,
        ;
    }
}

/// The concrete value of `fact(20)`; the largest factorial the library
/// computes, still below `u64::MAX`.
pub proof fn lemma_fact_20()
    ensures
        fact(20) == 2432902008176640000,
{
    reveal_with_fuel(fact, 21);
}

/// The concrete value of `fact(13)`, the largest scale factor the
/// economizer's Maclaurin series uses.
pub proof fn lemma_fact_13()
    ensures
        fact(13) == 6227020800,
{
    reveal_with_fuel(fact, 14);
}

/// Product of the integers from `lo + 1` up to `hi`: the exact quotient
/// `fact(hi) / fact(lo)`.
pub open spec fn fact_ratio(lo: nat, hi: nat) -> nat
    decreases hi,
{
    if hi <= lo {
        1
    } else {
        hi * fact_ratio(lo, (hi - 1) as nat)
    }
}

/// `fact_ratio(lo, hi) * fact(lo) == fact(hi)`.
pub proof fn lemma_fact_ratio_fact(lo: nat, hi: nat)
    requires
        lo <= hi,
    ensures
        (fact_ratio(lo, hi) as int) * (fact(lo) as int) == fact(hi) as int,
    decreases hi,
{
    if hi <= lo {
        assert(fact_ratio(lo, hi) == 1);
        assert(lo == hi);
        assert((fact_ratio(lo, hi) as int) * (fact(lo) as int) == fact(hi) as int)
            by (nonlinear_arith)
            requires
                fact_ratio(lo, hi) == 1,
                fact(lo) == fact(hi),
        ;
    } else {
        lemma_fact_ratio_fact(lo, (hi - 1) as nat);
        assert(fact_ratio(lo, hi) == hi * fact_ratio(lo, (hi - 1) as nat));
        assert(fact(hi) == hi * fact((hi - 1) as nat));
        assert((fact_ratio(lo, hi) as int) * (fact(lo) as int) == fact(hi) as int)
            by (nonlinear_arith)
            requires
                (fact_ratio(lo, (hi - 1) as nat) as int) * (fact(lo) as int) == fact(
                    (hi - 1) as nat,
                ) as int,
                fact_ratio(lo, hi) == hi * fact_ratio(lo, (hi - 1) as nat),
                fact(hi) == hi * fact((hi - 1) as nat),
        ;
    }
}

/// A factorial ratio is positive and at most the full factorial.
pub proof fn lemma_fact_ratio_le_fact(lo: nat, hi: nat)
    requires
        lo <= hi,
    ensures
        1 <= fact_ratio(lo, hi) <= fact(hi),
{
    lemma_fact_ratio_fact(lo, hi);
    lemma_fact_pos(lo);
    lemma_fact_pos(hi);
    assert(1 <= fact_ratio(lo, hi) && fact_ratio(lo, hi) <= fact(hi)) by (nonlinear_arith)
        requires
            (fact_ratio(lo, hi) as int) * (fact(lo) as int) == fact(hi) as int,
            fact(lo) >= 1,
            fact(hi) >= 1,
            fact_ratio(lo, hi) >= 0,
    ;
}

/// `binom(n, n) == 1`.
pub proof fn lemma_binom_n_n(n: nat)
    ensures
        binom(n, n) == 1,
    decreases n,
{
    if n > 0 {
        lemma_binom_n_n((n - 1) as nat);
        reveal_with_fuel(binom, 2);
        assert(binom((n - 1) as nat, n) == 0);
    }
}

/// A binomial coefficient with `k <= n` is positive.
pub proof fn lemma_binom_pos(n: nat, k: nat)
    requires
        k <= n,
    ensures
        binom(n, k) >= 1,
    decreases n,
{
    if k > 0 {
        lemma_binom_pos((n - 1) as nat, (k - 1) as nat);
    }
}

/// The factorial form of the binomial coefficient:
/// `binom(n, k) * k! * (n - k)! == n!`.
pub proof fn lemma_binom_fact(n: nat, k: nat)
    requires
        k <= n,
    ensures
        binom(n, k) * fact(k) * fact((n - k) as nat) == fact(n),
    decreases n,
{
    if k == 0 {
        assert(binom(n, 0) == 1);
        assert(fact(0) == 1);
        assert(1 * fact(0) * fact(n) == fact(n)) by (nonlinear_arith);
    } else if k == n {
        lemma_binom_n_n(n);
        assert(fact((n - k) as nat) == 1);
        assert(1 * fact(k) * 1 == fact(k)) by (nonlinear_arith);
    } else {
        // 0 < k < n: Pascal's rule splits the coefficient; each part
        // absorbs one factor of k or n - k to rebuild n * (n-1)!.
        let n1 = (n - 1) as nat;
        let b1 = binom(n1, (k - 1) as nat);
        let b2 = binom(n1, k);
        lemma_binom_fact(n1, (k - 1) as nat);
        lemma_binom_fact(n1, k);
        assert(fact(k) == k * fact((k - 1) as nat));
        assert(fact((n - k) as nat) == (n - k) * fact((n - k - 1) as nat));
        assert(b1 * fact(k) * fact((n - k) as nat) == k * fact(n1)) by (nonlinear_arith)
            requires
                b1 * fact((k - 1) as nat) * fact((n1 - (k - 1)) as nat) == fact(n1),
                fact(k) == k * fact((k - 1) as nat),
                (n1 - (k - 1)) as nat == (n - k) as nat,
                k >= 1,
        ;
        assert(b2 * fact(k) * fact((n - k) as nat) == (n - k) * fact(n1)) by (nonlinear_arith)
            requires
                b2 * fact(k) * fact((n1 - k) as nat) == fact(n1),
                fact((n - k) as nat) == (n - k) * fact((n1 - k) as nat),
                n - k >= 1,
        ;
        assert(binom(n, k) == b1 + b2);
        assert(fact(n) == n * fact(n1));
        assert((b1 + b2) * fact(k) * fact((n - k) as nat) == n * fact(n1)) by (nonlinear_arith)
            requires
                b1 * fact(k) * fact((n - k) as nat) == k * fact(n1),
                b2 * fact(k) * fact((n - k) as nat) == (n - k) * fact(n1),
        ;
    }
}

/// A binomial coefficient on row `n` is at most `pow(2, n)`.
pub proof fn lemma_binom_le_pow2(n: nat, k: nat)
    ensures
        binom(n, k) <= pow(2, n),
    decreases n,
{
    lemma_pow_positive(2, n);
    if k == 0 {
        lemma_pow0(2);
        if n > 0 {
            lemma_pow_positive(2, (n - 1) as nat);
            lemma_pow_adds(2, (n - 1) as nat, 1);
            assert(pow(2, 1) == 2) by {
                vstd::arithmetic::power::lemma_pow1(2);
            }
        }
    } else if k > n {
        // binom is 0 here.
    } else {
        let n1 = (n - 1) as nat;
        lemma_binom_le_pow2(n1, (k - 1) as nat);
        lemma_binom_le_pow2(n1, k);
        lemma_pow_adds(2, n1, 1);
        assert(pow(2, 1) == 2) by {
            vstd::arithmetic::power::lemma_pow1(2);
        }
        assert(pow(2, n) == 2 * pow(2, n1));
    }
}

/// Factorial of `n`, exactly.
pub fn factorial(n: u64) -> (r: u64)
    requires
        n <= 20,
    ensures
        r == fact(n as nat),
        r >= 1,
{
    let mut y: u64 = 1;
    let mut i: u64 = 0;
    while i < n
        invariant
            i <= n <= 20,
            y == fact(i as nat),
            y >= 1,
        decreases n - i,
    {
        proof {
            lemma_fact_increases((i + 1) as nat, 20);
            lemma_fact_20();
            lemma_fact_pos(i as nat);
            assert(fact((i + 1) as nat) == (i + 1) * fact(i as nat));
            assert(y * (i + 1) == fact((i + 1) as nat) && y * (i + 1) >= 1) by (nonlinear_arith)
                requires
                    y == fact(i as nat),
                    y >= 1,
                    i >= 0,
                    fact((i + 1) as nat) == (i + 1) * fact(i as nat),
            ;
        }
        y = y * (i + 1);
        i = i + 1;
    }
    y
}

/// Binomial coefficient `n` choose `k`, exactly, computed from factorials
/// as `n! / (k! * (n - k)!)`.
pub fn binomial(n: u64, k: u64) -> (r: u64)
    requires
        k <= n <= 20,
    ensures
        r == binom(n as nat, k as nat),
        r >= 1,
{
    let fn_all = factorial(n);
    let fk = factorial(k);
    let fnk = factorial(n - k);
    proof {
        lemma_binom_fact(n as nat, k as nat);
        lemma_binom_pos(n as nat, k as nat);
        let b = binom(n as nat, k as nat) as int;
        assert(b * fk * fnk == fn_all);
        assert(fk * fnk <= fn_all && fk * fnk >= 1) by (nonlinear_arith)
            requires
                b * (fk as int) * (fnk as int) == fn_all as int,
                b >= 1,
                fk >= 1,
                fnk >= 1,
        ;
        assert(b * (fk as int * fnk as int) == fn_all) by (nonlinear_arith)
            requires
                b * (fk as int) * (fnk as int) == fn_all as int,
        ;
        lemma_div_by_multiple(b, fk as int * fnk as int);
    }
    fn_all / (fk * fnk)
}

} // verus!
