//! Exact behaviour of the combinatorial helpers, the basis conversions and
//! polynomial evaluation.

use sinc_minimax::arith::pow2i;
use sinc_minimax::chebyshev::{chebyshev_to_monomial, monomial_to_chebyshev};
use sinc_minimax::combinatorics::{binomial, factorial};
use sinc_minimax::polynomial::{evaluate, reverse, ScaledCoeffs};

#[test]
fn factorial_values() {
    assert_eq!(factorial(0), 1);
    assert_eq!(factorial(1), 1);
    assert_eq!(factorial(5), 120);
    assert_eq!(factorial(13), 6227020800);
    assert_eq!(factorial(20), 2432902008176640000);
}

#[test]
fn binomial_values() {
    assert_eq!(binomial(0, 0), 1);
    assert_eq!(binomial(5, 0), 1);
    assert_eq!(binomial(6, 6), 1);
    assert_eq!(binomial(8, 4), 70);
    assert_eq!(binomial(20, 10), 184756);
}

#[test]
fn powers_of_two() {
    assert_eq!(pow2i(0), 1);
    assert_eq!(pow2i(10), 1024);
    assert_eq!(pow2i(100), 1i128 << 100);
}

#[test]
fn reverse_even_and_odd_lengths() {
    let mut v: Vec<i128> = vec![1, 2, 3, 4];
    reverse(&mut v);
    assert_eq!(v, vec![4, 3, 2, 1]);
    let mut w: Vec<i128> = vec![7, 8, 9];
    reverse(&mut w);
    assert_eq!(w, vec![9, 8, 7]);
}

#[test]
fn evaluate_at_zero_is_constant_term() {
    // Degenerate evaluation: at x == 0 the result is exactly c[0] / scale,
    // whatever the other coefficients are.
    let c = ScaledCoeffs { scale: 3, nums: vec![7, 5, -9] };
    let (num, den) = evaluate(0, 1, &c);
    assert_eq!((num, den), (7, 3));
    let c2 = ScaledCoeffs { scale: 92897280, nums: vec![92896718, 0, -15472736, 0, 746944] };
    let (num2, den2) = evaluate(0, 2, &c2);
    // Over denominator scale * 2^4 the numerator is c[0] * 2^4.
    assert_eq!(num2 * c2.scale, 92896718i128 * den2);
}

#[test]
fn evaluate_single_coefficient() {
    // A constant polynomial evaluates to itself everywhere.
    let c = ScaledCoeffs { scale: 5, nums: vec![3] };
    assert_eq!(evaluate(1, 2, &c), (3, 5));
    assert_eq!(evaluate(0, 1, &c), (3, 5));
}

#[test]
fn evaluate_small_polynomial() {
    // 1 + 2x + 3x^2 at x = 1/2 is 11/4.
    let c = ScaledCoeffs { scale: 1, nums: vec![1, 2, 3] };
    assert_eq!(evaluate(1, 2, &c), (11, 4));
    // ... at x = 1 is 6, at x = -1 is 2.
    assert_eq!(evaluate(1, 1, &c), (6, 1));
    assert_eq!(evaluate(-1, 1, &c), (2, 1));
}

#[test]
fn monomial_to_chebyshev_of_x_squared() {
    // x^2 == T0/2 + T2/2: over the scale grown by 2^2 the Chebyshev
    // numerators are [2, 0, 2].
    let a = ScaledCoeffs { scale: 1, nums: vec![0, 0, 1] };
    let b = monomial_to_chebyshev(&a);
    assert_eq!(b.scale, 4);
    assert_eq!(b.nums, vec![2, 0, 2]);
}

#[test]
fn chebyshev_to_monomial_of_t3() {
    // T3(x) == -3x + 4x^3.
    let b = ScaledCoeffs { scale: 1, nums: vec![0, 0, 0, 1] };
    let a = chebyshev_to_monomial(&b);
    assert_eq!(a.scale, 1);
    assert_eq!(a.nums, vec![0, -3, 0, 4]);
}

#[test]
fn chebyshev_round_trip_exact() {
    // Round trip: converting to the Chebyshev basis and back reproduces
    // the polynomial exactly; the numerators come back multiplied by
    // 2^degree, matching the scale grown by the forward conversion.
    let a = ScaledCoeffs { scale: 6, nums: vec![1, -2, 3, 4, 0] };
    let b = monomial_to_chebyshev(&a);
    let rt = chebyshev_to_monomial(&b);
    assert_eq!(rt.scale, 6 * 16);
    assert_eq!(rt.nums, vec![16, -32, 48, 64, 0]);
    // Same value, numerator for numerator: rt[i] * a.scale == a[i] * rt.scale.
    for i in 0..a.nums.len() {
        assert_eq!(rt.nums[i] * a.scale, a.nums[i] * rt.scale);
    }
}
