//! The economizer end to end: Maclaurin coefficients, truncation choice,
//! degree reduction, the precondition, and determinism.

use sinc_minimax::economization::{economize, maclaurin_coeffs, EconomizeError};
use sinc_minimax::polynomial::evaluate;

#[test]
fn maclaurin_coefficients_of_sinc() {
    // sinc = 1 - x^2/3! + x^4/5! - x^6/7! + x^8/9!, held over the scale 9!.
    let c = maclaurin_coeffs(8);
    assert_eq!(c.scale, 362880);
    assert_eq!(c.nums, vec![362880, 0, -60480, 0, 3024, 0, -72, 0, 1]);
}

#[test]
fn economize_n8_cut2_reduces_to_degree_4() {
    // With degree 8 and 2 cut terms the monomial coefficients at degrees
    // 8, 7, 6 and 5 are all exactly zero: an effectively degree-4 even
    // polynomial remains.
    let c = economize(8, 2).unwrap();
    assert_eq!(c.nums.len(), 9);
    assert_eq!(c.scale, 362880 * 256);
    for d in 5..=8 {
        assert_eq!(c.nums[d], 0);
    }
    assert_eq!(c.nums[1], 0);
    assert_eq!(c.nums[3], 0);
    // The surviving coefficients, exactly.
    assert_eq!(c.nums[0], 92896718);
    assert_eq!(c.nums[2], -15472736);
    assert_eq!(c.nums[4], 746944);
    // And as floating values they are close to 1, -1/6 and 1/120.
    let scale = c.scale as f64;
    assert!((c.nums[0] as f64 / scale - 1.0).abs() < 1e-4);
    assert!((c.nums[2] as f64 / scale + 1.0 / 6.0).abs() < 1e-3);
    assert!((c.nums[4] as f64 / scale - 1.0 / 120.0).abs() < 1e-3);
}

#[test]
fn economize_odd_degree_cuts_below_top() {
    // For an odd top degree the cuts start one below it; everything above
    // degree 4 vanishes here as well.
    let c = economize(9, 2).unwrap();
    assert_eq!(c.nums.len(), 10);
    for d in 5..=9 {
        assert_eq!(c.nums[d], 0);
    }
    assert_eq!(c.nums[0], 1857934360);
    assert_eq!(c.nums[2], -309454720);
    assert_eq!(c.nums[4], 14938880);
}

#[test]
fn maclaurin_coefficients_odd_degree() {
    // An odd top degree adds only a zero slot: the series has no odd terms.
    let c = maclaurin_coeffs(9);
    assert_eq!(c.scale, 3628800);
    assert_eq!(c.nums, vec![3628800, 0, -604800, 0, 30240, 0, -720, 0, 10, 0]);
}

#[test]
fn economized_polynomial_is_even() {
    // Every odd coefficient is exactly zero, so the polynomial is even:
    // the evaluations at x and -x agree exactly.
    let c = economize(8, 2).unwrap();
    assert_eq!(evaluate(1, 1, &c), evaluate(-1, 1, &c));
    assert_eq!(evaluate(1, 2, &c), evaluate(-1, 2, &c));
}

#[test]
fn economize_rejects_too_many_cut_terms() {
    // 2 * cut_terms >= n must fail, never silently truncate.
    assert!(matches!(economize(8, 4), Err(EconomizeError::NotEnoughSpareDegrees)));
    assert!(matches!(economize(8, 100), Err(EconomizeError::NotEnoughSpareDegrees)));
    assert!(matches!(economize(2, 1), Err(EconomizeError::NotEnoughSpareDegrees)));
    assert!(matches!(economize(12, 6), Err(EconomizeError::NotEnoughSpareDegrees)));
    assert!(economize(8, 3).is_ok());
    assert!(economize(12, 5).is_ok());
    assert!(economize(2, 0).is_ok());
}

#[test]
fn economize_is_deterministic() {
    // Two runs on identical inputs produce bit-identical outputs.
    let c1 = economize(8, 2).unwrap();
    let c2 = economize(8, 2).unwrap();
    assert_eq!(c1.scale, c2.scale);
    assert_eq!(c1.nums, c2.nums);
    let e1 = evaluate(1, 2, &c1);
    let e2 = evaluate(1, 2, &c2);
    assert_eq!(e1, e2);
}

#[test]
fn economized_polynomial_approximates_sinc() {
    // At x = 1/2 the economized degree-4 polynomial is close to
    // sinc(1/2) = sin(0.5) / 0.5.
    let c = economize(8, 2).unwrap();
    let (num, den) = evaluate(1, 2, &c);
    let value = num as f64 / den as f64;
    let target = 0.5f64.sin() / 0.5;
    assert!((value - target).abs() < 1e-4);
}
