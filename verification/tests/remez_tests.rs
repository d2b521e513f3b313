//! The decision core of the Remez refinement: state transitions and the
//! re-imposition of even symmetry.

use sinc_minimax::remez::{remez_outcome, zero_odd_terms, RemezOutcome};

#[test]
fn outcome_converges_when_ratio_passes() {
    assert_eq!(remez_outcome(0, 10, true), RemezOutcome::Converged);
    assert_eq!(remez_outcome(9, 10, true), RemezOutcome::Converged);
}

#[test]
fn outcome_exhausts_budget() {
    assert_eq!(remez_outcome(9, 10, false), RemezOutcome::MaxIterationsReached);
}

#[test]
fn outcome_continues_otherwise() {
    assert_eq!(remez_outcome(0, 10, false), RemezOutcome::Continue);
    assert_eq!(remez_outcome(8, 10, false), RemezOutcome::Continue);
}

#[test]
fn zero_odd_terms_on_integers() {
    let mut v: Vec<i128> = vec![10, 11, 12, 13, 14, 15];
    zero_odd_terms(&mut v, 0);
    assert_eq!(v, vec![10, 0, 12, 0, 14, 0]);
}

#[test]
fn zero_odd_terms_on_floats() {
    // The refinement loop applies this to its floating-point coefficient
    // vector after every correction: odd coefficients stay exactly zero.
    let mut v: Vec<f64> = vec![1.0, 2.0, 3.0, 4.0, 5.0];
    zero_odd_terms(&mut v, 0.0);
    assert_eq!(v, vec![1.0, 0.0, 3.0, 0.0, 5.0]);
    zero_odd_terms(&mut v, 0.0);
    assert_eq!(v, vec![1.0, 0.0, 3.0, 0.0, 5.0]);
}

#[test]
fn zero_odd_terms_edge_sizes() {
    let mut v: Vec<i128> = vec![];
    zero_odd_terms(&mut v, 0);
    assert_eq!(v, Vec::<i128>::new());
    let mut w: Vec<i128> = vec![42];
    zero_odd_terms(&mut w, 0);
    assert_eq!(w, vec![42]);
}
