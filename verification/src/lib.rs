//! Minimax polynomial approximation of sinc(x) = sin(x)/x on [-1, 1].
//!
//! The numerical core works on polynomial coefficients that are held
//! exactly: a coefficient vector is a list of integer numerators over one
//! shared positive scale, so every basis conversion and truncation step is
//! exact integer arithmetic with a proved meaning.  The library provides
//! Chebyshev economization of the Maclaurin series of sinc (telescoping)
//! and the decision core of a Remez-style equioscillation refinement;
//! evaluating the refined error curve at transcendental points is left to
//! the caller.

pub mod arith;
pub mod chebyshev;
pub mod combinatorics;
pub mod economization;
pub mod polynomial;
pub mod remez;
