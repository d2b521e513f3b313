//! Decision core of the Remez-style equioscillation refinement.
//!
//! The refinement loop alternates floating-point work — relocating error
//! extrema with finite-difference Newton steps and solving a dense linear
//! system for a coefficient correction — with exact decisions.  The
//! floating-point work lives with the caller; this module holds what can
//! be decided exactly: forcing the odd-degree coefficients to zero (sinc
//! is even, so they vanish identically), and the state transition at the
//! end of each round.

use vstd::prelude::*;

verus! {

/// Terminal or continuing state of the refinement after one round.
#[derive(Clone, Copy, Debug, PartialEq, Eq, Structural)]
pub enum RemezOutcome {
    /// Another refinement round is still to run.
    Continue,
    /// The deviation ratio passed the threshold: the error equioscillates
    /// to working precision.
    Converged,
    /// The iteration budget is exhausted; not an error — the best
    /// coefficients found are still usable.
    MaxIterationsReached,
}

/// State transition at the end of refinement round `round` (counted from
/// 0) out of `max_rounds`: convergence wins over exhaustion, exhaustion
/// over continuing.
pub fn remez_outcome(round: u64, max_rounds: u64, ratio_passed: bool) -> (o: RemezOutcome)
    requires
        round < max_rounds,
    ensures
        o == (if ratio_passed {
            RemezOutcome::Converged
        } else if round + 1 == max_rounds {
            RemezOutcome::MaxIterationsReached
        } else {
            RemezOutcome::Continue
        }),
{
    if ratio_passed {
        RemezOutcome::Converged
    } else if round + 1 == max_rounds {
        RemezOutcome::MaxIterationsReached
    } else {
        RemezOutcome::Continue
    }
}

/// Sets every odd-index element to `zero`, leaving the even indices
/// untouched: the correction step of the refinement re-imposes the even
/// symmetry of the target function on the coefficient vector.
pub fn zero_odd_terms<T: Copy>(v: &mut Vec<T>, zero: T)
    ensures
        final(v)@.len() == old(v)@.len(),
        forall|i: int|
            0 <= i < final(v)@.len() ==> final(v)@[i] == (if i % 2 == 1 {
                zero
            } else {
                old(v)@[i]
            }),
{
    let mut i: usize = 1;
    while i < v.len()
        invariant
            v@.len() == old(v)@.len(),
            i % 2 == 1,
            forall|j: int|
                0 <= j < v@.len() ==> v@[j] == (if j % 2 == 1 && j < i {
                    zero
                } else {
                    old(v)@[j]
                }),
        decreases v@.len() + 1 - i,
    {
        v.set(i, zero);
        i = i + 2;
    }
}

} // verus!
