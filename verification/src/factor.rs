//! The effort budget of the structural factoring attacks.

use vstd::prelude::*;

verus! {

/// The effort budget for the structural attacks on a modulus: each attack runs to its own
/// bound, then declines.
#[derive(Clone, Copy, Debug)]
pub struct StructuralBudget {
    pub trial_limit: u64,
    pub fermat_iters: u64,
    pub pminus1_bound: u64,
    pub rho_iters: u64,
}

impl Default for StructuralBudget {
    /// A quick structural triage: enough to expose a real structural weakness, far short of the
    /// effort a sound modulus would demand.
    fn default() -> (b: Self)
        ensures
            b.trial_limit == 1_000,
            b.fermat_iters == 3_000,
            b.pminus1_bound == 500,
            b.rho_iters == 5_000,
    {
        StructuralBudget { trial_limit: 1_000, fermat_iters: 3_000, pminus1_bound: 500, rho_iters: 5_000 }
    }
}

} // verus!
