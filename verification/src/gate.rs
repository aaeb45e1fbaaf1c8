//! Update serialization gate: the single-slot exclusion mechanism of the
//! synchronous write path.
//!
//! When hardware writes happen inside a request instead of on the
//! dispatcher's cadence, two write sequences must never overlap on the bus.
//! One shared flag serves as that exclusion: a caller must take it first;
//! if it is already claimed, the caller is rejected as over-capacity and may
//! retry — nothing is queued. The claim is released on every exit path,
//! success or failure. The callers share one `Gate` behind a lock or an
//! atomic; the flag resets to clear on process start.

use vstd::prelude::*;

verus! {

/// What a [`Gate::try_claim`] does: whether the caller proceeds, and the
/// flag after.
pub open spec fn claim_attempted(claimed: bool) -> (bool, bool) {
    if claimed {
        (false, true)
    } else {
        (true, true)
    }
}

/// The exclusion flag. `claimed` means a hardware write sequence is in
/// progress.
pub struct Gate {
    claimed: bool,
}

impl Gate {
    /// Whether some hardware writer holds the claim.
    pub closed spec fn is_claimed(self) -> bool {
        self.claimed
    }

    /// A clear gate: no write sequence in progress.
    pub fn new() -> (r: Gate)
        ensures
            !r.is_claimed(),
    {
        Gate { claimed: false }
    }

    /// Attempt to take the claim without blocking. Returns whether the
    /// caller may push to the hardware; a rejected caller gets no
    /// automatic retry.
    pub fn try_claim(&mut self) -> (proceed: bool)
        ensures
            (proceed, final(self).is_claimed()) == claim_attempted(old(self).is_claimed()),
    {
        if self.claimed {
            false
        } else {
            self.claimed = true;
            true
        }
    }

    /// Release the claim. Called on every exit path of the write sequence.
    pub fn release(&mut self)
        ensures
            !final(self).is_claimed(),
    {
        self.claimed = false;
    }
}

/// Exclusion law: of two claim attempts with no release in between, exactly
/// one proceeds — the first on a clear gate, neither more — and after the
/// proceeding sequence releases, the flag is clear again, whatever the
/// sequence's outcome.
pub proof fn lemma_gate_excludes(claimed: bool)
    ensures
        ({
            let first = claim_attempted(claimed);
            let second = claim_attempted(first.1);
            &&& !(first.0 && second.0)
            &&& !claimed ==> first.0
            &&& !second.0
        }),
{
}

} // verus!
