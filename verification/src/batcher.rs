//! Change coalescer: the dirty signal between foreground edits and the
//! background dispatcher.
//!
//! Any number of point or preset mutations call [`Batcher::request`]; each
//! dispatcher tick calls [`Batcher::pull`], which reads and clears the
//! signal in one step. A burst of requests between two ticks thus results
//! in exactly one hardware sync. The callers share one `Batcher` behind a
//! lock or an atomic; the state itself resets to clean on process start.

use vstd::prelude::*;

verus! {

/// What a [`Batcher::request`] does to the signal.
pub open spec fn requested(dirty: bool) -> bool {
    true
}

/// What a [`Batcher::pull`] does: what it returns, and the signal after.
pub open spec fn pulled(dirty: bool) -> (bool, bool) {
    (dirty, false)
}

/// The signal after `n` further requests.
pub open spec fn after_requests(dirty: bool, n: nat) -> bool
    decreases n,
{
    if n == 0 {
        dirty
    } else {
        requested(after_requests(dirty, (n - 1) as nat))
    }
}

/// The dirty signal. Clean when freshly built.
pub struct Batcher {
    dirty: bool,
}

impl Batcher {
    /// Whether changes are pending.
    pub closed spec fn is_dirty(self) -> bool {
        self.dirty
    }

    /// A clean signal: nothing pending.
    pub fn new() -> (r: Batcher)
        ensures
            !r.is_dirty(),
    {
        Batcher { dirty: false }
    }

    /// Record that changes are pending. Idempotent: safe to call any number
    /// of times between two ticks.
    pub fn request(&mut self)
        ensures
            final(self).is_dirty() == requested(old(self).is_dirty()),
    {
        self.dirty = true;
    }

    /// Read the signal and reset it to clean, in one step. Returns whether
    /// changes were pending.
    pub fn pull(&mut self) -> (was_dirty: bool)
        ensures
            (was_dirty, final(self).is_dirty()) == pulled(old(self).is_dirty()),
    {
        let res = self.dirty;
        self.dirty = false;
        res
    }
}

/// Coalescing law: however many requests arrive between two ticks (at least
/// one), the tick's pull finds the signal set — one hardware sync — and a
/// pull on the following tick, with no request in between, finds it clean,
/// so the burst causes no second sync.
pub proof fn lemma_requests_coalesce(dirty: bool, n: nat)
    requires
        n >= 1,
    ensures
        pulled(after_requests(dirty, n)).0,
        !pulled(pulled(after_requests(dirty, n)).1).0,
{
}

} // verus!
