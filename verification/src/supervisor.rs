//! Shutdown bookkeeping: draining background work and the exit code.

use vstd::prelude::*;

verus! {

/// Tally of background tasks drained during shutdown.
pub struct DrainTally {
    pub drained: u64,
    pub errors: u64,
}

impl DrainTally {
    pub fn new() -> (r: DrainTally)
        ensures
            r.drained == 0,
            r.errors == 0,
    {
        DrainTally { drained: 0, errors: 0 }
    }

    /// One background task finished during the drain; failures are
    /// counted but never abort the drain.
    pub fn record(&mut self, ok: bool)
        requires
            old(self).drained < u64::MAX,
            old(self).errors < u64::MAX,
        ensures
            final(self).drained == old(self).drained + 1,
            ok ==> final(self).errors == old(self).errors,
            !ok ==> final(self).errors == old(self).errors + 1,
    {
        self.drained = self.drained + 1;
        if !ok {
            self.errors = self.errors + 1;
        }
    }

    /// The process exit code: zero exactly when every background task
    /// drained without an unrecoverable error.
    pub fn exit_code(&self) -> (r: u8)
        ensures
            (r == 0) <==> (self.errors == 0),
    {
        if self.errors == 0 {
            0
        } else {
            1
        }
    }
}

} // verus!
