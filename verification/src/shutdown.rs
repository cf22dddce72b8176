//! Per-handler view of the process-wide shutdown broadcast: each
//! handler holds one subscription and remembers whether it has observed
//! the signal. Waiting on the broadcast itself is the caller's I/O; the
//! state recorded here is what the handler's decisions read.

use vstd::prelude::*;

verus! {

/// One handler's record of the shutdown broadcast.
pub struct Shutdown {
    shutdown: bool,
}

impl Shutdown {
    /// True once the signal has been observed.
    pub closed spec fn observed(&self) -> bool {
        self.shutdown
    }

    /// A fresh subscription that has observed nothing yet.
    pub fn new() -> (s: Shutdown)
        ensures
            !s.observed(),
    {
        Shutdown { shutdown: false }
    }

    /// Whether the signal has been observed.
    pub fn is_shutdown(&self) -> (r: bool)
        ensures
            r == self.observed(),
    {
        self.shutdown
    }

    /// Records that the broadcast fired; observing is permanent.
    pub fn observe(&mut self)
        ensures
            final(self).observed(),
    {
        self.shutdown = true;
    }
}

} // verus!
