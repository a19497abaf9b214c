//! The backing-file guard's bookkeeping: it remembers the modification
//! time last observed on the region file and reports whether a newer one
//! has appeared, so writeback can detect outside modification. Reading
//! the time from the file happens outside the library; times arrive here
//! as nanoseconds since the Unix epoch.

use vstd::prelude::*;

verus! {

/// The last-observed modification time of the backing file.
pub struct MtimeGuard {
    known_mtime: u128,
}

impl MtimeGuard {
    pub closed spec fn known(&self) -> u128 {
        self.known_mtime
    }

    /// Starts guarding a file whose modification time was just read.
    pub fn new(mtime: u128) -> (r: Self)
        ensures
            r.known() == mtime,
    {
        MtimeGuard { known_mtime: mtime }
    }

    /// Judges a fresh observation: the file changed under us exactly when
    /// a readable modification time is newer than the recorded one. The
    /// record then moves to the present instant `now`; an unreadable time
    /// counts as that instant.
    pub fn observe(&mut self, current: Option<u128>, now: u128) -> (r: bool)
        ensures
            r == match current {
                Some(t) => t > old(self).known(),
                None => now > old(self).known(),
            },
            final(self).known() == now,
    {
        let mtime = match current {
            Some(t) => t,
            None => now,
        };
        let changed = mtime > self.known_mtime;
        self.known_mtime = now;
        changed
    }
}

} // verus!
