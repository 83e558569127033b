//! The state of a region's lock.

use vstd::prelude::*;

verus! {

/// How many failed attempts to take a lock a thread makes before it yields
/// the processor.
pub const LOOPS_PER_YIELD: u16 = 1000;

/// A non-recursive lock: `true` while nobody holds it.
#[derive(Debug)]
pub struct Lock {
    lock: bool,
}

impl Lock {
    /// Whether nobody holds the lock.
    pub closed spec fn is_free(&self) -> bool {
        self.lock
    }

    /// A lock that is free if `val`, and held otherwise.
    pub fn new(val: bool) -> (r: Lock)
        ensures
            r.is_free() == val,
    {
        Lock { lock: val }
    }

    /// One attempt to take the lock: it succeeds exactly when the lock was
    /// free, and the lock is held afterwards either way.
    pub fn try_lock(&mut self) -> (r: bool)
        ensures
            r == old(self).is_free(),
            !final(self).is_free(),
    {
        let was = self.lock;
        self.lock = false;
        was
    }

    /// Takes the lock, which nobody holds.
    pub fn lock(&mut self)
        requires
            old(self).is_free(),
        ensures
            !final(self).is_free(),
    {
        self.lock = false;
    }

    /// Releases the lock.
    pub fn unlock(&mut self)
        ensures
            final(self).is_free(),
    {
        self.lock = true;
    }

    /// What a thread does after its `loops`-th failed attempt in a row: the
    /// new count, and whether to yield the processor before the next attempt.
    pub fn backoff(loops: u16) -> (r: (u16, bool))
        requires
            loops < LOOPS_PER_YIELD,
        ensures
            r.1 == (loops + 1 == LOOPS_PER_YIELD),
            r.0 == if r.1 {
                0
            } else {
                loops + 1
            },
    {
        if loops + 1 == LOOPS_PER_YIELD {
            (0, true)
        } else {
            (loops + 1, false)
        }
    }
}

} // verus!
