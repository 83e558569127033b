//! The word of a futex-backed mutex and what each operation does to it.

use vstd::prelude::*;

verus! {

/// The futex operation that waits while the word holds a given value.
pub const FUTEX_WAIT: i32 = 0;

/// The futex operation that wakes waiters.
pub const FUTEX_WAKE: i32 = 1;

/// The flag of a futex that one process alone uses.
pub const FUTEX_PRIVATE_FLAG: i32 = 128;

/// A call of the kernel's futex operation `op` on the word, with the value
/// `val`.
#[derive(Debug, Clone, Copy, PartialEq, Eq, Structural)]
pub struct FutexCall {
    pub op: i32,
    pub val: i32,
}

/// The word of a non-recursive mutex: 1 while it is free, 0 while one thread
/// holds it and none waits, -1 while one holds it and others wait.
#[derive(Debug)]
pub struct Futex {
    futex: i32,
}

impl Futex {
    /// The value of the word.
    pub closed spec fn value(&self) -> int {
        self.futex as int
    }

    /// A free mutex.
    pub fn new() -> (r: Futex)
        ensures
            r.value() == 1,
    {
        Futex { futex: 1 }
    }

    /// Takes the mutex. A free one is held afterwards, and nothing is left
    /// to do. Any other is marked as waited for, and the caller has to wait
    /// on the word while it holds -1.
    pub fn lock(&mut self) -> (r: Option<FutexCall>)
        ensures
            old(self).value() == 1 ==> final(self).value() == 0 && r.is_none(),
            old(self).value() != 1 ==> final(self).value() == -1 && r == Some(
                FutexCall { op: FUTEX_PRIVATE_FLAG | FUTEX_WAIT, val: -1i32 },
            ),
    {
        let prev = self.futex;
        if prev != 1 {
            self.futex = -1;
            Some(FutexCall { op: FUTEX_PRIVATE_FLAG | FUTEX_WAIT, val: -1 })
        } else {
            self.futex = 0;
            None
        }
    }

    /// Releases the mutex, which is free afterwards. If nobody waited,
    /// nothing is left to do; else the caller has to wake one waiter.
    pub fn unlock(&mut self) -> (r: Option<FutexCall>)
        ensures
            final(self).value() == 1,
            old(self).value() == 0 ==> r.is_none(),
            old(self).value() != 0 ==> r == Some(
                FutexCall { op: FUTEX_PRIVATE_FLAG | FUTEX_WAKE, val: 1 },
            ),
    {
        let prev = self.futex;
        self.futex = 1;
        if prev != 0 {
            Some(FutexCall { op: FUTEX_PRIVATE_FLAG | FUTEX_WAKE, val: 1 })
        } else {
            None
        }
    }
}

} // verus!
