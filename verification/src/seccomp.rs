//! Answering the kernel's notifications of intercepted system calls: which
//! call a notification is for, and what is reported back for it.

use vstd::prelude::*;

verus! {

/// The x86-64 number of the system call `mmap`.
pub const SYS_MMAP: i32 = 9;

/// The x86-64 number of the system call `mprotect`.
pub const SYS_MPROTECT: i32 = 10;

/// The x86-64 number of the system call `munmap`.
pub const SYS_MUNMAP: i32 = 11;

/// The x86-64 number of the system call `brk`.
pub const SYS_BRK: i32 = 12;

/// The x86-64 number of the system call `mremap`.
pub const SYS_MREMAP: i32 = 25;

/// The x86-64 number of the system call `madvise`.
pub const SYS_MADVISE: i32 = 28;

/// An intercepted system call.
#[derive(Debug, Clone, Copy, PartialEq, Eq, Structural)]
pub enum Call {
    Brk,
    Mmap,
    Munmap,
    Mprotect,
    Madvise,
    Mremap,
}

/// The call that has the number `nr`, if it is one of those intercepted.
pub fn call_of(nr: i32) -> (r: Option<Call>)
    ensures
        r == if nr == SYS_BRK {
            Some(Call::Brk)
        } else if nr == SYS_MMAP {
            Some(Call::Mmap)
        } else if nr == SYS_MUNMAP {
            Some(Call::Munmap)
        } else if nr == SYS_MPROTECT {
            Some(Call::Mprotect)
        } else if nr == SYS_MADVISE {
            Some(Call::Madvise)
        } else if nr == SYS_MREMAP {
            Some(Call::Mremap)
        } else {
            None
        },
{
    if nr == SYS_BRK {
        Some(Call::Brk)
    } else if nr == SYS_MMAP {
        Some(Call::Mmap)
    } else if nr == SYS_MUNMAP {
        Some(Call::Munmap)
    } else if nr == SYS_MPROTECT {
        Some(Call::Mprotect)
    } else if nr == SYS_MADVISE {
        Some(Call::Madvise)
    } else if nr == SYS_MREMAP {
        Some(Call::Mremap)
    } else {
        None
    }
}

/// Whether the value `ret` that a call returned tells of a failure: -1 for
/// the calls that return an address, anything but 0 for the others.
pub open spec fn is_failure(call: Call, ret: i64) -> bool {
    match call {
        Call::Mmap | Call::Mremap => ret == -1,
        _ => ret != 0,
    }
}

/// The error that is reported for a call that returned `ret` and left the
/// error number `errno`: none if the call succeeded, else the negated error
/// number, which `mprotect` reports as it is.
pub open spec fn reported_error(call: Call, ret: i64, errno: i32) -> int {
    if !is_failure(call, ret) {
        0
    } else if call == Call::Mprotect {
        errno as int
    } else {
        -errno
    }
}

/// The value and the error that are reported for a call other than `brk`
/// that returned `ret` and left the error number `errno`.
pub fn reply_for(call: Call, ret: i64, errno: i32) -> (r: (i64, i32))
    requires
        call != Call::Brk,
        errno > i32::MIN,
    ensures
        r.0 == ret,
        r.1 == reported_error(call, ret, errno),
{
    let failed = match call {
        Call::Mmap | Call::Mremap => ret == -1,
        _ => ret != 0,
    };
    let err = if !failed {
        0
    } else {
        match call {
            Call::Mprotect => errno,
            _ => -errno,
        }
    };
    (ret, err)
}

/// The value and the error that are reported for `brk`: the break asked for
/// if it was set, else the break as it is, which `current` holds; never an
/// error.
pub fn reply_for_brk(done: bool, asked: usize, current: i64) -> (r: (i64, i32))
    ensures
        r.1 == 0,
        r.0 == if done {
            asked as i64
        } else {
            current
        },
{
    if done {
        (#[verifier::truncate] (asked as i64), 0)
    } else {
        (current, 0)
    }
}

} // verus!
