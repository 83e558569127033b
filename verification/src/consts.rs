//! The Linux x86-64 values of the flags, protections and error numbers that
//! the interposed memory calls carry.

use vstd::prelude::*;

verus! {

/// Pages may be read.
pub const PROT_READ: i32 = 0x1;

/// Pages may be written.
pub const PROT_WRITE: i32 = 0x2;

/// Pages may be executed.
pub const PROT_EXEC: i32 = 0x4;

/// Share the mapping with other processes.
pub const MAP_SHARED: i32 = 0x01;

/// Keep the mapping private to the process.
pub const MAP_PRIVATE: i32 = 0x02;

/// As `MAP_SHARED`, with unknown flags refused.
pub const MAP_SHARED_VALIDATE: i32 = 0x03;

/// Place the mapping exactly at the address given, over what is there.
pub const MAP_FIXED: i32 = 0x10;

/// The mapping is backed by no file.
pub const MAP_ANONYMOUS: i32 = 0x20;

/// The mapping grows downward, as a stack does.
pub const MAP_GROWSDOWN: i32 = 0x0100;

/// Back the mapping with huge pages.
pub const MAP_HUGETLB: i32 = 0x04_0000;

/// Place the mapping exactly at the address given, or fail if anything is
/// mapped there.
pub const MAP_FIXED_NOREPLACE: i32 = 0x10_0000;

/// The bit at which the base-two logarithm of a huge page's size is encoded
/// in the flags.
pub const MAP_HUGE_SHIFT: i32 = 26;

/// The kernel may move the mapping.
pub const MREMAP_MAYMOVE: i32 = 1;

/// Move the mapping to the address given.
pub const MREMAP_FIXED: i32 = 2;

/// Out of memory.
pub const ENOMEM: i32 = 12;

/// The address range is already taken.
pub const EEXIST: i32 = 17;

/// Invalid argument.
pub const EINVAL: i32 = 22;

/// What a failed mapping call returns in place of an address.
pub const MAP_FAILED: usize = usize::MAX;

} // verus!
