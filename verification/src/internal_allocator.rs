//! The interposer's own allocator: a fixed arena with a watermark for small
//! objects, and a mapping of its own for each large one.

use crate::misc::{checked_align_up, ceil_to, is_pow2};
use vstd::prelude::*;

verus! {

/// The size of the arena.
pub const ARENA_SIZE: usize = 262144;

/// The largest alignment that the allocator serves.
pub const MAX_SUPPORTED_ALIGN: usize = 4096;

/// The size from which an object gets a mapping of its own.
pub const MMAP_THRESHOLD: usize = 4096;

/// Where an object is placed.
#[derive(Debug, Clone, Copy, PartialEq, Eq, Structural)]
pub enum AllocOp {
    /// Nowhere: the request fails.
    Null,
    /// In the arena, `offset` bytes from its start; the bytes are to be
    /// cleared if `zero`.
    Arena { offset: usize, zero: bool },
    /// In a new anonymous private mapping of `size` bytes.
    Mmap { size: usize },
}

/// What is to be done to release an object.
#[derive(Debug, Clone, Copy, PartialEq, Eq, Structural)]
pub enum FreeOp {
    /// Nothing.
    Nothing,
    /// Its mapping of `size` bytes is to be unmapped.
    Unmap { size: usize },
}

/// What is to be done to resize an object.
#[derive(Debug, Clone, Copy, PartialEq, Eq, Structural)]
pub enum ReallocOp {
    /// Nothing, and the request fails: there is no room for the object, which
    /// stays as it is.
    Null,
    /// Nothing: the object stays where it is.
    InPlace,
    /// Its mapping is to be resized from `old_size` to `new_size` bytes, and
    /// may move.
    Remap { old_size: usize, new_size: usize },
    /// The object moves: it is placed as `to` says, `copy` bytes are copied
    /// over, and the old place is released as `release` says.
    Move { to: AllocOp, copy: usize, release: FreeOp },
}

/// The books of the allocator.
#[derive(Debug, Clone, Copy, PartialEq, Eq, Structural)]
pub struct InternalAllocator {
    /// The watermark: the number of bytes of the arena that are in use.
    pub idx: usize,
    /// The number of bytes in mappings.
    pub mmap_total: usize,
    /// The number of bytes lost to rounding mappings up to whole pages.
    pub mmap_overhead: usize,
}

/// The lesser of two sizes.
pub open spec fn lesser(a: usize, b: usize) -> usize {
    if a <= b {
        a
    } else {
        b
    }
}

/// The bytes lost when a mapping of `size` bytes takes whole pages.
pub open spec fn page_slack(size: usize) -> usize {
    (ceil_to(size as int, 4096) - size) as usize
}

fn slack_of(size: usize) -> (r: usize)
    ensures
        r == page_slack(size),
{
    proof {
        crate::misc::lemma_ceil_bounds(size as int, 4096);
    }
    let rem = size % 4096;
    if rem == 0 {
        0
    } else {
        4096 - rem
    }
}

impl InternalAllocator {
    /// The allocator's invariant: the watermark lies in the arena.
    pub open spec fn wf(&self) -> bool {
        self.idx <= ARENA_SIZE
    }

    /// An allocator with nothing in use.
    pub fn new() -> (r: InternalAllocator)
        ensures
            r.wf(),
            r.idx == 0,
            r.mmap_total == 0,
            r.mmap_overhead == 0,
    {
        InternalAllocator { idx: 0, mmap_total: 0, mmap_overhead: 0 }
    }

    /// The bytes of the arena in use and those left, and the bytes in
    /// mappings and those lost to rounding.
    pub fn stats(&self) -> (r: (usize, usize, usize, usize))
        requires
            self.wf(),
        ensures
            r == (self.idx, (ARENA_SIZE - self.idx) as usize, self.mmap_total, self.mmap_overhead),
    {
        (self.idx, ARENA_SIZE - self.idx, self.mmap_total, self.mmap_overhead)
    }

    /// Where a small object of `size` bytes at the alignment `align` starts
    /// in the arena: at the watermark, rounded up.
    pub open spec fn arena_start(&self, align: usize) -> int {
        ceil_to(self.idx as int, align as int)
    }

    /// What `alloc_helper` does: its result and the books afterwards. An
    /// alignment above the largest one fails. An object at or above the
    /// threshold gets a mapping, and the books count it. Any other is placed
    /// at the watermark, rounded up to its alignment, and the watermark moves
    /// behind it; if the arena has no room for it, the request fails and
    /// nothing changes.
    pub open spec fn place(self, size: usize, align: usize, zero: bool) -> (
        AllocOp,
        InternalAllocator,
    ) {
        if align > MAX_SUPPORTED_ALIGN {
            (AllocOp::Null, self)
        } else if size >= MMAP_THRESHOLD {
            (
                AllocOp::Mmap { size },
                InternalAllocator {
                    idx: self.idx,
                    mmap_total: self.mmap_total.wrapping_add(size),
                    mmap_overhead: self.mmap_overhead.wrapping_add(page_slack(size)),
                },
            )
        } else if self.arena_start(align) + size > ARENA_SIZE {
            (AllocOp::Null, self)
        } else {
            (
                AllocOp::Arena { offset: self.arena_start(align) as usize, zero },
                InternalAllocator { idx: (self.arena_start(align) + size) as usize, ..self },
            )
        }
    }

    /// Whether `op` and `post` are what `alloc_helper` gives for `pre`.
    pub open spec fn placed(
        pre: InternalAllocator,
        size: usize,
        align: usize,
        zero: bool,
        op: AllocOp,
        post: InternalAllocator,
    ) -> bool {
        (op, post) == pre.place(size, align, zero)
    }

    /// Places an object of `size` bytes at the alignment `align`.
    pub fn alloc_helper(&mut self, size: usize, align: usize, zero: bool) -> (op: AllocOp)
        requires
            old(self).wf(),
            is_pow2(align),
        ensures
            final(self).wf(),
            Self::placed(*old(self), size, align, zero, op, *final(self)),
    {
        if align > MAX_SUPPORTED_ALIGN {
            return AllocOp::Null;
        }
        if size >= MMAP_THRESHOLD {
            self.mmap_total = self.mmap_total.wrapping_add(size);
            self.mmap_overhead = self.mmap_overhead.wrapping_add(slack_of(size));
            return AllocOp::Mmap { size };
        }
        proof {
            crate::misc::lemma_ceil_bounds(self.idx as int, align as int);
        }
        match checked_align_up(self.idx, align) {
            None => AllocOp::Null,
            Some(start) => {
                if start > ARENA_SIZE || ARENA_SIZE - start < size {
                    AllocOp::Null
                } else {
                    self.idx = start + size;
                    AllocOp::Arena { offset: start, zero }
                }
            },
        }
    }

    /// Places an object of `size` bytes at the alignment `align`.
    pub fn allocate(&mut self, size: usize, align: usize) -> (op: AllocOp)
        requires
            old(self).wf(),
            is_pow2(align),
        ensures
            final(self).wf(),
            Self::placed(*old(self), size, align, false, op, *final(self)),
    {
        self.alloc_helper(size, align, false)
    }

    /// Places an object of `size` bytes at the alignment `align`, with its
    /// bytes cleared.
    pub fn alloc_zeroed(&mut self, size: usize, align: usize) -> (op: AllocOp)
        requires
            old(self).wf(),
            is_pow2(align),
        ensures
            final(self).wf(),
            Self::placed(*old(self), size, align, true, op, *final(self)),
    {
        self.alloc_helper(size, align, true)
    }

    /// What `dealloc` does: its result and the books afterwards. An object
    /// at or above the threshold has its mapping unmapped, and the books
    /// forget it. Any other gives its bytes back if it ends at the
    /// watermark, which then moves down to its start; else nothing changes.
    pub open spec fn release(self, offset: usize, size: usize) -> (FreeOp, InternalAllocator) {
        if size >= MMAP_THRESHOLD {
            (
                FreeOp::Unmap { size },
                InternalAllocator {
                    idx: self.idx,
                    mmap_total: self.mmap_total.wrapping_sub(size),
                    mmap_overhead: self.mmap_overhead.wrapping_sub(page_slack(size)),
                },
            )
        } else if offset + size == self.idx {
            (FreeOp::Nothing, InternalAllocator { idx: offset, ..self })
        } else {
            (FreeOp::Nothing, self)
        }
    }

    /// Whether `op` and `post` are what `dealloc` gives for `pre`.
    pub open spec fn released(
        pre: InternalAllocator,
        offset: usize,
        size: usize,
        op: FreeOp,
        post: InternalAllocator,
    ) -> bool {
        (op, post) == pre.release(offset, size)
    }

    /// Releases the object of `size` bytes that starts `offset` bytes from the
    /// arena's start, or that has a mapping of its own.
    pub fn dealloc(&mut self, offset: usize, size: usize) -> (op: FreeOp)
        requires
            old(self).wf(),
        ensures
            final(self).wf(),
            Self::released(*old(self), offset, size, op, *final(self)),
    {
        if size >= MMAP_THRESHOLD {
            self.mmap_total = self.mmap_total.wrapping_sub(size);
            self.mmap_overhead = self.mmap_overhead.wrapping_sub(slack_of(size));
            return FreeOp::Unmap { size };
        }
        if offset <= self.idx && self.idx - offset == size {
            self.idx = offset;
        }
        FreeOp::Nothing
    }

    /// What `realloc` does: its result and the books afterwards. An object
    /// that crosses the threshold moves: it is placed anew and, if that
    /// succeeds, its old place is released. A large object that stays large
    /// has its mapping resized, and the books follow. A small object that
    /// stays small and ends at the watermark stays where it is if the arena
    /// has room for its new size, and the watermark follows; any other is
    /// placed anew. Where a new place is needed and there is none, the
    /// request fails and nothing changes.
    pub open spec fn resize(self, offset: usize, old_size: usize, align: usize, new_size: usize) -> (
        ReallocOp,
        InternalAllocator,
    ) {
        let (to, mid) = self.place(new_size, align, false);
        let copy = lesser(old_size, new_size);
        if (old_size >= MMAP_THRESHOLD) != (new_size >= MMAP_THRESHOLD) {
            if to == AllocOp::Null {
                (ReallocOp::Null, self)
            } else {
                let (release, post) = mid.release(offset, old_size);
                (ReallocOp::Move { to, copy, release }, post)
            }
        } else if old_size >= MMAP_THRESHOLD {
            (
                ReallocOp::Remap { old_size, new_size },
                InternalAllocator {
                    idx: self.idx,
                    mmap_total: self.mmap_total.wrapping_sub(old_size).wrapping_add(new_size),
                    mmap_overhead: self.mmap_overhead.wrapping_sub(page_slack(old_size)).wrapping_add(
                        page_slack(new_size),
                    ),
                },
            )
        } else if offset + old_size == self.idx && self.idx - old_size + new_size <= ARENA_SIZE {
            (
                ReallocOp::InPlace,
                InternalAllocator { idx: (self.idx - old_size + new_size) as usize, ..self },
            )
        } else if to == AllocOp::Null {
            (ReallocOp::Null, self)
        } else {
            (ReallocOp::Move { to, copy, release: FreeOp::Nothing }, mid)
        }
    }

    /// Resizes the object of `old_size` bytes at the alignment `align` that
    /// starts `offset` bytes from the arena's start, or that has a mapping of
    /// its own, to `new_size` bytes.
    pub fn realloc(&mut self, offset: usize, old_size: usize, align: usize, new_size: usize) -> (op:
        ReallocOp)
        requires
            old(self).wf(),
            is_pow2(align),
        ensures
            final(self).wf(),
            (op, *final(self)) == old(self).resize(offset, old_size, align, new_size),
    {
        let copy = if old_size <= new_size {
            old_size
        } else {
            new_size
        };
        if (old_size >= MMAP_THRESHOLD) != (new_size >= MMAP_THRESHOLD) {
            let saved = *self;
            let to = self.allocate(new_size, align);
            match to {
                AllocOp::Null => {
                    *self = saved;
                    return ReallocOp::Null;
                },
                _ => {},
            }
            let release = self.dealloc(offset, old_size);
            return ReallocOp::Move { to, copy, release };
        }
        if old_size >= MMAP_THRESHOLD {
            self.mmap_total = self.mmap_total.wrapping_sub(old_size);
            self.mmap_overhead = self.mmap_overhead.wrapping_sub(slack_of(old_size));
            self.mmap_total = self.mmap_total.wrapping_add(new_size);
            self.mmap_overhead = self.mmap_overhead.wrapping_add(slack_of(new_size));
            return ReallocOp::Remap { old_size, new_size };
        }
        if offset <= self.idx && self.idx - offset == old_size {
            if new_size < old_size {
                self.idx = self.idx - (old_size - new_size);
                return ReallocOp::InPlace;
            }
            if ARENA_SIZE - self.idx >= new_size - old_size {
                self.idx = self.idx + (new_size - old_size);
                return ReallocOp::InPlace;
            }
        }
        let saved = *self;
        let to = self.allocate(new_size, align);
        match to {
            AllocOp::Null => {
                *self = saved;
                ReallocOp::Null
            },
            _ => ReallocOp::Move { to, copy, release: FreeOp::Nothing },
        }
    }
}

} // verus!
