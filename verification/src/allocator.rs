//! The decisions taken for each interposed memory call: which region serves
//! it, what is reserved or freed there, and what the caller of the real
//! system calls has to do.

use crate::backing::{backing, MapRequest};
use crate::consts::{
    EEXIST, EINVAL, ENOMEM, MAP_ANONYMOUS, MAP_FIXED, MAP_FIXED_NOREPLACE, MAP_GROWSDOWN,
    MAP_HUGETLB, MAP_PRIVATE, MAP_SHARED, MAP_SHARED_VALIDATE, MREMAP_FIXED, MREMAP_MAYMOVE,
    PROT_READ, PROT_WRITE,
};
use crate::freemap::{
    can_take, covers, fits, free_set, holds, lemma_free_set, lemma_spans_unique, range_set, Span,
};
use crate::bootstrap::{
    anon_placed, file_placed, heap_placed, scan, scan_inv, scan_maps, Dims, Mapping, Stage,
};
use crate::htlb::{
    lemma_aligned_for_max, max_end_of, max_pgsz_of, AllocType, Interval, MosallocConfig, Pool,
    PAGE_SIZE,
};
use crate::misc::{align_up, ceil_to, lemma_ceil_bounds};
use crate::region::{is_watermark, lemma_watermark_unique, page_len, Region};
use vstd::prelude::*;

verus! {

/// The size of the chunks that are requested from the process's own
/// allocator until it has nothing left.
pub const CHUNK: usize = 64;

/// What the caller of an interposed call has to do.
#[derive(Debug)]
pub enum Action {
    /// Hand the call on to the real system call, unchanged, and return what
    /// it returns.
    Forward,
    /// Make the mapping calls of `backing`, in order, and return `ret`.
    Return { ret: usize, backing: Vec<MapRequest> },
    /// Set the error number to `errno` and return the call's failure value.
    Fail { errno: i32 },
    /// Make the real mapping call `request` and return what it returns.
    MapFile { request: MapRequest },
    /// Make the real unmapping call for `len` bytes at `addr` and return
    /// what it returns.
    Unmap { addr: usize, len: usize },
}

/// The three managed regions and the settings of the interposer.
#[derive(Debug)]
pub struct Allocator {
    pub heap: Region,
    pub anon_region: Region,
    pub file_region: Region,
    pub analyze: bool,
    pub dryrun: bool,
    pub drained: bool,
}

/// Whether the heap `r` is one span: all from its start up to its high-water
/// mark is reserved.
pub open spec fn is_one_span(r: Region) -> bool {
    forall|a: int| r.start <= a < r.end ==> !#[trigger] covers(r.free(), a)
}

/// The break that a call asks for: the address given, or else the old break
/// moved by the increment given.
pub open spec fn brk_target(oldbrk: usize, addr: Option<usize>, incr: Option<isize>) -> int {
    match addr {
        Some(a) => a as int,
        None => oldbrk + incr.unwrap(),
    }
}

/// The protection of the pages that the interposer maps on its own account.
pub open spec fn prot_rw() -> i32 {
    PROT_READ | PROT_WRITE
}

/// The flags of the mappings that the interposer makes on its own account.
pub open spec fn flags_anon() -> i32 {
    MAP_ANONYMOUS | MAP_PRIVATE
}

/// A well-formed region whose reserved bytes are `[start, end)` has the one
/// free range `[end, max)`, or none if that is empty.
pub proof fn lemma_one_span_free(r: Region)
    requires
        r.wf(),
        is_one_span(r),
    ensures
        r.end < r.max ==> r.free() == seq![Span { start: r.end, end: r.max }],
        r.end == r.max ==> r.free() == Seq::<Span>::empty(),
{
    let want = if r.end < r.max {
        seq![Span { start: r.end, end: r.max }]
    } else {
        Seq::<Span>::empty()
    };
    assert forall|a: int| free_set(r.free()).contains(a) == free_set(want).contains(a) by {
        lemma_free_set(r.free(), a);
        lemma_free_set(want, a);
        if r.end <= a < r.max {
            assert(holds(want[0], a));
        }
    }
    assert(free_set(r.free()) =~= free_set(want));
    lemma_spans_unique(r.free(), want);
}

/// Whether the flags ask for a mapping that the anonymous region does not
/// serve: a shared one, one that grows downward, or one that names its own
/// huge pages.
pub open spec fn is_nonstd(flags: i32) -> bool {
    ||| flags & MAP_SHARED == MAP_SHARED
    ||| flags & MAP_SHARED_VALIDATE == MAP_SHARED_VALIDATE
    ||| flags & MAP_GROWSDOWN != 0
    ||| flags & MAP_HUGETLB != 0
}

/// Whether the flags ask for a mapping that the anonymous region does not
/// serve.
pub fn has_nonstd_flags(flags: i32) -> (r: bool)
    ensures
        r == is_nonstd(flags),
{
    (flags & MAP_SHARED == MAP_SHARED) || (flags & MAP_SHARED_VALIDATE == MAP_SHARED_VALIDATE) || (
    flags & MAP_GROWSDOWN != 0) || (flags & MAP_HUGETLB != 0)
}

/// Whether the region serves mapping requests with these flags itself: the
/// anonymous region does so only after the drain, and only for mappings of
/// the usual kind.
pub open spec fn serves(pre: Region, drained: bool, flags: i32) -> bool {
    pre.alloc_type != AllocType::ANON || (drained && !is_nonstd(flags))
}

/// What the caller of `mmap` has to see to: the length fits in whole base
/// pages, a range at a given address ends in the region, and a fixed range
/// that is not free is reserved as a whole.
pub open spec fn mmap_sound(pre: Region, addr: usize, len: usize, flags: i32) -> bool {
    &&& ceil_to(len as int, PAGE_SIZE as int) <= usize::MAX
    &&& addr != 0 ==> addr + len <= pre.max
    &&& pre.alloc_overwrites(addr, page_len(len), flags) ==> pre.holds_reserved(
        addr,
        page_len(len),
    )
}

/// What a mapping request does to the region `pre` that serves it: `act` is
/// what the caller has to do and `post` the region afterwards. Before the
/// drain the anonymous region fails with `ENOMEM`, and it hands on what it
/// does not serve. Otherwise the range is reserved as `alloc_range` does it.
/// Where that fails, the error is `EEXIST` if the flags forbid replacing a
/// mapping, and `ENOMEM` if not. The file-backed region then has the file
/// mapped at the reserved address, never over an existing mapping; the
/// others return the address, with the backing to install.
pub open spec fn mapped(
    pre: Region,
    drained: bool,
    dryrun: bool,
    addr: usize,
    len: usize,
    prot: i32,
    flags: i32,
    fd: i32,
    offset: i64,
    act: Action,
    post: Region,
) -> bool {
    if pre.alloc_type == AllocType::ANON && !drained {
        act == (Action::Fail { errno: ENOMEM }) && pre.same_state(post)
    } else if pre.alloc_type == AllocType::ANON && is_nonstd(flags) {
        act == Action::Forward && pre.same_state(post)
    } else {
        match act {
            Action::Fail { errno } => {
                &&& errno == if flags & MAP_FIXED_NOREPLACE != 0 {
                    EEXIST
                } else {
                    ENOMEM
                }
                &&& Region::allocated(
                    pre,
                    addr,
                    len,
                    prot,
                    flags,
                    dryrun,
                    usize::MAX,
                    Seq::empty(),
                    post,
                )
            },
            Action::MapFile { request } => {
                &&& pre.alloc_type == AllocType::FILE
                &&& request.addr != usize::MAX
                &&& request == (MapRequest {
                    addr: request.addr,
                    len,
                    prot,
                    flags: flags | MAP_FIXED_NOREPLACE,
                    fd,
                    offset,
                })
                &&& Region::allocated(
                    pre,
                    addr,
                    len,
                    prot,
                    flags,
                    dryrun,
                    request.addr,
                    Seq::empty(),
                    post,
                )
            },
            Action::Return { ret, backing } => {
                &&& pre.alloc_type != AllocType::FILE
                &&& ret != usize::MAX
                &&& Region::allocated(pre, addr, len, prot, flags, dryrun, ret, backing@, post)
            },
            _ => false,
        }
    }
}

/// A range that is reserved in a region is reserved in every region that
/// differs from it at most in the state of its lock.
proof fn lemma_lock_keeps_reserved(a: Region, b: Region, addr: usize, len: usize)
    requires
        b.same_but_lock(a),
    ensures
        a.holds_reserved(addr, len) ==> b.holds_reserved(addr, len),
{
    if a.holds_reserved(addr, len) {
        assert forall|x: int| addr <= x < addr + len implies #[trigger] b.is_reserved(x) by {
            assert(a.is_reserved(x));
        }
    }
}

/// Whether a mapping request may be handed to `region`: see `mmap_sound`.
pub fn is_mmap_sound(region: &Region, addr: usize, len: usize, flags: i32) -> (r: bool)
    requires
        region.wf(),
    ensures
        r == mmap_sound(*region, addr, len, flags),
{
    proof {
        crate::misc::lemma_page_len_overflows(len);
        crate::backing::lemma_page_size_pow2();
    }
    if len > usize::MAX - (PAGE_SIZE - 1) {
        return false;
    }
    if addr != 0 && (addr > region.max || region.max - addr < len) {
        return false;
    }
    let n = align_up(len, PAGE_SIZE);
    if !region.free_map().can_fit(addr, n) && (flags & MAP_FIXED_NOREPLACE) == 0 && (flags
        & MAP_FIXED) != 0 {
        region.is_range_reserved(addr, n)
    } else {
        true
    }
}

/// Whether a request to move or resize a mapping may be handed to `region`:
/// see `mremap_sound`.
pub fn is_mremap_sound(
    region: &Region,
    old_address: usize,
    old_size: usize,
    new_size: usize,
    flags: i32,
    new_address: usize,
) -> (r: bool)
    ensures
        r == mremap_sound(*region, old_address, old_size, new_size, flags, new_address),
{
    proof {
        crate::misc::lemma_page_len_overflows(new_size);
    }
    if old_address < region.start || old_address > region.max || region.max - old_address
        < old_size {
        return false;
    }
    if new_size > usize::MAX - (PAGE_SIZE - 1) {
        return false;
    }
    if (flags & MREMAP_FIXED) != 0 {
        new_address >= region.start && new_address <= region.max && region.max - new_address
            >= new_size
    } else {
        true
    }
}

/// Serves a mapping request in `region`.
pub fn mmap_in(
    region: &mut Region,
    drained: bool,
    dryrun: bool,
    addr: usize,
    len: usize,
    prot: i32,
    flags: i32,
    fd: i32,
    offset: i64,
) -> (act: Action)
    requires
        old(region).wf(),
        !old(region).is_locked(),
        serves(*old(region), drained, flags) ==> mmap_sound(*old(region), addr, len, flags),
    ensures
        mapped(*old(region), drained, dryrun, addr, len, prot, flags, fd, offset, act, *final(region)),
        final(region).wf(),
        !final(region).is_locked(),
        final(region).alloc_type == old(region).alloc_type,
{
    if !drained && region.alloc_type == AllocType::ANON {
        return Action::Fail { errno: ENOMEM };
    }
    if region.alloc_type == AllocType::ANON && has_nonstd_flags(flags) {
        return Action::Forward;
    }
    region.lock();
    proof {
        lemma_lock_keeps_reserved(*old(region), *region, addr, page_len(len));
    }
    let r = region.alloc_range(addr, len, prot, flags, dryrun);
    region.unlock();
    if r.addr == usize::MAX {
        if (flags & MAP_FIXED_NOREPLACE) != 0 {
            return Action::Fail { errno: EEXIST };
        } else {
            return Action::Fail { errno: ENOMEM };
        }
    }
    if region.alloc_type == AllocType::FILE {
        return Action::MapFile {
            request: MapRequest {
                addr: r.addr,
                len,
                prot,
                flags: flags | MAP_FIXED_NOREPLACE,
                fd,
                offset,
            },
        };
    }
    Action::Return { ret: r.addr, backing: r.backing }
}

/// What an unmapping request does to the region `pre` that holds its
/// address: before the drain the anonymous region fails with `EINVAL`;
/// otherwise the range is freed, and the file-backed region then has the
/// real call made, while the others return 0.
pub open spec fn unmapped(
    pre: Region,
    drained: bool,
    addr: usize,
    len: usize,
    act: Action,
    post: Region,
) -> bool {
    if pre.alloc_type == AllocType::ANON && !drained {
        act == (Action::Fail { errno: EINVAL }) && pre.same_state(post)
    } else {
        &&& Region::freed(pre, addr, len, post)
        &&& if pre.alloc_type == AllocType::FILE {
            act == (Action::Unmap { addr, len })
        } else {
            act matches Action::Return { ret, backing } && ret == 0 && backing@.len() == 0
        }
    }
}

/// Serves an unmapping request in `region`.
pub fn munmap_in(region: &mut Region, drained: bool, addr: usize, len: usize) -> (act: Action)
    requires
        old(region).wf(),
        !old(region).is_locked(),
        old(region).start <= addr,
        addr + len <= old(region).max,
    ensures
        unmapped(*old(region), drained, addr, len, act, *final(region)),
        final(region).wf(),
        !final(region).is_locked(),
        final(region).alloc_type == old(region).alloc_type,
{
    if !drained && region.alloc_type == AllocType::ANON {
        return Action::Fail { errno: EINVAL };
    }
    region.lock();
    region.free_range(addr, len);
    region.unlock();
    if region.alloc_type == AllocType::FILE {
        Action::Unmap { addr, len }
    } else {
        Action::Return { ret: 0, backing: Vec::new() }
    }
}

/// The flags of a mapping that the interposer makes on its own account at a
/// given address, which must be free.
pub open spec fn flags_anon_at() -> i32 {
    MAP_ANONYMOUS | MAP_PRIVATE | MAP_FIXED_NOREPLACE
}

/// What the caller of `mremap` has to see to: the old range lies in the
/// region, the new length fits in whole base pages, and a new range at a
/// fixed address lies in the region as well.
pub open spec fn mremap_sound(
    pre: Region,
    old_address: usize,
    old_size: usize,
    new_size: usize,
    flags: i32,
    new_address: usize,
) -> bool {
    &&& pre.start <= old_address
    &&& old_address + old_size <= pre.max
    &&& ceil_to(new_size as int, PAGE_SIZE as int) <= usize::MAX
    &&& flags & MREMAP_FIXED != 0 ==> pre.start <= new_address && new_address + new_size
        <= pre.max
}

/// What a request to move or resize a mapping does to the region `pre` that
/// holds it. Before the drain the anonymous region fails with `ENOMEM`.
/// Without a fixed new address, a mapping that does not grow stays where it
/// is and its tail is freed; one that grows stays where it is if the bytes
/// behind it are free, which are then reserved; if they are not, and the
/// mapping may not move, the call fails with `ENOMEM`. In every other case
/// the new length is reserved, at the fixed address or anywhere, and its
/// address returned; where that fails the error is `EEXIST` for a fixed
/// address and `ENOMEM` otherwise.
pub open spec fn remapped(
    pre: Region,
    drained: bool,
    dryrun: bool,
    old_address: usize,
    old_size: usize,
    new_size: usize,
    flags: i32,
    new_address: usize,
    act: Action,
    post: Region,
) -> bool {
    let fixed = flags & MREMAP_FIXED != 0;
    let ext = (old_address + old_size) as usize;
    let more = (new_size - old_size) as usize;
    let req = if fixed {
        new_address
    } else {
        0
    };
    let fl = if req != 0 {
        flags_anon_at()
    } else {
        flags_anon()
    };
    if pre.alloc_type == AllocType::ANON && !drained {
        act == (Action::Fail { errno: ENOMEM }) && pre.same_state(post)
    } else if !fixed && old_size >= new_size {
        &&& Region::freed(
            pre,
            (old_address + new_size) as usize,
            (old_size - new_size) as usize,
            post,
        )
        &&& act matches Action::Return { ret, backing } && ret == old_address && backing@.len()
            == 0
    } else if !fixed && ext != 0 && can_take(pre.free(), ext, page_len(more)) {
        &&& act matches Action::Return { ret, backing } && ret == old_address
            && Region::allocated(
            pre,
            ext,
            more,
            prot_rw(),
            flags_anon_at(),
            dryrun,
            ext,
            backing@,
            post,
        )
    } else if !fixed && flags & MREMAP_MAYMOVE == 0 {
        act == (Action::Fail { errno: ENOMEM }) && pre.same_state(post)
    } else {
        match act {
            Action::Fail { errno } => {
                &&& errno == if req != 0 {
                    EEXIST
                } else {
                    ENOMEM
                }
                &&& Region::allocated(
                    pre,
                    req,
                    new_size,
                    prot_rw(),
                    fl,
                    dryrun,
                    usize::MAX,
                    Seq::empty(),
                    post,
                )
            },
            Action::Return { ret, backing } => {
                &&& ret != usize::MAX
                &&& Region::allocated(pre, req, new_size, prot_rw(), fl, dryrun, ret, backing@, post)
            },
            _ => false,
        }
    }
}

/// The flags of the interposer's own mappings ask neither for a fixed
/// address over what is there, and those for a given free address forbid
/// replacing a mapping.
proof fn lemma_own_flags()
    ensures
        flags_anon() & MAP_FIXED == 0,
        flags_anon() & MAP_FIXED_NOREPLACE == 0,
        flags_anon_at() & MAP_FIXED == 0,
        flags_anon_at() & MAP_FIXED_NOREPLACE != 0,
{
    assert((0x20i32 | 0x02i32) & 0x10i32 == 0) by (bit_vector);
    assert((0x20i32 | 0x02i32) & 0x10_0000i32 == 0) by (bit_vector);
    assert((0x20i32 | 0x02i32 | 0x10_0000i32) & 0x10i32 == 0) by (bit_vector);
    assert((0x20i32 | 0x02i32 | 0x10_0000i32) & 0x10_0000i32 != 0) by (bit_vector);
}

/// Serves a request to move or resize a mapping in `region`.
pub fn mremap_in(
    region: &mut Region,
    drained: bool,
    dryrun: bool,
    old_address: usize,
    old_size: usize,
    new_size: usize,
    flags: i32,
    new_address: usize,
) -> (act: Action)
    requires
        old(region).wf(),
        !old(region).is_locked(),
        mremap_sound(*old(region), old_address, old_size, new_size, flags, new_address),
    ensures
        remapped(
            *old(region),
            drained,
            dryrun,
            old_address,
            old_size,
            new_size,
            flags,
            new_address,
            act,
            *final(region),
        ),
        final(region).wf(),
        !final(region).is_locked(),
        final(region).alloc_type == old(region).alloc_type,
{
    if !drained && region.alloc_type == AllocType::ANON {
        return Action::Fail { errno: ENOMEM };
    }
    proof {
        lemma_own_flags();
        crate::misc::lemma_page_len_overflows(new_size);
    }
    let prot = PROT_READ | PROT_WRITE;
    let fixed = (flags & MREMAP_FIXED) != 0;
    let mut req = new_address;
    if !fixed {
        if old_size >= new_size {
            region.lock();
            region.free_range(old_address + new_size, old_size - new_size);
            region.unlock();
            return Action::Return { ret: old_address, backing: Vec::new() };
        }
        let ext = old_address + old_size;
        let more = new_size - old_size;
        proof {
            crate::misc::lemma_page_len_overflows(more);
            lemma_ceil_bounds(more as int, PAGE_SIZE as int);
        }
        if ext != 0 {
            region.lock();
            let r = region.alloc_range(
                ext,
                more,
                prot,
                MAP_ANONYMOUS | MAP_PRIVATE | MAP_FIXED_NOREPLACE,
                dryrun,
            );
            region.unlock();
            if r.addr != usize::MAX {
                return Action::Return { ret: old_address, backing: r.backing };
            }
        }
        if (flags & MREMAP_MAYMOVE) == 0 {
            return Action::Fail { errno: ENOMEM };
        }
        req = 0;
    }
    let fl = if req != 0 {
        MAP_ANONYMOUS | MAP_PRIVATE | MAP_FIXED_NOREPLACE
    } else {
        MAP_ANONYMOUS | MAP_PRIVATE
    };
    region.lock();
    let r = region.alloc_range(req, new_size, prot, fl, dryrun);
    region.unlock();
    if r.addr == usize::MAX {
        if req != 0 {
            return Action::Fail { errno: EEXIST };
        } else {
            return Action::Fail { errno: ENOMEM };
        }
    }
    Action::Return { ret: r.addr, backing: r.backing }
}

impl Allocator {
    /// The interposer's invariant between calls: the regions are well-formed
    /// and of their kinds, no lock is held, and the heap is one span.
    pub open spec fn wf(&self) -> bool {
        &&& self.heap.wf()
        &&& self.anon_region.wf()
        &&& self.file_region.wf()
        &&& self.heap.alloc_type == AllocType::BRK
        &&& self.anon_region.alloc_type == AllocType::ANON
        &&& self.file_region.alloc_type == AllocType::FILE
        &&& !self.heap.is_locked()
        &&& !self.anon_region.is_locked()
        &&& !self.file_region.is_locked()
        &&& is_one_span(self.heap)
    }

    /// Whether `other` has the settings of `self`.
    pub open spec fn same_settings(&self, other: Allocator) -> bool {
        &&& self.analyze == other.analyze
        &&& self.dryrun == other.dryrun
        &&& self.drained == other.drained
    }

    /// What `do_brk` does to the interposer `pre`: `act` is its result and
    /// `post` the interposer afterwards. Before the drain, and for a break
    /// outside the heap, it fails with `ENOMEM` and changes nothing. A break
    /// above the old one reserves the bytes between them, in whole base
    /// pages and with their backing, unless they end above the heap, which
    /// fails with `ENOMEM`; a break below the old one frees the bytes
    /// between them. A call that succeeds returns the old break.
    pub open spec fn did_brk(
        pre: Allocator,
        addr: Option<usize>,
        incr: Option<isize>,
        act: Action,
        post: Allocator,
    ) -> bool {
        Self::moved_brk(pre, addr, incr, pre.heap.end, act, post)
    }

    /// As `did_brk`, for a call that returns `done` where it succeeds.
    pub open spec fn moved_brk(
        pre: Allocator,
        addr: Option<usize>,
        incr: Option<isize>,
        done: usize,
        act: Action,
        post: Allocator,
    ) -> bool {
        let oldbrk = pre.heap.end;
        let newbrk = brk_target(oldbrk, addr, incr);
        let grown = oldbrk + ceil_to(newbrk - oldbrk, PAGE_SIZE as int);
        &&& post.wf()
        &&& pre.same_settings(post)
        &&& post.anon_region == pre.anon_region
        &&& post.file_region == pre.file_region
        &&& pre.heap.same_frame(post.heap)
        &&& if !pre.drained || !(pre.heap.start <= newbrk < pre.heap.max) || (newbrk > oldbrk
            && grown > pre.heap.max) {
            &&& act == (Action::Fail { errno: ENOMEM })
            &&& post.heap.end == oldbrk
        } else if newbrk > oldbrk {
            &&& act matches Action::Return { ret, backing }
            &&& ret == done
            &&& backing@ == crate::backing::backing(
                pre.heap.plan(),
                pre.heap.start as int,
                oldbrk as int,
                grown,
                prot_rw(),
                flags_anon(),
                pre.dryrun,
            )
            &&& post.heap.end == grown
        } else {
            &&& act matches Action::Return { ret, backing }
            &&& ret == done
            &&& backing@.len() == 0
            &&& post.heap.end == newbrk
        }
    }

    /// The largest page sizes and the lengths of the regions of an interposer
    /// with the plans `heap` and `anon` and a file-backed region of
    /// `file_pool_size` bytes.
    pub open spec fn dims_of(heap: Seq<Interval>, anon: Seq<Interval>, file_pool_size: usize) -> Dims {
        Dims {
            heap_pgsz: max_pgsz_of(heap) as usize,
            heap_len: max_end_of(heap) as usize,
            anon_pgsz: max_pgsz_of(anon) as usize,
            anon_len: max_end_of(anon) as usize,
            file_pgsz: PAGE_SIZE,
            file_len: file_pool_size,
        }
    }

    /// Whether regions can be made of the plans: the heap's and the
    /// anonymous region's plan are not empty, and the length of the
    /// file-backed region is a positive multiple of the base page size.
    pub open spec fn plans_usable(heap: Seq<Interval>, anon: Seq<Interval>, file_pool_size: usize) -> bool {
        &&& heap.len() > 0
        &&& anon.len() > 0
        &&& file_pool_size > 0
        &&& file_pool_size as int % PAGE_SIZE as int == 0
    }

    /// Whether the region `r` has its place at `start` if `placed`, and none
    /// otherwise; either way all of it is free.
    pub open spec fn placed_at(r: Region, placed: bool, start: usize) -> bool {
        if placed {
            &&& r.start == start
            &&& r.end == start
            &&& r.max == start + r.len
            &&& free_set(r.free()) == range_set(start as int, start + r.len)
        } else {
            r.is_unplaced()
        }
    }

    /// An interposer for the plans `heap_pool` and `anon_pool` and the
    /// settings `config`, its regions placed by a scan of the process's
    /// mappings `maps` for a program break at `brk`. There is none where the
    /// plans are not usable or the scan fails.
    pub fn new(
        config: &MosallocConfig,
        heap_pool: Pool,
        anon_pool: Pool,
        brk: usize,
        maps: &Vec<Mapping>,
        drained: bool,
    ) -> (r: Option<Allocator>)
        requires
            heap_pool.wf(),
            anon_pool.wf(),
        ensures
            ({
                let d = Self::dims_of(heap_pool.intervals@, anon_pool.intervals@, config.file_pool_size);
                let st = scan(brk, maps@, d);
                &&& r.is_some() == (Self::plans_usable(
                    heap_pool.intervals@,
                    anon_pool.intervals@,
                    config.file_pool_size,
                ) && st.stage != Stage::Failed)
                &&& r.is_some() ==> {
                    let a = r.unwrap();
                    &&& a.wf()
                    &&& scan_inv(st, d)
                    &&& a.drained == drained
                    &&& a.dryrun == config.dryrun
                    &&& a.analyze == config.analyze_regions
                    &&& a.heap.plan() == heap_pool.intervals@
                    &&& a.anon_region.plan() == anon_pool.intervals@
                    &&& a.file_region.plan() == seq![
                        Interval { pagesz: PAGE_SIZE, start: 0, end: config.file_pool_size },
                    ]
                    &&& Self::placed_at(a.heap, heap_placed(st), st.heap_start)
                    &&& Self::placed_at(a.anon_region, anon_placed(st), st.anon_start)
                    &&& Self::placed_at(a.file_region, file_placed(st), st.file_start)
                }
            }),
    {
        if heap_pool.intervals.len() == 0 || anon_pool.intervals.len() == 0
            || config.file_pool_size == 0 || config.file_pool_size % PAGE_SIZE != 0 {
            return None;
        }
        let ghost heap_plan = heap_pool.intervals@;
        let ghost anon_plan = anon_pool.intervals@;
        let file_pool = Pool::new_file_pool(config.file_pool_size);
        let ghost file_plan = file_pool.intervals@;
        let mut heap = Region::new(heap_pool, AllocType::BRK, 1);
        let mut anon_region = Region::new(anon_pool, AllocType::ANON, config.anon_ffa_size);
        let mut file_region = Region::new(file_pool, AllocType::FILE, config.file_ffa_size);
        proof {
            lemma_aligned_for_max(heap_plan, 0);
            lemma_aligned_for_max(anon_plan, 0);
            lemma_aligned_for_max(file_plan, 0);
            assert(max_pgsz_of(file_plan) == PAGE_SIZE) by {
                reveal_with_fuel(crate::htlb::max_pgsz_upto, 2);
            }
            assert(max_end_of(file_plan) == config.file_pool_size) by {
                reveal_with_fuel(crate::htlb::max_end_upto, 2);
            }
        }
        let d = Dims {
            heap_pgsz: heap.max_pgsz,
            heap_len: heap.len,
            anon_pgsz: anon_region.max_pgsz,
            anon_len: anon_region.len,
            file_pgsz: file_region.max_pgsz,
            file_len: file_region.len,
        };
        let st = scan_maps(brk, maps, &d);
        match st.stage {
            Stage::Failed => {
                return None;
            },
            Stage::Heap => {},
            Stage::Anon => {
                proof {
                    lemma_aligned_for_max(heap_plan, st.heap_start as int);
                }
                heap.init(st.heap_start);
            },
            Stage::File => {
                proof {
                    lemma_aligned_for_max(heap_plan, st.heap_start as int);
                    lemma_aligned_for_max(anon_plan, st.anon_start as int);
                }
                heap.init(st.heap_start);
                anon_region.init(st.anon_start);
            },
            Stage::Done => {
                proof {
                    lemma_aligned_for_max(heap_plan, st.heap_start as int);
                    lemma_aligned_for_max(anon_plan, st.anon_start as int);
                    lemma_aligned_for_max(file_plan, st.file_start as int);
                }
                heap.init(st.heap_start);
                anon_region.init(st.anon_start);
                file_region.init(st.file_start);
            },
        }
        Some(
            Allocator {
                heap,
                anon_region,
                file_region,
                analyze: config.analyze_regions,
                dryrun: config.dryrun,
                drained,
            },
        )
    }

    /// Marks the drain as done: from now on the managed paths are open.
    pub fn drain(&mut self)
        ensures
            final(self).drained,
            final(self).heap == old(self).heap,
            final(self).anon_region == old(self).anon_region,
            final(self).file_region == old(self).file_region,
            final(self).analyze == old(self).analyze,
            final(self).dryrun == old(self).dryrun,
    {
        self.drained = true;
    }

    /// Moves the program break to `addr` or, where that is `None`, by `incr`.
    pub fn do_brk(&mut self, addr: Option<usize>, incr: Option<isize>) -> (act: Action)
        requires
            old(self).wf(),
            addr.is_some() || incr.is_some(),
        ensures
            Self::did_brk(*old(self), addr, incr, act, *final(self)),
    {
        if !self.drained {
            return Action::Fail { errno: ENOMEM };
        }
        let oldbrk = self.heap.end;
        let target: Option<usize> = match addr {
            Some(a) => Some(a),
            None => oldbrk.checked_add_signed(incr.unwrap()),
        };
        if target.is_none() {
            return Action::Fail { errno: ENOMEM };
        }
        let newbrk = target.unwrap();
        if !self.heap.contains(newbrk) {
            return Action::Fail { errno: ENOMEM };
        }
        proof {
            lemma_one_span_free(self.heap);
            crate::backing::lemma_page_size_pow2();
        }
        if newbrk > oldbrk {
            let len = newbrk - oldbrk;
            proof {
                lemma_ceil_bounds(len as int, PAGE_SIZE as int);
            }
            if len > usize::MAX - (PAGE_SIZE - 1) {
                proof {
                    crate::misc::lemma_page_len_overflows(len);
                }
                return Action::Fail { errno: ENOMEM };
            }
            let want = align_up(len, PAGE_SIZE);
            if self.heap.max - oldbrk < want {
                return Action::Fail { errno: ENOMEM };
            }
            let prot = PROT_READ | PROT_WRITE;
            let flags = MAP_ANONYMOUS | MAP_PRIVATE;
            proof {
                assert((0x20i32 | 0x02i32) & 0x10i32 == 0) by (bit_vector);
                assert((0x20i32 | 0x02i32) & 0x10_0000i32 == 0) by (bit_vector);
                let sp = self.heap.free()[0];
                assert(fits(sp, oldbrk, want));
                assert(can_take(self.heap.free(), oldbrk, want));
            }
            self.heap.lock();
            let r = self.heap.alloc_range(oldbrk, len, prot, flags, self.dryrun);
            self.heap.unlock();
            proof {
                lemma_grown_one_span(old(self).heap, self.heap, oldbrk, want, r.addr);
            }
            Action::Return { ret: oldbrk, backing: r.backing }
        } else if newbrk < oldbrk {
            self.heap.lock();
            self.heap.free_range(newbrk, oldbrk - newbrk);
            self.heap.unlock();
            proof {
                lemma_shrunk_one_span(old(self).heap, self.heap, newbrk);
            }
            Action::Return { ret: oldbrk, backing: Vec::new() }
        } else {
            Action::Return { ret: oldbrk, backing: Vec::new() }
        }
    }

    /// Sets the program break to `addr`. Where that succeeds, the call
    /// returns 0.
    pub fn brk(&mut self, addr: usize) -> (act: Action)
        requires
            old(self).wf(),
        ensures
            Self::moved_brk(*old(self), Some(addr), None, 0, act, *final(self)),
    {
        match self.do_brk(Some(addr), None) {
            Action::Return { ret: _, backing } => Action::Return { ret: 0, backing },
            other => other,
        }
    }

    /// Moves the program break by `incr` bytes. Where that succeeds, the call
    /// returns the old break.
    pub fn sbrk(&mut self, incr: isize) -> (act: Action)
        requires
            old(self).wf(),
        ensures
            Self::did_brk(*old(self), None, Some(incr), act, *final(self)),
    {
        self.do_brk(None, Some(incr))
    }

    /// The region outside the heap that holds `addr`, if there is one.
    pub open spec fn region_of_addr(&self, addr: usize) -> Option<AllocType> {
        if self.anon_region.start <= addr < self.anon_region.max {
            Some(AllocType::ANON)
        } else if self.file_region.start <= addr < self.file_region.max {
            Some(AllocType::FILE)
        } else {
            None
        }
    }

    /// The region that serves a request without an address: the anonymous
    /// one where no file is given, else the file-backed one.
    pub open spec fn region_of_fd(fd: i32) -> AllocType {
        if fd == -1 {
            AllocType::ANON
        } else {
            AllocType::FILE
        }
    }

    /// The region that serves a request for `addr` and `fd`, if there is one.
    pub open spec fn region_of_req(&self, addr: usize, fd: i32) -> Option<AllocType> {
        if addr == 0 {
            Some(Self::region_of_fd(fd))
        } else {
            self.region_of_addr(addr)
        }
    }

    /// The region that holds `addr`, the heap included, if there is one.
    pub open spec fn kind_at(&self, addr: usize) -> Option<AllocType> {
        if self.heap.start <= addr < self.heap.max {
            Some(AllocType::BRK)
        } else {
            self.region_of_addr(addr)
        }
    }

    /// The region outside the heap that holds `addr`, if there is one.
    pub fn region_from_addr(&self, addr: usize) -> (r: Option<AllocType>)
        requires
            !(self.heap.start <= addr < self.heap.max),
        ensures
            r == self.region_of_addr(addr),
    {
        if self.anon_region.contains(addr) {
            Some(AllocType::ANON)
        } else if self.file_region.contains(addr) {
            Some(AllocType::FILE)
        } else {
            None
        }
    }

    /// The region that serves a request without an address.
    pub fn region_from_fd(fd: i32) -> (r: AllocType)
        ensures
            r == Self::region_of_fd(fd),
    {
        if fd == -1 {
            AllocType::ANON
        } else {
            AllocType::FILE
        }
    }

    /// The region that serves a request for `addr` and `fd`, if there is one.
    pub fn region_from_req(&self, addr: usize, fd: i32) -> (r: Option<AllocType>)
        requires
            addr != 0 ==> !(self.heap.start <= addr < self.heap.max),
        ensures
            r == self.region_of_req(addr, fd),
    {
        if addr == 0 {
            Some(Self::region_from_fd(fd))
        } else {
            self.region_from_addr(addr)
        }
    }

    /// What a call that changes protection or gives advice leads to: it is
    /// handed on for an address in the file-backed region or in none, and
    /// does nothing and returns 0 for one in the heap or the anonymous
    /// region.
    pub open spec fn passed_or_ignored(&self, addr: usize, act: Action) -> bool {
        match self.kind_at(addr) {
            None | Some(AllocType::FILE) => act == Action::Forward,
            _ => act matches Action::Return { ret, backing } && ret == 0 && backing@.len() == 0,
        }
    }

    fn pass_or_ignore(&self, addr: usize) -> (act: Action)
        ensures
            self.passed_or_ignored(addr, act),
    {
        if self.heap.contains(addr) || self.anon_region.contains(addr) {
            Action::Return { ret: 0, backing: Vec::new() }
        } else {
            Action::Forward
        }
    }

    /// Changes the protection of `len` bytes at `addr` to `prot`.
    pub fn mprotect(&self, addr: usize, len: usize, prot: i32) -> (act: Action)
        ensures
            self.passed_or_ignored(addr, act),
    {
        self.pass_or_ignore(addr)
    }

    /// Gives the advice `advice` on `len` bytes at `addr`.
    pub fn madvise(&self, addr: usize, len: usize, advice: i32) -> (act: Action)
        ensures
            self.passed_or_ignored(addr, act),
    {
        self.pass_or_ignore(addr)
    }

    /// Whether `other` differs from `self` at most in the region of kind
    /// `kind`.
    pub open spec fn same_but(&self, other: Allocator, kind: AllocType) -> bool {
        &&& self.same_settings(other)
        &&& kind != AllocType::BRK ==> self.heap == other.heap
        &&& kind != AllocType::ANON ==> self.anon_region == other.anon_region
        &&& kind != AllocType::FILE ==> self.file_region == other.file_region
    }

    /// The region of kind `kind`.
    pub open spec fn region(&self, kind: AllocType) -> Region {
        match kind {
            AllocType::BRK => self.heap,
            AllocType::ANON => self.anon_region,
            AllocType::FILE => self.file_region,
        }
    }

    /// What the caller of `mmap` has to see to: the address is not in the
    /// heap, and where a region serves the request, what `mmap_sound` asks.
    pub open spec fn mmap_pre(&self, addr: usize, len: usize, flags: i32, fd: i32) -> bool {
        &&& addr != 0 ==> !(self.heap.start <= addr < self.heap.max)
        &&& match self.region_of_req(addr, fd) {
            Some(kind) => serves(self.region(kind), self.drained, flags) ==> mmap_sound(
                self.region(kind),
                addr,
                len,
                flags,
            ),
            None => true,
        }
    }

    /// Whether `mmap` may be called with these arguments: see `mmap_pre`.
    pub fn mmap_is_sound(&self, addr: usize, len: usize, flags: i32, fd: i32) -> (r: bool)
        requires
            self.wf(),
        ensures
            r == self.mmap_pre(addr, len, flags, fd),
    {
        if addr != 0 && self.heap.contains(addr) {
            return false;
        }
        match self.region_from_req(addr, fd) {
            None => true,
            Some(AllocType::FILE) => is_mmap_sound(&self.file_region, addr, len, flags),
            Some(_) => {
                if !self.drained || has_nonstd_flags(flags) {
                    true
                } else {
                    is_mmap_sound(&self.anon_region, addr, len, flags)
                }
            },
        }
    }

    /// Maps `len` bytes. A request that no region serves is handed on; any
    /// other is served by its region as `mapped` says, and the other regions
    /// stay as they are.
    pub fn mmap(
        &mut self,
        addr: usize,
        len: usize,
        prot: i32,
        flags: i32,
        fd: i32,
        offset: i64,
    ) -> (act: Action)
        requires
            old(self).wf(),
            old(self).mmap_pre(addr, len, flags, fd),
        ensures
            final(self).wf(),
            match old(self).region_of_req(addr, fd) {
                Some(kind) => {
                    &&& kind != AllocType::BRK
                    &&& old(self).same_but(*final(self), kind)
                    &&& mapped(
                        old(self).region(kind),
                        old(self).drained,
                        old(self).dryrun,
                        addr,
                        len,
                        prot,
                        flags,
                        fd,
                        offset,
                        act,
                        final(self).region(kind),
                    )
                },
                None => act == Action::Forward && *final(self) == *old(self),
            },
    {
        let dryrun = self.dryrun;
        let drained = self.drained;
        match self.region_from_req(addr, fd) {
            None => Action::Forward,
            Some(AllocType::FILE) => mmap_in(
                &mut self.file_region,
                drained,
                dryrun,
                addr,
                len,
                prot,
                flags,
                fd,
                offset,
            ),
            Some(_) => mmap_in(
                &mut self.anon_region,
                drained,
                dryrun,
                addr,
                len,
                prot,
                flags,
                fd,
                offset,
            ),
        }
    }

    /// What the caller of `munmap` has to see to: the address is not in the
    /// heap, and the range ends in the region that holds its address.
    pub open spec fn munmap_pre(&self, addr: usize, len: usize) -> bool {
        &&& !(self.heap.start <= addr < self.heap.max)
        &&& match self.region_of_addr(addr) {
            Some(kind) => addr + len <= self.region(kind).max,
            None => true,
        }
    }

    /// Whether `munmap` may be called with these arguments: see
    /// `munmap_pre`.
    pub fn munmap_is_sound(&self, addr: usize, len: usize) -> (r: bool)
        requires
            self.wf(),
        ensures
            r == self.munmap_pre(addr, len),
    {
        if self.heap.contains(addr) {
            return false;
        }
        match self.region_from_addr(addr) {
            None => true,
            Some(AllocType::FILE) => self.file_region.max - addr >= len,
            Some(_) => self.anon_region.max - addr >= len,
        }
    }

    /// Unmaps `len` bytes at `addr`. A request outside the regions is handed
    /// on; any other is served by its region as `unmapped` says, and the
    /// other regions stay as they are.
    pub fn munmap(&mut self, addr: usize, len: usize) -> (act: Action)
        requires
            old(self).wf(),
            old(self).munmap_pre(addr, len),
        ensures
            final(self).wf(),
            match old(self).region_of_addr(addr) {
                Some(kind) => {
                    &&& kind != AllocType::BRK
                    &&& old(self).same_but(*final(self), kind)
                    &&& unmapped(
                        old(self).region(kind),
                        old(self).drained,
                        addr,
                        len,
                        act,
                        final(self).region(kind),
                    )
                },
                None => act == Action::Forward && *final(self) == *old(self),
            },
    {
        let drained = self.drained;
        match self.region_from_addr(addr) {
            None => Action::Forward,
            Some(AllocType::FILE) => munmap_in(&mut self.file_region, drained, addr, len),
            Some(_) => munmap_in(&mut self.anon_region, drained, addr, len),
        }
    }

    /// What the caller of `mremap` has to see to: the old address is not in
    /// the heap, and where a region holds it, what `mremap_sound` asks.
    pub open spec fn mremap_pre(
        &self,
        old_address: usize,
        old_size: usize,
        new_size: usize,
        flags: i32,
        new_address: usize,
    ) -> bool {
        &&& !(self.heap.start <= old_address < self.heap.max)
        &&& match self.region_of_addr(old_address) {
            Some(kind) => mremap_sound(
                self.region(kind),
                old_address,
                old_size,
                new_size,
                flags,
                new_address,
            ),
            None => true,
        }
    }

    /// Whether `mremap` may be called with these arguments: see
    /// `mremap_pre`.
    pub fn mremap_is_sound(
        &self,
        old_address: usize,
        old_size: usize,
        new_size: usize,
        flags: i32,
        new_address: usize,
    ) -> (r: bool)
        requires
            self.wf(),
        ensures
            r == self.mremap_pre(old_address, old_size, new_size, flags, new_address),
    {
        if self.heap.contains(old_address) {
            return false;
        }
        match self.region_from_addr(old_address) {
            None => true,
            Some(AllocType::FILE) => is_mremap_sound(
                &self.file_region,
                old_address,
                old_size,
                new_size,
                flags,
                new_address,
            ),
            Some(_) => is_mremap_sound(
                &self.anon_region,
                old_address,
                old_size,
                new_size,
                flags,
                new_address,
            ),
        }
    }

    /// Moves or resizes the mapping at `old_address`. A request outside the
    /// regions is handed on; any other is served by its region as `remapped`
    /// says, and the other regions stay as they are.
    pub fn mremap(
        &mut self,
        old_address: usize,
        old_size: usize,
        new_size: usize,
        flags: i32,
        new_address: usize,
    ) -> (act: Action)
        requires
            old(self).wf(),
            old(self).mremap_pre(old_address, old_size, new_size, flags, new_address),
        ensures
            final(self).wf(),
            match old(self).region_of_addr(old_address) {
                Some(kind) => {
                    &&& kind != AllocType::BRK
                    &&& old(self).same_but(*final(self), kind)
                    &&& remapped(
                        old(self).region(kind),
                        old(self).drained,
                        old(self).dryrun,
                        old_address,
                        old_size,
                        new_size,
                        flags,
                        new_address,
                        act,
                        final(self).region(kind),
                    )
                },
                None => act == Action::Forward && *final(self) == *old(self),
            },
    {
        let dryrun = self.dryrun;
        let drained = self.drained;
        match self.region_from_addr(old_address) {
            None => Action::Forward,
            Some(AllocType::FILE) => mremap_in(
                &mut self.file_region,
                drained,
                dryrun,
                old_address,
                old_size,
                new_size,
                flags,
                new_address,
            ),
            Some(_) => mremap_in(
                &mut self.anon_region,
                drained,
                dryrun,
                old_address,
                old_size,
                new_size,
                flags,
                new_address,
            ),
        }
    }
}

/// After the heap `pre` grew by `len` bytes at its high-water mark, it is one
/// span again, and the bytes were taken at the mark.
proof fn lemma_grown_one_span(pre: Region, post: Region, oldbrk: usize, len: usize, got: usize)
    requires
        pre.wf(),
        is_one_span(pre),
        oldbrk == pre.end,
        len > 0,
        oldbrk + len <= pre.max,
        post.wf(),
        post.start == pre.start,
        post.max == pre.max,
        crate::freemap::took(pre.free(), oldbrk, len, Some(got), post.free()),
        post.end == if got + len > pre.end {
            (got + len) as usize
        } else {
            pre.end
        },
    ensures
        got == oldbrk,
        is_one_span(post),
        post.end == oldbrk + len,
{
    lemma_one_span_free(pre);
    let sp = pre.free()[0];
    if oldbrk == 0 {
        let k = choose|k: int| #[trigger]
            crate::freemap::is_first_fit(pre.free(), oldbrk, len, k) && Some(got) == Some(
                pre.free()[k].start,
            );
        assert(k == 0);
    }
    assert forall|a: int| post.start <= a < post.end implies !#[trigger] covers(post.free(), a) by {
        lemma_free_set(pre.free(), a);
        lemma_free_set(post.free(), a);
    }
}

/// After the bytes from `newbrk` up to the high-water mark of the heap `pre`
/// were freed, the heap is one span again, and `newbrk` is its mark.
proof fn lemma_shrunk_one_span(pre: Region, post: Region, newbrk: usize)
    requires
        pre.wf(),
        is_one_span(pre),
        pre.start <= newbrk < pre.end,
        post.wf(),
        post.start == pre.start,
        post.max == pre.max,
        crate::freemap::gave(pre.free(), newbrk, (pre.end - newbrk) as usize, post.free()),
    ensures
        is_one_span(post),
        post.end == newbrk,
{
    assert forall|a: int| covers(post.free(), a) == (covers(pre.free(), a) || newbrk <= a
        < pre.end) by {
        lemma_free_set(pre.free(), a);
        lemma_free_set(post.free(), a);
    }
    assert(is_watermark(post.free(), post.start as int, newbrk as int, post.max as int)) by {
        if newbrk > pre.start {
            assert(!covers(pre.free(), newbrk - 1));
        }
    }
    lemma_watermark_unique(
        post.free(),
        post.start as int,
        post.end as int,
        newbrk as int,
        post.max as int,
    );
}

/// Growing the heap by whole base pages and shrinking it by as much again
/// leaves it as it was: after `sbrk(n)` succeeded and `sbrk(-n)` followed,
/// the high-water mark and the free ranges of the heap are those from
/// before.
pub proof fn lemma_sbrk_round_trip(
    before: Allocator,
    n: isize,
    grow: Action,
    mid: Allocator,
    shrink: Action,
    after: Allocator,
)
    requires
        before.wf(),
        n >= 0,
        n as int % PAGE_SIZE as int == 0,
        Allocator::did_brk(before, None, Some(n), grow, mid),
        grow is Return,
        Allocator::did_brk(mid, None, Some((-n) as isize), shrink, after),
    ensures
        shrink is Return,
        after.heap.end == before.heap.end,
        after.heap.free() == before.heap.free(),
{
    lemma_ceil_bounds(n as int, PAGE_SIZE as int);
    lemma_one_span_free(before.heap);
    lemma_one_span_free(after.heap);
}

} // verus!
