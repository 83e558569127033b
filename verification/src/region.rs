//! A managed region: a span of addresses with its page-size plan, its
//! free-map and the high-water mark of what was reserved in it.

use crate::backing::{
    backing, backing_requests, lemma_page_size_pow2, make_tile_request, tile_request, MapRequest,
};
use crate::consts::{MAP_FIXED, MAP_FIXED_NOREPLACE};
use crate::freemap::{
    can_take, covers, fits, free_set, gave, holds, is_first_fit, lemma_free_set, range_set,
    spans_wf, took, FreeMap, Span,
};
use crate::htlb::{
    aligned_for, is_tiling, max_end_of, max_pgsz_of, page_size_at, plan_wf, AllocType, Interval,
    Pool, PAGE_SIZE,
};
use crate::lock::Lock;
use crate::misc::{align_up, ceil_to, is_pow2};
use vstd::prelude::*;

verus! {

/// The heap, the anonymous or the file-backed region.
#[derive(Debug)]
pub struct Region {
    /// What the region backs.
    pub alloc_type: AllocType,
    /// The page-size plan.
    pub pool: Pool,
    /// The address at which the region begins.
    pub start: usize,
    /// The high-water mark: the end of the highest reserved range.
    pub end: usize,
    /// The address at which the region ends.
    pub max: usize,
    /// The largest page size of the plan.
    pub max_pgsz: usize,
    /// The length of the region.
    pub len: usize,
    /// The ranges that are not reserved.
    pub free_map: FreeMap,
    /// Serialises the changes to the region.
    pub lock: Lock,
}

/// Whether `end` is the high-water mark of a region `[start, max)` with the
/// free ranges `free`: all from `end` on is free, and the byte below `end` is
/// reserved, unless `end` is the region's start.
pub open spec fn is_watermark(free: Seq<Span>, start: int, end: int, max: int) -> bool {
    &&& start <= end <= max
    &&& forall|a: int| end <= a < max ==> covers(free, a)
    &&& end > start ==> !covers(free, end - 1)
}

/// What `alloc_range` hands back: the address of the reserved range, or
/// `usize::MAX` where nothing was reserved, and the mapping calls that back
/// the range.
#[derive(Debug)]
pub struct Allocation {
    pub addr: usize,
    pub backing: Vec<MapRequest>,
}

/// The length of a request, rounded up to whole base pages.
pub open spec fn page_len(len: usize) -> usize {
    ceil_to(len as int, PAGE_SIZE as int) as usize
}

/// A range taken out of the free ranges of a region keeps them in the region
/// and moves the high-water mark up to the end of the range, if that lies
/// above it.
proof fn lemma_take_watermark(
    free0: Seq<Span>,
    free1: Seq<Span>,
    start: int,
    end0: int,
    max: int,
    a: int,
    len: int,
)
    requires
        free_set(free1) == free_set(free0).difference(range_set(a, a + len)),
        is_watermark(free0, start, end0, max),
        forall|x: int| covers(free0, x) ==> start <= x < max,
        start <= a,
        len >= 0,
        a + len <= max,
    ensures
        forall|x: int| covers(free1, x) ==> start <= x < max,
        is_watermark(
            free1,
            start,
            if len > 0 && a + len > end0 {
                a + len
            } else {
                end0
            },
            max,
        ),
{
    assert forall|x: int| covers(free1, x) == (covers(free0, x) && !(a <= x < a + len)) by {
        lemma_free_set(free0, x);
        lemma_free_set(free1, x);
    }
}

/// After a range was freed, the high-water mark is the start of the last free
/// range if that range reaches the region's end, and the region's end
/// otherwise.
proof fn lemma_give_watermark(free1: Seq<Span>, start: int, max: int)
    requires
        spans_wf(free1),
        forall|x: int| covers(free1, x) ==> start <= x < max,
        start <= max,
    ensures
        is_watermark(
            free1,
            start,
            if free1.len() > 0 && free1.last().end == max {
                free1.last().start as int
            } else {
                max
            },
            max,
        ),
{
    let n = free1.len() as int;
    if n > 0 {
        let last = free1[n - 1];
        assert(holds(last, last.start as int));
        assert(covers(free1, last.start as int));
        assert(holds(last, last.end - 1));
        assert(covers(free1, last.end - 1));
    }
    if n > 0 && free1[n - 1].end == max {
        let last = free1[n - 1];
        assert forall|x: int| last.start <= x < max implies covers(free1, x) by {
            assert(holds(free1[n - 1], x));
        }
        if last.start > start && covers(free1, last.start - 1) {
            let k = choose|k: int| 0 <= k < free1.len() && (#[trigger] free1[k]).start <= last.start - 1 < free1[k].end;
            if k < n - 1 {
                assert(free1[k].end < free1[n - 1].start);
            }
        }
    } else {
        if max > start && covers(free1, max - 1) {
            let k = choose|k: int| 0 <= k < free1.len() && (#[trigger] free1[k]).start <= max - 1 < free1[k].end;
            assert(holds(free1[k], free1[k].end - 1));
            assert(covers(free1, free1[k].end - 1));
            if k < n - 1 {
                assert(free1[k].end < free1[n - 1].start);
                assert(holds(free1[n - 1], free1[n - 1].start as int));
                assert(covers(free1, free1[n - 1].start as int));
            }
        }
    }
}

/// A region has one high-water mark.
pub proof fn lemma_watermark_unique(free: Seq<Span>, start: int, e1: int, e2: int, max: int)
    requires
        is_watermark(free, start, e1, max),
        is_watermark(free, start, e2, max),
    ensures
        e1 == e2,
{
    if e1 < e2 {
        assert(covers(free, e2 - 1));
    }
    if e2 < e1 {
        assert(covers(free, e1 - 1));
    }
}

/// A request that fits a free range of a region lies in the region.
proof fn lemma_fit_in_region(free: Seq<Span>, start: int, max: int, hint: usize, len: usize, i: int)
    requires
        spans_wf(free),
        forall|x: int| covers(free, x) ==> start <= x < max,
        0 <= i < free.len(),
        fits(free[i], hint, len),
    ensures
        hint != 0 ==> start <= hint && hint + len <= max,
        hint == 0 ==> start <= free[i].start && free[i].start + len <= max,
{
    let sp = free[i];
    assert(holds(sp, sp.start as int));
    assert(covers(free, sp.start as int));
    assert(holds(sp, sp.end - 1));
    assert(covers(free, sp.end - 1));
}

impl Region {
    /// The intervals of the region's page-size plan.
    pub open spec fn plan(&self) -> Seq<Interval> {
        self.pool.intervals@
    }

    /// The region's free ranges, lowest first.
    pub open spec fn free(&self) -> Seq<Span> {
        self.free_map@
    }

    /// Whether the region's lock is held.
    pub open spec fn is_locked(&self) -> bool {
        !self.lock.is_free()
    }

    /// Whether the region has not been placed yet.
    pub open spec fn is_unplaced(&self) -> bool {
        self.start == 0 && self.end == 0 && self.max == 0 && self.free().len() == 0
    }

    /// Whether the address `a` is reserved: it lies in the region and is not
    /// free.
    pub open spec fn is_reserved(&self, a: int) -> bool {
        self.start <= a < self.max && !covers(self.free(), a)
    }

    /// The region's invariant. The plan is well-formed and tiles the region
    /// without a gap, and `max_pgsz` and `len` are its largest page size and
    /// its length. The free ranges are
    /// sorted, disjoint, coalesced and lie in `[start, max)`; `end` is the
    /// high-water mark. A placed region spans `len` bytes from an address
    /// aligned for its plan.
    pub open spec fn wf(&self) -> bool {
        &&& plan_wf(self.plan())
        &&& is_tiling(self.plan())
        &&& self.max_pgsz == max_pgsz_of(self.plan())
        &&& self.len == max_end_of(self.plan())
        &&& spans_wf(self.free())
        &&& forall|a: int| covers(self.free(), a) ==> self.start <= a < self.max
        &&& is_watermark(self.free(), self.start as int, self.end as int, self.max as int)
        &&& self.is_unplaced() || (self.max == self.start + self.len && aligned_for(
            self.plan(),
            self.start as int,
        ))
    }

    /// An unplaced region for `pool`, with room for `len` free ranges. Its
    /// lock is free.
    pub fn new(pool: Pool, alloc_type: AllocType, len: usize) -> (r: Region)
        requires
            pool.wf(),
        ensures
            r.wf(),
            r.is_unplaced(),
            !r.is_locked(),
            r.alloc_type == alloc_type,
            r.plan() == pool.intervals@,
    {
        let free_map = FreeMap::with_capacity(len);
        let (max_pgsz, len) = pool.extent();
        Region {
            pool,
            alloc_type,
            start: 0,
            end: 0,
            max: 0,
            max_pgsz,
            len,
            free_map,
            lock: Lock::new(true),
        }
    }

    /// Places the region at `start`: all of `[start, start + len)` is free.
    pub fn init(&mut self, start: usize)
        requires
            old(self).wf(),
            old(self).is_unplaced(),
            start + old(self).len <= usize::MAX,
            aligned_for(old(self).plan(), start as int),
        ensures
            final(self).wf(),
            final(self).start == start,
            final(self).end == start,
            final(self).max == start + old(self).len,
            free_set(final(self).free()) == range_set(start as int, start + old(self).len),
            final(self).plan() == old(self).plan(),
            final(self).len == old(self).len,
            final(self).max_pgsz == old(self).max_pgsz,
            final(self).alloc_type == old(self).alloc_type,
            final(self).is_locked() == old(self).is_locked(),
    {
        self.start = start;
        self.end = self.start;
        self.max = self.start + self.len;
        self.free_map.give(self.start, self.len);
        proof {
            assert(free_set(old(self).free()) =~= Set::<int>::empty()) by {
                assert forall|a: int| !free_set(old(self).free()).contains(a) by {
                    crate::freemap::lemma_free_set(old(self).free(), a);
                }
            }
            assert(free_set(self.free()) =~= range_set(start as int, start + old(self).len));
            assert forall|a: int| covers(self.free(), a) == (start <= a < start + old(
                self,
            ).len) by {
                crate::freemap::lemma_free_set(self.free(), a);
            }
        }
    }

    /// Whether `addr` lies in the region.
    pub fn contains(&self, addr: usize) -> (r: bool)
        ensures
            r == (self.start <= addr < self.max),
    {
        addr >= self.start && addr < self.max
    }

    /// Takes the region's lock.
    pub fn lock(&mut self)
        requires
            !old(self).is_locked(),
        ensures
            final(self).is_locked(),
            final(self).same_but_lock(*old(self)),
    {
        self.lock.lock();
    }

    /// Releases the region's lock.
    pub fn unlock(&mut self)
        ensures
            !final(self).is_locked(),
            final(self).same_but_lock(*old(self)),
    {
        self.lock.unlock();
    }

    /// Whether `self` and `other` differ at most in the state of their locks.
    pub open spec fn same_but_lock(&self, other: Region) -> bool {
        &&& self.alloc_type == other.alloc_type
        &&& self.plan() == other.plan()
        &&& self.free() == other.free()
        &&& self.start == other.start
        &&& self.end == other.end
        &&& self.max == other.max
        &&& self.max_pgsz == other.max_pgsz
        &&& self.len == other.len
    }

    /// Whether every byte of `[addr, addr + len)` is reserved.
    pub open spec fn holds_reserved(&self, addr: usize, len: usize) -> bool {
        forall|a: int| addr <= a < addr + len ==> #[trigger] self.is_reserved(a)
    }

    /// Whether a request finds no place: the hinted range is not free, and
    /// either the flags forbid another place or no range is long enough.
    pub open spec fn alloc_fails(&self, addr: usize, len: usize, flags: i32) -> bool {
        &&& !can_take(self.free(), addr, len)
        &&& flags & MAP_FIXED_NOREPLACE != 0 || (flags & MAP_FIXED == 0 && !can_take(
            self.free(),
            0,
            len,
        ))
    }

    /// Whether a request lands on what the region holds already: the hinted
    /// range is not free, and the flags ask for that very range, over what is
    /// there.
    pub open spec fn alloc_overwrites(&self, addr: usize, len: usize, flags: i32) -> bool {
        &&& !can_take(self.free(), addr, len)
        &&& flags & MAP_FIXED_NOREPLACE == 0
        &&& flags & MAP_FIXED != 0
    }

    /// Whether `other` has the placement, the plan and the lock state of
    /// `self`.
    pub open spec fn same_frame(&self, other: Region) -> bool {
        &&& self.alloc_type == other.alloc_type
        &&& self.plan() == other.plan()
        &&& self.start == other.start
        &&& self.max == other.max
        &&& self.max_pgsz == other.max_pgsz
        &&& self.len == other.len
        &&& self.is_locked() == other.is_locked()
    }

    /// Whether `other` is in the state of `self`: the same placement, plan
    /// and lock state, the same free ranges and the same high-water mark.
    pub open spec fn same_state(&self, other: Region) -> bool {
        &&& self.same_frame(other)
        &&& self.free() == other.free()
        &&& self.end == other.end
    }

    /// What `alloc_range` does to the region `pre`: `r_addr` and `r_backing`
    /// are its result and `post` the region afterwards. The length counts in whole base pages.
    /// A request that finds no place fails and changes nothing; one that
    /// lands on what the region holds already returns its address and changes
    /// nothing. Any other is served from the hinted range if that is free,
    /// and else from the lowest range that is long enough; the high-water
    /// mark rises to the end of the reserved range if that lies above it,
    /// and unless the region is file-backed the range gets its backing.
    pub open spec fn allocated(
        pre: Region,
        addr: usize,
        len: usize,
        prot: i32,
        flags: i32,
        dryrun: bool,
        r_addr: usize,
        r_backing: Seq<MapRequest>,
        post: Region,
    ) -> bool {
        let n = page_len(len);
        &&& post.wf()
        &&& pre.same_frame(post)
        &&& if pre.alloc_fails(addr, n, flags) {
            &&& r_addr == usize::MAX
            &&& r_backing.len() == 0
            &&& post.free() == pre.free()
            &&& post.end == pre.end
        } else if pre.alloc_overwrites(addr, n, flags) {
            &&& r_addr == addr
            &&& r_backing.len() == 0
            &&& post.free() == pre.free()
            &&& post.end == pre.end
        } else {
            &&& took(
                pre.free(),
                if can_take(pre.free(), addr, n) {
                    addr
                } else {
                    0
                },
                n,
                Some(r_addr),
                post.free(),
            )
            &&& pre.start <= r_addr
            &&& r_addr + n <= pre.max
            &&& post.end == if n > 0 && r_addr + n > pre.end {
                (r_addr + n) as usize
            } else {
                pre.end
            }
            &&& r_backing == if pre.alloc_type == AllocType::FILE {
                Seq::<MapRequest>::empty()
            } else {
                backing(
                    pre.plan(),
                    pre.start as int,
                    r_addr as int,
                    r_addr + n,
                    prot,
                    flags,
                    dryrun,
                )
            }
        }
    }

    /// What `free_range` does to the region `pre`: in `post` the range
    /// `[start, start + len)` is free as well, and the high-water mark is
    /// that of the new free ranges: the start of the last of them if that
    /// one reaches the region's end, and the region's end otherwise.
    pub open spec fn freed(pre: Region, start: usize, len: usize, post: Region) -> bool {
        &&& post.wf()
        &&& pre.same_frame(post)
        &&& gave(pre.free(), start, len, post.free())
        &&& post.end == if post.free().len() > 0 && post.free().last().end == post.max {
            post.free().last().start
        } else {
            post.max
        }
    }

    /// The page size that the plan gives the address `addr` of the region.
    pub fn get_addr_pagesz(&self, addr: usize) -> (r: usize)
        requires
            self.start <= addr,
        ensures
            r == page_size_at(self.plan(), addr - self.start),
    {
        let offset = addr - self.start;
        self.pool.pagesz_at(offset)
    }

    /// The mapping call that backs the tile of `pagesz` bytes at `addr`.
    pub fn alloc_tile(&self, addr: usize, pagesz: usize, prot: i32, flags: i32, dryrun: bool) -> (r:
        MapRequest)
        requires
            is_pow2(pagesz),
        ensures
            r == tile_request(addr, pagesz, prot, flags, dryrun),
    {
        make_tile_request(addr, pagesz, prot, flags, dryrun)
    }

    /// Whether every byte of `[addr, addr + len)` is reserved.
    pub fn is_range_reserved(&self, addr: usize, len: usize) -> (r: bool)
        requires
            self.wf(),
        ensures
            r == self.holds_reserved(addr, len),
    {
        if len == 0 {
            return true;
        }
        if addr < self.start || addr > self.max || self.max - addr < len {
            proof {
                let a = if addr < self.start {
                    addr as int
                } else {
                    addr + len - 1
                };
                assert(!self.is_reserved(a));
            }
            return false;
        }
        let free = self.free_map.overlaps(addr, len);
        proof {
            if free {
                let a = choose|a: int| addr <= a < addr + len && #[trigger] covers(self.free(), a);
                assert(!self.is_reserved(a));
            }
        }
        !free
    }

    /// Reserves `len` bytes, in whole base pages, at `addr` or, where the
    /// flags allow it and `addr` is not free, anywhere.
    pub fn alloc_range(&mut self, addr: usize, len: usize, prot: i32, flags: i32, dryrun: bool) -> (r:
        Allocation)
        requires
            old(self).wf(),
            old(self).is_locked(),
            ceil_to(len as int, PAGE_SIZE as int) <= usize::MAX,
            old(self).alloc_overwrites(addr, page_len(len), flags) ==> old(self).holds_reserved(
                addr,
                page_len(len),
            ),
        ensures
            Self::allocated(*old(self), addr, len, prot, flags, dryrun, r.addr, r.backing@, *final(self)),
    {
        proof {
            lemma_page_size_pow2();
        }
        let len = align_up(len, PAGE_SIZE);
        let ghost free0 = self.free();
        let mut hint = addr;
        let mut taken = self.free_map.take(hint, len);
        if taken.is_none() {
            if (flags & MAP_FIXED_NOREPLACE) != 0 {
                return Allocation { addr: usize::MAX, backing: Vec::new() };
            } else if (flags & MAP_FIXED) != 0 {
                return Allocation { addr, backing: Vec::new() };
            } else {
                hint = 0;
                taken = self.free_map.take(hint, len);
                if taken.is_none() {
                    return Allocation { addr: usize::MAX, backing: Vec::new() };
                }
            }
        }
        let start = taken.unwrap();
        proof {
            let i = choose|i: int| 0 <= i < free0.len() && fits(#[trigger] free0[i], hint, len) && (
            hint == 0 ==> start == free0[i].start);
            assert(exists|i: int| 0 <= i < free0.len() && fits(#[trigger] free0[i], hint, len) && (
            hint == 0 ==> start == free0[i].start)) by {
                if hint == 0 {
                    let k = choose|k: int| #[trigger]
                        is_first_fit(free0, hint, len, k) && taken == Some(free0[k].start);
                    assert(fits(free0[k], hint, len));
                }
            }
            lemma_fit_in_region(free0, self.start as int, self.max as int, hint, len, i);
            lemma_take_watermark(
                free0,
                self.free(),
                self.start as int,
                self.end as int,
                self.max as int,
                start as int,
                len as int,
            );
        }
        let end = start + len;
        if len > 0 && end > self.end {
            self.end = end;
        }
        if self.alloc_type == AllocType::FILE {
            return Allocation { addr: start, backing: Vec::new() };
        }
        let backing = backing_requests(&self.pool, self.start, start, end, prot, flags, dryrun);
        Allocation { addr: start, backing }
    }

    /// Frees `[start, start + len)` and lowers the high-water mark to the new
    /// top of what is reserved.
    pub fn free_range(&mut self, start: usize, len: usize)
        requires
            old(self).wf(),
            old(self).is_locked(),
            start + len <= usize::MAX,
            len > 0 ==> old(self).start <= start && start + len <= old(self).max,
        ensures
            Self::freed(*old(self), start, len, *final(self)),
    {
        let ghost free0 = self.free();
        self.free_map.give(start, len);
        proof {
            assert forall|x: int| covers(self.free(), x) implies self.start <= x < self.max by {
                lemma_free_set(free0, x);
                lemma_free_set(self.free(), x);
            }
            lemma_give_watermark(self.free(), self.start as int, self.max as int);
            if len == 0 {
                assert(free_set(self.free()) =~= free_set(free0));
                crate::freemap::lemma_spans_unique(self.free(), free0);
            }
        }
        let n = self.free_map.len();
        if n > 0 && self.free_map.get(n - 1).end == self.max {
            self.end = self.free_map.get(n - 1).start;
        } else {
            self.end = self.max;
        }
    }

    /// The region's free ranges.
    pub fn free_map(&self) -> (r: &FreeMap)
        ensures
            r@ == self.free(),
    {
        &self.free_map
    }
}

/// The range that a successful `alloc_range` reserved: `len` bytes in whole
/// base pages from its result; nothing where it failed.
pub open spec fn reserved_by(r_addr: usize, len: usize) -> Set<int> {
    if r_addr == usize::MAX {
        Set::empty()
    } else {
        range_set(r_addr as int, r_addr + page_len(len))
    }
}

/// `alloc_range` keeps the books: if the free ranges were the region less
/// the set `reserved`, then afterwards they are the region less `reserved`
/// and the range that the call reserved.
pub proof fn lemma_alloc_range_accounts(
    pre: Region,
    addr: usize,
    len: usize,
    prot: i32,
    flags: i32,
    dryrun: bool,
    r_addr: usize,
    r_backing: Seq<MapRequest>,
    post: Region,
    reserved: Set<int>,
)
    requires
        pre.wf(),
        pre.alloc_overwrites(addr, page_len(len), flags) ==> pre.holds_reserved(addr, page_len(len)),
        free_set(pre.free()) == range_set(pre.start as int, pre.max as int).difference(reserved),
        Region::allocated(pre, addr, len, prot, flags, dryrun, r_addr, r_backing, post),
    ensures
        free_set(post.free()) == range_set(post.start as int, post.max as int).difference(
            reserved.union(reserved_by(r_addr, len)),
        ),
{
    let n = page_len(len);
    let region = range_set(pre.start as int, pre.max as int);
    assert forall|a: int|
        free_set(post.free()).contains(a) == region.difference(
            reserved.union(reserved_by(r_addr, len)),
        ).contains(a) by {
        lemma_free_set(pre.free(), a);
        lemma_free_set(post.free(), a);
        if pre.alloc_overwrites(addr, n, flags) && addr <= a < addr + n {
            assert(pre.is_reserved(a));
        }
    }
    assert(free_set(post.free()) =~= region.difference(reserved.union(reserved_by(r_addr, len))));
}

/// `free_range` keeps the books: if the free ranges were the region less
/// the set `reserved`, then afterwards they are the region less what is left
/// of `reserved` without the freed range.
pub proof fn lemma_free_range_accounts(
    pre: Region,
    start: usize,
    len: usize,
    post: Region,
    reserved: Set<int>,
)
    requires
        pre.wf(),
        len > 0 ==> pre.start <= start && start + len <= pre.max,
        free_set(pre.free()) == range_set(pre.start as int, pre.max as int).difference(reserved),
        Region::freed(pre, start, len, post),
    ensures
        free_set(post.free()) == range_set(post.start as int, post.max as int).difference(
            reserved.difference(range_set(start as int, start + len)),
        ),
{
    let region = range_set(pre.start as int, pre.max as int);
    assert(free_set(post.free()) =~= region.difference(
        reserved.difference(range_set(start as int, start + len)),
    ));
}

/// A request that must not replace a mapping never succeeds on a reserved
/// byte: where `alloc_range` with `MAP_FIXED_NOREPLACE` returns an address,
/// every byte of the range was free before.
pub proof fn lemma_noreplace_takes_free_only(
    pre: Region,
    addr: usize,
    len: usize,
    prot: i32,
    flags: i32,
    dryrun: bool,
    r_addr: usize,
    r_backing: Seq<MapRequest>,
    post: Region,
)
    requires
        pre.wf(),
        flags & MAP_FIXED_NOREPLACE != 0,
        Region::allocated(pre, addr, len, prot, flags, dryrun, r_addr, r_backing, post),
        r_addr != usize::MAX,
    ensures
        forall|a: int| r_addr <= a < r_addr + page_len(len) ==> !#[trigger] pre.is_reserved(a),
        addr != 0 ==> r_addr == addr,
{
    let n = page_len(len);
    let hint = if can_take(pre.free(), addr, n) {
        addr
    } else {
        0
    };
    lemma_taken_was_free(pre.free(), hint, n, r_addr, post.free());
}

/// What `take` hands out was free.
pub proof fn lemma_taken_was_free(
    before: Seq<Span>,
    hint: usize,
    len: usize,
    addr: usize,
    after: Seq<Span>,
)
    requires
        took(before, hint, len, Some(addr), after),
    ensures
        forall|a: int| addr <= a < addr + len ==> #[trigger] covers(before, a),
{
    let i = choose|i: int| 0 <= i < before.len() && fits(#[trigger] before[i], hint, len) && (hint
        == 0 ==> addr == before[i].start);
    assert(exists|i: int| 0 <= i < before.len() && fits(#[trigger] before[i], hint, len) && (hint
        == 0 ==> addr == before[i].start)) by {
        if hint == 0 {
            let k = choose|k: int| #[trigger]
                is_first_fit(before, hint, len, k) && Some(addr) == Some(before[k].start);
            assert(fits(before[k], hint, len));
        }
    }
    assert forall|a: int| addr <= a < addr + len implies #[trigger] covers(before, a) by {
        assert(holds(before[i], a));
    }
}

/// A request for a fixed address that lies wholly in what the region holds
/// already returns that address and leaves the region as it was.
pub proof fn lemma_fixed_on_reserved_changes_nothing(
    pre: Region,
    addr: usize,
    len: usize,
    prot: i32,
    flags: i32,
    dryrun: bool,
    r_addr: usize,
    r_backing: Seq<MapRequest>,
    post: Region,
)
    requires
        pre.wf(),
        flags & MAP_FIXED != 0,
        flags & MAP_FIXED_NOREPLACE == 0,
        addr != 0,
        page_len(len) > 0,
        pre.holds_reserved(addr, page_len(len)),
        Region::allocated(pre, addr, len, prot, flags, dryrun, r_addr, r_backing, post),
    ensures
        r_addr == addr,
        r_backing.len() == 0,
        post.free() == pre.free(),
        post.end == pre.end,
        pre.same_frame(post),
{
    let n = page_len(len);
    if can_take(pre.free(), addr, n) {
        let i = choose|i: int| 0 <= i < pre.free().len() && fits(#[trigger] pre.free()[i], addr, n);
        assert(holds(pre.free()[i], addr as int));
        assert(covers(pre.free(), addr as int));
        assert(pre.is_reserved(addr as int));
    }
}

/// A request for a fixed address whose range is free reserves that range:
/// with `MAP_FIXED`, `alloc_range` at a free address returns the address,
/// and the range is free no longer.
pub proof fn lemma_fixed_on_free_reserves(
    pre: Region,
    addr: usize,
    len: usize,
    prot: i32,
    flags: i32,
    dryrun: bool,
    r_addr: usize,
    r_backing: Seq<MapRequest>,
    post: Region,
)
    requires
        pre.wf(),
        flags & MAP_FIXED != 0,
        addr != 0,
        can_take(pre.free(), addr, page_len(len)),
        Region::allocated(pre, addr, len, prot, flags, dryrun, r_addr, r_backing, post),
    ensures
        r_addr == addr,
        forall|a: int| addr <= a < addr + page_len(len) ==> !#[trigger] covers(post.free(), a),
{
    assert forall|a: int| addr <= a < addr + page_len(len) implies !#[trigger] covers(
        post.free(),
        a,
    ) by {
        lemma_free_set(post.free(), a);
        lemma_free_set(pre.free(), a);
    }
}

/// One call on a region: a request to reserve with its result, or a request
/// to free.
#[derive(Debug, Clone, Copy, PartialEq, Eq, Structural)]
pub enum RangeCall {
    Alloc { addr: usize, len: usize, prot: i32, flags: i32, dryrun: bool, r_addr: usize },
    Free { start: usize, len: usize },
}

/// Whether the call `c`, made as its function allows, leads from the region
/// `pre` to the region `post`.
pub open spec fn stepped(pre: Region, c: RangeCall, post: Region) -> bool {
    match c {
        RangeCall::Alloc { addr, len, prot, flags, dryrun, r_addr } => {
            &&& pre.alloc_overwrites(addr, page_len(len), flags) ==> pre.holds_reserved(
                addr,
                page_len(len),
            )
            &&& exists|b: Seq<MapRequest>| #[trigger]
                Region::allocated(pre, addr, len, prot, flags, dryrun, r_addr, b, post)
        },
        RangeCall::Free { start, len } => {
            &&& len > 0 ==> pre.start <= start && start + len <= pre.max
            &&& Region::freed(pre, start, len, post)
        },
    }
}

/// What the first `n` calls of `calls` leave reserved: each request to
/// reserve adds its range, each request to free takes its range away.
pub open spec fn reserved_upto(calls: Seq<RangeCall>, n: int) -> Set<int>
    decreases n,
{
    if n <= 0 || n > calls.len() {
        Set::empty()
    } else {
        let before = reserved_upto(calls, n - 1);
        match calls[n - 1] {
            RangeCall::Alloc { addr, len, prot, flags, dryrun, r_addr } => before.union(
                reserved_by(r_addr, len),
            ),
            RangeCall::Free { start, len } => before.difference(
                range_set(start as int, start + len),
            ),
        }
    }
}

/// Through any sequence of calls on a region that starts out all free, the
/// free ranges are the region less what the calls left reserved.
/// `states[i]` is the region before the `i`-th call, and the last of
/// `states` the region after all of them.
pub proof fn lemma_free_is_region_less_reserved(
    states: Seq<Region>,
    calls: Seq<RangeCall>,
    n: int,
)
    requires
        states.len() == calls.len() + 1,
        0 <= n <= calls.len(),
        states[0].wf(),
        free_set(states[0].free()) == range_set(states[0].start as int, states[0].max as int),
        forall|i: int|
            0 <= i < calls.len() ==> stepped(#[trigger] states[i], calls[i], states[i + 1]),
    ensures
        states[n].wf(),
        states[n].start == states[0].start,
        states[n].max == states[0].max,
        free_set(states[n].free()) == range_set(
            states[0].start as int,
            states[0].max as int,
        ).difference(reserved_upto(calls, n)),
    decreases n,
{
    let region = range_set(states[0].start as int, states[0].max as int);
    if n == 0 {
        assert(free_set(states[0].free()) =~= region.difference(Set::<int>::empty()));
    } else {
        lemma_free_is_region_less_reserved(states, calls, n - 1);
        let pre = states[n - 1];
        let post = states[n];
        let before = reserved_upto(calls, n - 1);
        assert(stepped(states[n - 1], calls[n - 1], states[n - 1 + 1]));
        match calls[n - 1] {
            RangeCall::Alloc { addr, len, prot, flags, dryrun, r_addr } => {
                let b = choose|b: Seq<MapRequest>| #[trigger]
                    Region::allocated(pre, addr, len, prot, flags, dryrun, r_addr, b, post);
                lemma_alloc_range_accounts(
                    pre,
                    addr,
                    len,
                    prot,
                    flags,
                    dryrun,
                    r_addr,
                    b,
                    post,
                    before,
                );
            },
            RangeCall::Free { start, len } => {
                lemma_free_range_accounts(pre, start, len, post, before);
            },
        }
    }
}

} // verus!
