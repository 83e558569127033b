//! The mappings that back a reserved range: one request per tile of the
//! page-size plan.

use crate::consts::{
    MAP_FIXED_NOREPLACE, MAP_HUGETLB, MAP_HUGE_SHIFT, PROT_READ, PROT_WRITE, EEXIST, MAP_FAILED,
};
use crate::htlb::{
    aligned_for, lemma_max_upto, lemma_page_size_in_gap, lemma_page_size_in_interval, max_end_of,
    page_size_at, plan_wf, Interval, Pool, PAGE_SIZE,
};
use crate::misc::{
    align_down, floor_to, is_pow2, lemma_floor_between_multiples, lemma_floor_bounds,
    lemma_multiple_of_divisor, lemma_pow2_divides, lemma_sum_of_multiples,
};
use vstd::prelude::*;

verus! {

/// The arguments of one mapping call.
#[derive(Debug, Clone, Copy, PartialEq, Eq, Structural)]
pub struct MapRequest {
    pub addr: usize,
    pub len: usize,
    pub prot: i32,
    pub flags: i32,
    pub fd: i32,
    pub offset: i64,
}

/// The base-two logarithm of `n`, rounded down; 0 for `n <= 1`.
pub open spec fn log2(n: int) -> int
    decreases n,
{
    if n <= 1 {
        0
    } else {
        1 + log2(n / 2)
    }
}

/// The base-two logarithm of a page size, as the mapping flags encode it.
pub fn page_shift(pagesz: usize) -> (r: i32)
    ensures
        r == log2(pagesz as int),
        0 <= r < 64,
{
    let mut v: usize = pagesz;
    let mut k: i32 = 0;
    proof {
        vstd::arithmetic::power2::lemma2_to64();
        assert(vstd::arithmetic::power2::pow2(0) == 1);
        assert(v as int * vstd::arithmetic::power2::pow2(0) == v) by (nonlinear_arith)
            requires
                vstd::arithmetic::power2::pow2(0) == 1,
        ;
    }
    while v > 1
        invariant
            0 <= k < 64,
            log2(pagesz as int) == k + log2(v as int),
            v as int * vstd::arithmetic::power2::pow2(k as nat) <= usize::MAX,
        decreases v,
    {
        proof {
            vstd::arithmetic::power2::lemma_pow2_unfold((k + 1) as nat);
            vstd::arithmetic::power2::lemma2_to64();
            let p = vstd::arithmetic::power2::pow2(k as nat) as int;
            assert((v / 2) as int * (2 * p) <= v as int * p) by (nonlinear_arith)
                requires
                    v >= 0,
                    p >= 0,
            ;
            assert(2 * p <= v as int * p) by (nonlinear_arith)
                requires
                    v >= 2,
                    p >= 0,
            ;
            if k >= 63 {
                vstd::arithmetic::power2::lemma_pow2_strictly_increases(63, (k + 1) as nat);
            }
        }
        v = v / 2;
        k = k + 1;
    }
    proof {
        vstd::arithmetic::power2::lemma2_to64();
    }
    k
}

/// The flags of the mapping call for a tile of `pagesz` bytes: the caller's,
/// never over an existing mapping, and for a tile larger than the base page
/// size, unless this is a dry run, huge pages of that size.
pub open spec fn tile_flags(flags: i32, pagesz: usize, dryrun: bool) -> i32 {
    if pagesz > PAGE_SIZE && !dryrun {
        (flags | MAP_FIXED_NOREPLACE) | (MAP_HUGETLB | ((log2(pagesz as int) as i32)
            << MAP_HUGE_SHIFT))
    } else {
        flags | MAP_FIXED_NOREPLACE
    }
}

/// The mapping call for the tile of `pagesz` bytes that holds `addr`.
pub open spec fn tile_request(addr: usize, pagesz: usize, prot: i32, flags: i32, dryrun: bool) -> MapRequest {
    MapRequest {
        addr: floor_to(addr as int, pagesz as int) as usize,
        len: pagesz,
        prot: prot | PROT_READ | PROT_WRITE,
        flags: tile_flags(flags, pagesz, dryrun),
        fd: -1i32,
        offset: 0,
    }
}

/// The mapping call for the tile of `pagesz` bytes that holds `addr`: at the
/// tile's start, readable and writable, anonymous.
pub fn make_tile_request(addr: usize, pagesz: usize, prot: i32, flags: i32, dryrun: bool) -> (r:
    MapRequest)
    requires
        is_pow2(pagesz),
    ensures
        r == tile_request(addr, pagesz, prot, flags, dryrun),
{
    let mut hflags = flags | MAP_FIXED_NOREPLACE;
    if pagesz > PAGE_SIZE && !dryrun {
        hflags = hflags | (MAP_HUGETLB | (page_shift(pagesz) << MAP_HUGE_SHIFT));
    }
    MapRequest {
        addr: align_down(addr, pagesz),
        len: pagesz,
        prot: prot | PROT_READ | PROT_WRITE,
        flags: hflags,
        fd: -1,
        offset: 0,
    }
}

/// Whether a tile counts as backed after its mapping call returned `ret`
/// with the error number `errno`: the call succeeded, or the tile was mapped
/// before.
pub fn tile_is_backed(ret: usize, errno: i32) -> (r: bool)
    ensures
        r == (ret != MAP_FAILED || errno == EEXIST),
{
    ret != MAP_FAILED || errno == EEXIST
}

/// The page size that the plan of a region at `base` gives the address `a`.
pub open spec fn addr_page_size(plan: Seq<Interval>, base: int, a: int) -> int {
    page_size_at(plan, a - base)
}

/// The base page size is a power of two.
pub proof fn lemma_page_size_pow2()
    ensures
        is_pow2(PAGE_SIZE),
{
    assert(4096usize & 4095usize == 0) by (bit_vector);
}

/// In a region at `base` with a well-formed plan, the tile that holds `cur`
/// starts in the region at or below `cur`, ends above it, and every byte of
/// it has the tile's page size in the plan. A tile that starts inside the
/// region also ends inside it.
pub proof fn lemma_tile(plan: Seq<Interval>, base: int, cur: int)
    requires
        plan_wf(plan),
        aligned_for(plan, base),
        0 <= base <= cur,
    ensures
        ({
            let ps = page_size_at(plan, cur - base);
            let t = floor_to(cur, ps);
            &&& PAGE_SIZE <= ps <= usize::MAX
            &&& is_pow2(ps as usize)
            &&& base <= t <= cur < t + ps
            &&& forall|y: int| t <= y < t + ps ==> #[trigger] addr_page_size(plan, base, y) == ps
            &&& cur < base + max_end_of(plan) ==> t + ps <= base + max_end_of(plan)
        }),
{
    let off = cur - base;
    let ps = page_size_at(plan, off);
    lemma_page_size_pow2();
    lemma_max_upto(plan, plan.len() as int);
    let top = base + max_end_of(plan);
    if exists|i: int| 0 <= i < plan.len() && (#[trigger] plan[i]).start <= off < plan[i].end {
        let i = choose|i: int| 0 <= i < plan.len() && (#[trigger] plan[i]).start <= off < plan[i].end;
        lemma_page_size_in_interval(plan, off, i);
        let t = floor_to(cur, ps);
        lemma_floor_bounds(cur, ps);
        lemma_sum_of_multiples(base, plan[i].start as int, ps);
        lemma_sum_of_multiples(base, plan[i].end as int, ps);
        lemma_floor_between_multiples(cur, ps, base + plan[i].start);
        lemma_floor_between_multiples(cur, ps, base + plan[i].end);
        assert forall|y: int| t <= y < t + ps implies #[trigger] addr_page_size(plan, base, y) == ps by {
            lemma_page_size_in_interval(plan, y - base, i);
        }
    } else {
        lemma_page_size_in_gap(plan, off, 0);
        let t = floor_to(cur, ps);
        lemma_floor_bounds(cur, ps);
        lemma_floor_between_multiples(cur, ps, base);
        assert forall|j: int| 0 <= j < plan.len() implies (base + (#[trigger] plan[j]).start) % ps
            == 0 && (base + plan[j].end) % ps == 0 by {
            lemma_pow2_divides(PAGE_SIZE, plan[j].pagesz);
            lemma_multiple_of_divisor(plan[j].start as int, ps, plan[j].pagesz as int);
            lemma_multiple_of_divisor(plan[j].end as int, ps, plan[j].pagesz as int);
            lemma_sum_of_multiples(base, plan[j].start as int, ps);
            lemma_sum_of_multiples(base, plan[j].end as int, ps);
        }
        assert forall|y: int| t <= y < t + ps implies #[trigger] addr_page_size(plan, base, y) == ps by {
            assert forall|j: int| 0 <= j < plan.len() implies !((#[trigger] plan[j]).start <= y
                - base < plan[j].end) by {
                if plan[j].start <= y - base < plan[j].end {
                    lemma_floor_between_multiples(cur, ps, base + plan[j].start);
                    lemma_floor_between_multiples(cur, ps, base + plan[j].end);
                    assert(plan[j].start <= off < plan[j].end);
                }
            }
            lemma_page_size_in_gap(plan, y - base, 0);
        }
        if cur < top {
            if max_end_of(plan) != 0 {
                let j = choose|j: int|
                    0 <= j < plan.len() && (#[trigger] plan[j]).end == max_end_of(plan);
                assert((base + plan[j].end) % ps == 0);
            }
            lemma_floor_between_multiples(cur, ps, top);
        }
    }
}

/// The number of bytes from `cur` up to `end`.
pub open spec fn left(cur: int, end: int) -> nat {
    if cur < end {
        (end - cur) as nat
    } else {
        0
    }
}

/// The mapping calls that back `[cur, end)` in a region at `base`: one for the
/// tile that holds `cur`, then those for what lies above that tile.
pub open spec fn backing(
    plan: Seq<Interval>,
    base: int,
    cur: int,
    end: int,
    prot: i32,
    flags: i32,
    dryrun: bool,
) -> Seq<MapRequest>
    decreases left(cur, end),
{
    let ps = addr_page_size(plan, base, cur);
    let t = floor_to(cur, ps);
    if cur >= end || t + ps <= cur || cur < 0 || cur > usize::MAX || ps < 0 || ps > usize::MAX {
        Seq::empty()
    } else {
        seq![tile_request(cur as usize, ps as usize, prot, flags, dryrun)].add(
            backing(plan, base, t + ps, end, prot, flags, dryrun),
        )
    }
}

/// Whether the mapping call `r` is for one tile of the plan of a region at
/// `base`: its length is a page size, it starts at a multiple of that size
/// and lies in the region, the plan gives every byte of it that page size,
/// and it asks for what the caller asked, readable and writable, with the
/// flags of a tile of its size.
pub open spec fn is_plan_tile(
    plan: Seq<Interval>,
    base: int,
    r: MapRequest,
    prot: i32,
    flags: i32,
    dryrun: bool,
) -> bool {
    &&& is_pow2(r.len)
    &&& r.len >= PAGE_SIZE
    &&& r.addr as int % r.len as int == 0
    &&& base <= r.addr
    &&& r.addr + r.len <= base + max_end_of(plan)
    &&& forall|y: int| r.addr <= y < r.addr + r.len ==> #[trigger] addr_page_size(plan, base, y) == r.len
    &&& r.prot == prot | PROT_READ | PROT_WRITE
    &&& r.flags == tile_flags(flags, r.len, dryrun)
    &&& r.fd == -1
    &&& r.offset == 0
}

/// Whether the tile of the mapping call `r` holds the address `x`.
pub open spec fn tile_holds(r: MapRequest, x: int) -> bool {
    r.addr <= x < r.addr + r.len
}

/// Whether one of the tiles of `ts` holds the address `x`.
pub open spec fn is_backed(ts: Seq<MapRequest>, x: int) -> bool {
    exists|k: int| 0 <= k < ts.len() && tile_holds(#[trigger] ts[k], x)
}

/// The backing of a range follows the plan. Every call is for one tile of the
/// plan, so that no byte of a huge-page interval is mapped with another page
/// size; each tile starts where the one before it ends; and the tiles hold
/// every byte of the range.
pub proof fn lemma_backing_follows_plan(
    plan: Seq<Interval>,
    base: int,
    cur: int,
    end: int,
    prot: i32,
    flags: i32,
    dryrun: bool,
)
    requires
        plan_wf(plan),
        aligned_for(plan, base),
        0 <= base <= cur,
        end <= base + max_end_of(plan) <= usize::MAX,
    ensures
        ({
            let ts = backing(plan, base, cur, end, prot, flags, dryrun);
            &&& forall|k: int| 0 <= k < ts.len() ==> is_plan_tile(plan, base, #[trigger] ts[k], prot, flags, dryrun)
            &&& forall|k: int| 0 <= k < ts.len() - 1 ==> (#[trigger] ts[k + 1]).addr == ts[k].addr + ts[k].len
            &&& forall|x: int| cur <= x < end ==> #[trigger] is_backed(ts, x)
            &&& cur < end ==> ts.len() > 0 && ts[0].addr == floor_to(cur, addr_page_size(plan, base, cur))
        }),
    decreases left(cur, end),
{
    let ts = backing(plan, base, cur, end, prot, flags, dryrun);
    if cur < end {
        lemma_tile(plan, base, cur);
        let ps = addr_page_size(plan, base, cur);
        let t = floor_to(cur, ps);
        let next = t + ps;
        let first = tile_request(cur as usize, ps as usize, prot, flags, dryrun);
        let rest = backing(plan, base, next, end, prot, flags, dryrun);
        assert(ts == seq![first].add(rest));
        lemma_backing_follows_plan(plan, base, next, end, prot, flags, dryrun);
        lemma_floor_bounds(cur, ps);
        assert(is_plan_tile(plan, base, first, prot, flags, dryrun));
        assert forall|k: int| 0 <= k < ts.len() implies is_plan_tile(plan, base, #[trigger] ts[k], prot, flags, dryrun) by {
            if k > 0 {
                assert(ts[k] == rest[k - 1]);
            }
        }
        if next < end {
            // the tile above starts where this one ends
            lemma_tile(plan, base, next);
            let ps2 = addr_page_size(plan, base, next);
            let t2 = floor_to(next, ps2);
            if t2 < next {
                assert(addr_page_size(plan, base, next - 1) == ps);
                assert(addr_page_size(plan, base, next - 1) == ps2);
                lemma_sum_of_multiples(t, ps, ps);
                lemma_floor_between_multiples(next, ps, next);
            }
            assert(rest[0].addr == next);
        }
        assert forall|k: int| 0 <= k < ts.len() - 1 implies (#[trigger] ts[k + 1]).addr == ts[k].addr + ts[k].len by {
            if k > 0 {
                assert(ts[k] == rest[k - 1]);
                assert(ts[k + 1] == rest[k - 1 + 1]);
            } else {
                assert(ts[1] == rest[0]);
            }
        }
        assert forall|x: int| cur <= x < end implies #[trigger] is_backed(ts, x) by {
            if x < next {
                assert(tile_holds(ts[0], x));
            } else {
                assert(is_backed(rest, x));
                let k = choose|k: int| 0 <= k < rest.len() && tile_holds(#[trigger] rest[k], x);
                assert(ts[k + 1] == rest[k]);
                assert(tile_holds(ts[k + 1], x));
            }
        }
    }
}

/// The mapping calls that back `[start, end)` of a region at `base` with the
/// plan of `pool`, lowest tile first.
pub fn backing_requests(
    pool: &Pool,
    base: usize,
    start: usize,
    end: usize,
    prot: i32,
    flags: i32,
    dryrun: bool,
) -> (r: Vec<MapRequest>)
    requires
        plan_wf(pool.intervals@),
        aligned_for(pool.intervals@, base as int),
        base <= start,
        end <= base + max_end_of(pool.intervals@) <= usize::MAX,
    ensures
        r@ == backing(pool.intervals@, base as int, start as int, end as int, prot, flags, dryrun),
{
    let ghost plan = pool.intervals@;
    let mut out: Vec<MapRequest> = Vec::new();
    let mut cur: usize = start;
    while cur < end
        invariant
            plan_wf(pool.intervals@),
            plan == pool.intervals@,
            aligned_for(plan, base as int),
            base <= cur,
            end <= base + max_end_of(plan) <= usize::MAX,
            out@.add(backing(plan, base as int, cur as int, end as int, prot, flags, dryrun))
                == backing(plan, base as int, start as int, end as int, prot, flags, dryrun),
        decreases left(cur as int, end as int),
    {
        proof {
            lemma_tile(plan, base as int, cur as int);
        }
        let pagesz = pool.pagesz_at(cur - base);
        let req = make_tile_request(cur, pagesz, prot, flags, dryrun);
        let ghost tail = backing(
            plan,
            base as int,
            req.addr + pagesz,
            end as int,
            prot,
            flags,
            dryrun,
        );
        proof {
            assert(backing(plan, base as int, cur as int, end as int, prot, flags, dryrun)
                == seq![req].add(tail));
            assert(out@.push(req).add(tail) =~= out@.add(seq![req].add(tail)));
        }
        out.push(req);
        cur = req.addr + pagesz;
    }
    proof {
        assert(out@.add(Seq::<MapRequest>::empty()) =~= out@);
    }
    out
}

} // verus!
