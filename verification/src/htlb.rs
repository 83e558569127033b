//! Page-size plans: how a region is tiled into intervals, each with the size
//! of the pages that back it.

use crate::misc::{
    is_pow2, is_power_of_two, lemma_mask_is_mod, size_of_text, size_text, size_to_str,
    try_size_from_str,
};
use crate::sysfs_path::{
    joined, node_path, sysfs_path_htlb, sysfs_path_overcommit, sysfs_path_thp_enabled, Id,
    SYSFS_OVERCOMMIT, SYSFS_THP_ENABLED,
};
use crate::text::{
    chars_of, decimal, decimal_string, find_in, index_of, parse_usize, parse_usize_in,
    parse_usize_spec, push_char, push_decimal, slice_is, trim_bounds, trim_in,
};
use vstd::string::*;
use vstd::prelude::*;

verus! {

/// The base page size.
pub const PAGE_SIZE: usize = 4096;

/// What a pool of intervals backs.
#[derive(Debug, PartialEq, Eq, Structural, Copy, Clone)]
pub enum AllocType {
    /// The heap, grown and shrunk by moving the program break.
    BRK,
    /// Anonymous mappings.
    ANON,
    /// File-backed mappings.
    FILE,
}

/// The name of an allocation type in a page-size plan.
pub open spec fn alloc_type_name(t: AllocType) -> Seq<char> {
    match t {
        AllocType::BRK => "brk"@,
        AllocType::ANON => "mmap"@,
        AllocType::FILE => "file"@,
    }
}

impl AllocType {
    /// The name of this allocation type in a page-size plan.
    pub fn as_str(&self) -> (r: &'static str)
        ensures
            r@ == alloc_type_name(*self),
    {
        match self {
            AllocType::BRK => "brk",
            AllocType::ANON => "mmap",
            AllocType::FILE => "file",
        }
    }
}

/// The offsets `[start, end)` of a region, backed by pages of `pagesz` bytes.
#[derive(Debug, Clone, Copy, PartialEq, Eq, Structural)]
pub struct Interval {
    pub pagesz: usize,
    pub start: usize,
    pub end: usize,
}

impl Interval {
    /// The page size is a power of two, at least the base page size; the
    /// interval is not empty, and both its bounds are multiples of the page
    /// size.
    pub open spec fn wf(&self) -> bool {
        &&& is_pow2(self.pagesz)
        &&& self.pagesz >= PAGE_SIZE
        &&& self.start < self.end
        &&& self.start as int % self.pagesz as int == 0
        &&& self.end as int % self.pagesz as int == 0
    }
}

/// Every interval is well-formed, and each ends where a later one starts, or
/// below: the intervals are sorted and do not overlap.
pub open spec fn plan_wf(plan: Seq<Interval>) -> bool {
    &&& forall|i: int| 0 <= i < plan.len() ==> (#[trigger] plan[i]).wf()
    &&& forall|i: int, j: int|
        0 <= i < j < plan.len() ==> (#[trigger] plan[i]).end <= (#[trigger] plan[j]).start
}

/// Whether the intervals tile a region without a gap: the first starts at
/// offset 0, and each of the others where the one before it ends.
pub open spec fn is_tiling(plan: Seq<Interval>) -> bool {
    &&& plan.len() > 0 ==> plan[0].start == 0
    &&& forall|j: int| 0 < j < plan.len() ==> (#[trigger] plan[j]).start == plan[j - 1].end
}

/// The page size of the first interval from the `k`-th on that holds the
/// offset `off`; the base page size where there is none.
pub open spec fn page_size_from(plan: Seq<Interval>, off: int, k: int) -> int
    decreases plan.len() - k,
{
    if k < 0 || k >= plan.len() {
        PAGE_SIZE as int
    } else if plan[k].start <= off < plan[k].end {
        plan[k].pagesz as int
    } else {
        page_size_from(plan, off, k + 1)
    }
}

/// The page size that the plan gives the offset `off`.
pub open spec fn page_size_at(plan: Seq<Interval>, off: int) -> int {
    page_size_from(plan, off, 0)
}

/// The largest page size among the first `n` intervals, 0 if there is none.
pub open spec fn max_pgsz_upto(plan: Seq<Interval>, n: int) -> int
    decreases n,
{
    if n <= 0 || n > plan.len() {
        0
    } else if plan[n - 1].pagesz > max_pgsz_upto(plan, n - 1) {
        plan[n - 1].pagesz as int
    } else {
        max_pgsz_upto(plan, n - 1)
    }
}

/// The highest end among the first `n` intervals, 0 if there is none.
pub open spec fn max_end_upto(plan: Seq<Interval>, n: int) -> int
    decreases n,
{
    if n <= 0 || n > plan.len() {
        0
    } else if plan[n - 1].end > max_end_upto(plan, n - 1) {
        plan[n - 1].end as int
    } else {
        max_end_upto(plan, n - 1)
    }
}

/// The largest page size of the plan, 0 if it is empty.
pub open spec fn max_pgsz_of(plan: Seq<Interval>) -> int {
    max_pgsz_upto(plan, plan.len() as int)
}

/// The length of the region that the plan tiles: its highest end.
pub open spec fn max_end_of(plan: Seq<Interval>) -> int {
    max_end_upto(plan, plan.len() as int)
}

/// Whether `start` is a multiple of the base page size and of the page size
/// of every interval of `plan`.
pub open spec fn aligned_for(plan: Seq<Interval>, start: int) -> bool {
    &&& start % PAGE_SIZE as int == 0
    &&& forall|i: int| 0 <= i < plan.len() ==> start % (#[trigger] plan[i]).pagesz as int == 0
}

/// A request to reserve huge pages on a memory node: the number of pages
/// for each page size that the machine has, smallest size first.
#[derive(Clone, Debug)]
pub struct HTLBReq {
    pub req: Vec<usize>,
    pub node: Id,
}

/// The settings of the interposer.
#[derive(Debug)]
pub struct MosallocConfig {
    /// The path of the page-size plan.
    pub pool_config: String,
    /// The number of free ranges to make room for in the anonymous region.
    pub anon_ffa_size: usize,
    /// The number of free ranges to make room for in the file-backed region.
    pub file_ffa_size: usize,
    /// The length of the file-backed region.
    pub file_pool_size: usize,
    pub analyze_regions: bool,
    /// Whether huge pages are left out of the backing.
    pub dryrun: bool,
}

/// One row of a page-size plan, as text: the kind of region, the page size
/// and the offsets between which pages of that size back the region.
#[derive(Debug)]
pub struct CSVRecord {
    pub region_type: String,
    pub page_size: String,
    pub start_offset: String,
    pub end_offset: String,
}

/// Whether `v` holds `x`.
pub fn vec_contains(v: &Vec<usize>, x: usize) -> (r: bool)
    ensures
        r == v@.contains(x),
{
    let n = v.len();
    let mut i: usize = 0;
    while i < n
        invariant
            i <= n,
            n == v@.len(),
            forall|j: int| 0 <= j < i ==> v@[j] != x,
        decreases n - i,
    {
        if v[i] == x {
            return true;
        }
        i += 1;
    }
    false
}

/// The interval that a row writes, for a machine with the sizes of huge page
/// `supported`: its three sizes are sizes in text, the page size is the base
/// page size or one of the machine's, and the interval is well-formed.
pub open spec fn record_interval(
    page_size: Seq<char>,
    start_offset: Seq<char>,
    end_offset: Seq<char>,
    supported: Seq<usize>,
) -> Option<Interval> {
    match (size_of_text(page_size), size_of_text(start_offset), size_of_text(end_offset)) {
        (Some(pagesz), Some(start), Some(end)) => {
            let x = Interval { pagesz, start, end };
            if (pagesz == PAGE_SIZE || supported.contains(pagesz)) && x.wf() {
                Some(x)
            } else {
                None
            }
        },
        _ => None,
    }
}

/// The number of intervals at the front of `plan` that start at or below
/// `start`, counted from the `k`-th on.
pub open spec fn insert_index(plan: Seq<Interval>, start: usize, k: int) -> int
    decreases plan.len() - k,
{
    if 0 <= k < plan.len() && plan[k].start <= start {
        insert_index(plan, start, k + 1)
    } else {
        k
    }
}

/// The plan with the interval `x` put in by its start; `None` if `x`
/// overlaps the interval before or behind it.
pub open spec fn place_interval(plan: Seq<Interval>, x: Interval) -> Option<Seq<Interval>> {
    let k = insert_index(plan, x.start, 0);
    if (0 < k <= plan.len() && plan[k - 1].end > x.start) || (0 <= k < plan.len() && x.end
        > plan[k].start) {
        None
    } else {
        Some(plan.insert(k, x))
    }
}

/// The plan that the first `n` rows write for the regions named `kind`:
/// each of their intervals put in by its start. `None` if one of these rows
/// writes no interval, or two of their intervals overlap.
pub open spec fn plan_from(
    kind: Seq<char>,
    records: Seq<CSVRecord>,
    supported: Seq<usize>,
    n: int,
) -> Option<Seq<Interval>>
    decreases n,
{
    if n <= 0 || n > records.len() {
        Some(Seq::empty())
    } else {
        match plan_from(kind, records, supported, n - 1) {
            None => None,
            Some(plan) => {
                let rec = records[n - 1];
                if rec.region_type@ != kind {
                    Some(plan)
                } else {
                    match record_interval(
                        rec.page_size@,
                        rec.start_offset@,
                        rec.end_offset@,
                        supported,
                    ) {
                        None => None,
                        Some(x) => place_interval(plan, x),
                    }
                }
            },
        }
    }
}

/// Putting a well-formed interval into a well-formed plan gives a
/// well-formed plan with that interval and those of before.
pub proof fn lemma_place_interval(plan: Seq<Interval>, x: Interval)
    requires
        plan_wf(plan),
        x.wf(),
        place_interval(plan, x).is_some(),
    ensures
        plan_wf(place_interval(plan, x).unwrap()),
        place_interval(plan, x).unwrap().len() == plan.len() + 1,
        forall|y: Interval|
            place_interval(plan, x).unwrap().contains(y) == (plan.contains(y) || y == x),
{
    let k = insert_index(plan, x.start, 0);
    lemma_insert_index(plan, x.start, 0);
    let out = plan.insert(k, x);
    assert forall|i: int| 0 <= i < out.len() implies (#[trigger] out[i]).wf() by {
        if i < k {
            assert(out[i] == plan[i]);
        } else if i > k {
            assert(out[i] == plan[i - 1]);
        }
    }
    assert forall|i: int, j: int| 0 <= i < j < out.len() implies (#[trigger] out[i]).end <= (
    #[trigger] out[j]).start by {
        let i0 = if i < k {
            i
        } else {
            i - 1
        };
        let j0 = if j < k {
            j
        } else {
            j - 1
        };
        if i == k {
            assert(out[j] == plan[j0]);
            if j0 > k {
                assert(plan[k].end <= plan[j0].start);
                assert(plan[k].wf());
            }
        } else if j == k {
            assert(out[i] == plan[i0]);
            if i0 < k - 1 {
                assert(plan[i0].end <= plan[k - 1].start);
                assert(plan[k - 1].wf());
            }
        } else {
            assert(out[i] == plan[i0]);
            assert(out[j] == plan[j0]);
            assert(plan[i0].end <= plan[j0].start);
        }
    }
    assert forall|y: Interval| out.contains(y) == (plan.contains(y) || y == x) by {
        if out.contains(y) {
            let i = choose|i: int| 0 <= i < out.len() && out[i] == y;
            if i < k {
                assert(plan[i] == y);
            } else if i > k {
                assert(plan[i - 1] == y);
            }
        }
        if plan.contains(y) {
            let i = choose|i: int| 0 <= i < plan.len() && plan[i] == y;
            let i1 = if i < k {
                i
            } else {
                i + 1
            };
            assert(out[i1] == y);
        }
        if y == x {
            assert(out[k] == y);
        }
    }
}

/// The index at which an interval is put in lies in the plan or at its end,
/// at or above the index from which it was counted.
pub proof fn lemma_insert_index(plan: Seq<Interval>, start: usize, k: int)
    requires
        0 <= k <= plan.len(),
    ensures
        k <= insert_index(plan, start, k) <= plan.len(),
    decreases plan.len() - k,
{
    if k < plan.len() && plan[k].start <= start {
        lemma_insert_index(plan, start, k + 1);
    }
}

/// What the rows write is a well-formed plan.
pub proof fn lemma_plan_from_wf(
    kind: Seq<char>,
    records: Seq<CSVRecord>,
    supported: Seq<usize>,
    n: int,
)
    ensures
        plan_from(kind, records, supported, n).is_some() ==> plan_wf(
            plan_from(kind, records, supported, n).unwrap(),
        ),
    decreases n,
{
    if 0 < n <= records.len() {
        lemma_plan_from_wf(kind, records, supported, n - 1);
        match plan_from(kind, records, supported, n - 1) {
            None => {},
            Some(plan) => {
                let rec = records[n - 1];
                if rec.region_type@ == kind {
                    match record_interval(
                        rec.page_size@,
                        rec.start_offset@,
                        rec.end_offset@,
                        supported,
                    ) {
                        None => {},
                        Some(x) => {
                            if place_interval(plan, x).is_some() {
                                lemma_place_interval(plan, x);
                            }
                        },
                    }
                }
            },
        }
    }
}

impl Interval {
    /// Whether the interval is well-formed.
    pub fn is_wf(&self) -> (r: bool)
        ensures
            r == self.wf(),
    {
        if !is_power_of_two(self.pagesz) || self.pagesz < PAGE_SIZE || self.start >= self.end {
            return false;
        }
        proof {
            lemma_mask_is_mod(self.start, self.pagesz);
            lemma_mask_is_mod(self.end, self.pagesz);
        }
        self.start & (self.pagesz - 1) == 0 && self.end & (self.pagesz - 1) == 0
    }

    /// The interval that the row `rec` writes, for a machine with the page
    /// sizes `supported`, if it writes one.
    pub fn from_record(rec: &CSVRecord, supported: &Vec<usize>) -> (r: Option<Interval>)
        ensures
            r == record_interval(
                rec.page_size@,
                rec.start_offset@,
                rec.end_offset@,
                supported@,
            ),
    {
        let pagesz = try_size_from_str(rec.page_size.as_str());
        let start = try_size_from_str(rec.start_offset.as_str());
        let end = try_size_from_str(rec.end_offset.as_str());
        match (pagesz, start, end) {
            (Some(pagesz), Some(start), Some(end)) => {
                let x = Interval { pagesz, start, end };
                if (pagesz == PAGE_SIZE || vec_contains(supported, pagesz)) && x.is_wf() {
                    Some(x)
                } else {
                    None
                }
            },
            _ => None,
        }
    }
}

/// The intervals that tile one region.
#[derive(Debug)]
pub struct Pool {
    pub alloc_type: AllocType,
    pub intervals: Vec<Interval>,
}

impl Pool {
    /// The pool's invariant: its intervals are well-formed and sorted, and
    /// tile the region without a gap.
    pub open spec fn wf(&self) -> bool {
        plan_wf(self.intervals@) && is_tiling(self.intervals@)
    }

    /// Whether the pool's intervals tile the region without a gap.
    pub fn tiles(&self) -> (r: bool)
        ensures
            r == is_tiling(self.intervals@),
    {
        let n = self.intervals.len();
        if n > 0 && self.intervals[0].start != 0 {
            return false;
        }
        let mut i: usize = 1;
        while i < n
            invariant
                1 <= i,
                n == self.intervals@.len(),
                n > 0 ==> self.intervals@[0].start == 0,
                forall|j: int| 0 < j < i && j < n ==> (#[trigger] self.intervals@[j]).start
                    == self.intervals@[j - 1].end,
            decreases n - i,
        {
            if self.intervals[i].start != self.intervals[i - 1].end {
                return false;
            }
            i += 1;
        }
        true
    }

    /// The pool of a file-backed region: one interval of `sz` bytes at the
    /// base page size.
    pub fn new_file_pool(sz: usize) -> (r: Pool)
        ensures
            r.alloc_type == AllocType::FILE,
            r.intervals@ == seq![Interval { pagesz: PAGE_SIZE, start: 0, end: sz }],
            r.wf() == (sz > 0 && sz as int % PAGE_SIZE as int == 0),
    {
        let mut intervals: Vec<Interval> = Vec::new();
        intervals.push(Interval { pagesz: PAGE_SIZE, start: 0, end: sz });
        proof {
            assert(is_pow2(PAGE_SIZE)) by {
                assert(4096usize & 4095usize == 0) by (bit_vector);
            }
            assert(intervals@ =~= seq![Interval { pagesz: PAGE_SIZE, start: 0, end: sz }]);
            assert(intervals@[0].wf() == (sz > 0 && sz as int % PAGE_SIZE as int == 0));
        }
        Pool { alloc_type: AllocType::FILE, intervals }
    }

    /// The page size that the pool gives the offset `off`.
    pub fn pagesz_at(&self, off: usize) -> (r: usize)
        ensures
            r == page_size_at(self.intervals@, off as int),
    {
        let n = self.intervals.len();
        let mut i: usize = 0;
        while i < n
            invariant
                i <= n,
                n == self.intervals@.len(),
                page_size_at(self.intervals@, off as int) == page_size_from(
                    self.intervals@,
                    off as int,
                    i as int,
                ),
            decreases n - i,
        {
            let x = self.intervals[i];
            if x.start <= off && off < x.end {
                return x.pagesz;
            }
            i += 1;
        }
        PAGE_SIZE
    }

    /// The pool that the rows `records` write for the regions of the kind
    /// `alloc_type`, for a machine with the page sizes `supported`: the
    /// intervals of the rows of that kind, sorted by their start. There is
    /// none if one of these rows writes no interval, if two of their
    /// intervals overlap, if they leave a gap, or if there is no such row.
    pub fn from_csv(alloc_type: AllocType, records: &Vec<CSVRecord>, supported: &Vec<usize>) -> (r:
        Option<Pool>)
        ensures
            ({
                let plan = plan_from(
                    alloc_type_name(alloc_type),
                    records@,
                    supported@,
                    records@.len() as int,
                );
                &&& r.is_some() == (plan.is_some() && plan.unwrap().len() > 0 && is_tiling(
                    plan.unwrap(),
                ))
                &&& r.is_some() ==> {
                    &&& r.unwrap().alloc_type == alloc_type
                    &&& r.unwrap().intervals@ == plan.unwrap()
                    &&& r.unwrap().wf()
                }
            }),
    {
        let kind = String::from_str(alloc_type.as_str());
        let mut intervals: Vec<Interval> = Vec::new();
        let n = records.len();
        let mut i: usize = 0;
        while i < n
            invariant
                i <= n,
                n == records@.len(),
                kind@ == alloc_type_name(alloc_type),
                plan_from(kind@, records@, supported@, i as int) == Some(intervals@),
            decreases n - i,
        {
            let rec = &records[i];
            if rec.region_type == kind {
                let x = match Interval::from_record(rec, supported) {
                    None => {
                        proof {
                            lemma_plan_from_fails(kind@, records@, supported@, i + 1, n as int);
                        }
                        return None;
                    },
                    Some(x) => x,
                };
                let k = Self::index_for(&intervals, x.start);
                if (k > 0 && intervals[k - 1].end > x.start) || (k < intervals.len() && x.end
                    > intervals[k].start) {
                    proof {
                        lemma_plan_from_fails(kind@, records@, supported@, i + 1, n as int);
                    }
                    return None;
                }
                intervals.insert(k, x);
            }
            i += 1;
        }
        proof {
            lemma_plan_from_wf(kind@, records@, supported@, n as int);
        }
        let pool = Pool { alloc_type, intervals };
        if pool.intervals.len() == 0 || !pool.tiles() {
            return None;
        }
        Some(pool)
    }

    fn index_for(intervals: &Vec<Interval>, start: usize) -> (k: usize)
        ensures
            k == insert_index(intervals@, start, 0),
            k <= intervals@.len(),
    {
        let n = intervals.len();
        let mut k: usize = 0;
        while k < n && intervals[k].start <= start
            invariant
                k <= n,
                n == intervals@.len(),
                insert_index(intervals@, start, 0) == insert_index(intervals@, start, k as int),
            decreases n - k,
        {
            k += 1;
        }
        k
    }

    /// The number of pages of `sz` bytes in the pool.
    pub fn nrpages(&self, sz: usize) -> (r: usize)
        requires
            self.wf(),
        ensures
            r == pages_upto(self.intervals@, sz, self.intervals@.len() as int),
    {
        let n = self.intervals.len();
        let mut total: usize = 0;
        let mut i: usize = 0;
        while i < n
            invariant
                i <= n,
                n == self.intervals@.len(),
                self.wf(),
                total == pages_upto(self.intervals@, sz, i as int),
            decreases n - i,
        {
            let x = self.intervals[i];
            proof {
                lemma_pages_bound(self.intervals@, sz, i + 1);
                assert(x.wf());
            }
            if x.pagesz == sz {
                total = total + (x.end - x.start) / x.pagesz;
            }
            i += 1;
        }
        total
    }

    /// The number of bytes in the pool's pages of the sizes `sizes`.
    pub fn size(&self, sizes: &Vec<usize>) -> (r: usize)
        requires
            self.wf(),
            bytes_upto(self.intervals@, sizes@, sizes@.len() as int) <= usize::MAX,
        ensures
            r == bytes_upto(self.intervals@, sizes@, sizes@.len() as int),
    {
        let n = sizes.len();
        let mut acc: usize = 0;
        let mut i: usize = 0;
        while i < n
            invariant
                i <= n,
                n == sizes@.len(),
                self.wf(),
                acc == bytes_upto(self.intervals@, sizes@, i as int),
                bytes_upto(self.intervals@, sizes@, n as int) <= usize::MAX,
            decreases n - i,
        {
            let x = sizes[i];
            let pages = self.nrpages(x);
            proof {
                lemma_bytes_grow(self.intervals@, sizes@, i + 1, n as int);
                lemma_bytes_nonneg(self.intervals@, sizes@, i as int);
                assert(pages * x >= 0) by (nonlinear_arith)
                    requires
                        pages >= 0,
                        x >= 0,
                ;
            }
            acc = acc + pages * x;
            i += 1;
        }
        acc
    }

    /// The largest page size of the pool and the length of the region that it
    /// tiles.
    pub fn extent(&self) -> (r: (usize, usize))
        ensures
            r.0 == max_pgsz_of(self.intervals@),
            r.1 == max_end_of(self.intervals@),
    {
        let mut pgsz: usize = 0;
        let mut end: usize = 0;
        let n = self.intervals.len();
        let mut i: usize = 0;
        while i < n
            invariant
                i <= n,
                n == self.intervals@.len(),
                pgsz == max_pgsz_upto(self.intervals@, i as int),
                end == max_end_upto(self.intervals@, i as int),
            decreases n - i,
        {
            let x = self.intervals[i];
            if x.pagesz > pgsz {
                pgsz = x.pagesz;
            }
            if x.end > end {
                end = x.end;
            }
            i += 1;
        }
        (pgsz, end)
    }
}

/// Among the first `n` intervals none ends above `max_end_upto`, and none has
/// a page size above `max_pgsz_upto`.
pub proof fn lemma_max_upto(plan: Seq<Interval>, n: int)
    requires
        0 <= n <= plan.len(),
    ensures
        forall|i: int| 0 <= i < n ==> (#[trigger] plan[i]).end <= max_end_upto(plan, n),
        forall|i: int| 0 <= i < n ==> (#[trigger] plan[i]).pagesz <= max_pgsz_upto(plan, n),
        max_end_upto(plan, n) == 0 || exists|i: int|
            0 <= i < n && (#[trigger] plan[i]).end == max_end_upto(plan, n),
        max_pgsz_upto(plan, n) == 0 || exists|i: int|
            0 <= i < n && (#[trigger] plan[i]).pagesz == max_pgsz_upto(plan, n),
    decreases n,
{
    if n > 0 {
        lemma_max_upto(plan, n - 1);
        if max_end_upto(plan, n) != 0 {
            if plan[n - 1].end > max_end_upto(plan, n - 1) {
                assert(plan[n - 1].end == max_end_upto(plan, n));
            } else {
                let i = choose|i: int|
                    0 <= i < n - 1 && (#[trigger] plan[i]).end == max_end_upto(plan, n - 1);
                assert(plan[i].end == max_end_upto(plan, n));
            }
        }
        if max_pgsz_upto(plan, n) != 0 {
            if plan[n - 1].pagesz > max_pgsz_upto(plan, n - 1) {
                assert(plan[n - 1].pagesz == max_pgsz_upto(plan, n));
            } else {
                let i = choose|i: int|
                    0 <= i < n - 1 && (#[trigger] plan[i]).pagesz == max_pgsz_upto(plan, n - 1);
                assert(plan[i].pagesz == max_pgsz_upto(plan, n));
            }
        }
    }
}

/// In a well-formed plan, an offset that the `i`-th interval holds has that
/// interval's page size.
pub proof fn lemma_page_size_in_interval(plan: Seq<Interval>, off: int, i: int)
    requires
        plan_wf(plan),
        0 <= i < plan.len(),
        plan[i].start <= off < plan[i].end,
    ensures
        page_size_at(plan, off) == plan[i].pagesz,
{
    lemma_page_size_from(plan, off, i, 0);
}

proof fn lemma_page_size_from(plan: Seq<Interval>, off: int, i: int, k: int)
    requires
        plan_wf(plan),
        0 <= k <= i < plan.len(),
        plan[i].start <= off < plan[i].end,
    ensures
        page_size_from(plan, off, k) == plan[i].pagesz,
    decreases i - k,
{
    if k < i {
        assert(plan[k].end <= plan[i].start);
        lemma_page_size_from(plan, off, i, k + 1);
    }
}

/// An offset that no interval holds has the base page size.
pub proof fn lemma_page_size_in_gap(plan: Seq<Interval>, off: int, k: int)
    requires
        forall|i: int| 0 <= i < plan.len() ==> !((#[trigger] plan[i]).start <= off < plan[i].end),
    ensures
        page_size_from(plan, off, k) == PAGE_SIZE,
    decreases plan.len() - k,
{
    if 0 <= k < plan.len() {
        assert(!(plan[k].start <= off < plan[k].end));
        lemma_page_size_in_gap(plan, off, k + 1);
    }
}

/// In a plan that is not empty, the largest page size is a power of two, and
/// a multiple of it is aligned for the plan.
pub proof fn lemma_aligned_for_max(plan: Seq<Interval>, start: int)
    requires
        plan_wf(plan),
        plan.len() > 0,
        start % max_pgsz_of(plan) == 0,
    ensures
        PAGE_SIZE <= max_pgsz_of(plan) <= usize::MAX,
        is_pow2(max_pgsz_of(plan) as usize),
        aligned_for(plan, start),
{
    lemma_max_upto(plan, plan.len() as int);
    let top = max_pgsz_of(plan);
    assert(plan[0].pagesz <= top);
    let k = choose|k: int| 0 <= k < plan.len() && (#[trigger] plan[k]).pagesz == top;
    assert(plan[k].wf());
    assert(is_pow2(4096usize)) by {
        assert(4096usize & 4095usize == 0) by (bit_vector);
    }
    crate::misc::lemma_pow2_divides(PAGE_SIZE, top as usize);
    crate::misc::lemma_multiple_of_divisor(start, PAGE_SIZE as int, top);
    assert forall|i: int| 0 <= i < plan.len() implies start % (#[trigger] plan[i]).pagesz as int
        == 0 by {
        assert(plan[i].wf());
        crate::misc::lemma_pow2_divides(plan[i].pagesz, top as usize);
        crate::misc::lemma_multiple_of_divisor(start, plan[i].pagesz as int, top);
    }
}

/// The letter that stands for the `i`-th page size in a request's format:
/// `i` for the first, `j` for the second, and so on.
pub open spec fn size_letter(i: int) -> char {
    ((105 + i) as u8) as char
}

/// The format of a request for `n` page sizes, such as `i:j:k`.
pub open spec fn fmt_text(n: int) -> Seq<char>
    decreases n,
{
    if n <= 0 {
        Seq::empty()
    } else if n == 1 {
        seq![size_letter(0)]
    } else {
        fmt_text(n - 1) + ":"@ + seq![size_letter(n - 1)]
    }
}

/// What the help says of the `i`-th page size, such as `i 2MB pages`.
pub open spec fn help_item(sizes: Seq<usize>, i: int) -> Seq<char> {
    seq![size_letter(i)] + " "@ + size_text(sizes[i]) + " pages"@
}

/// What the help says of the first `n` page sizes, with `, ` between them.
pub open spec fn help_items(sizes: Seq<usize>, n: int) -> Seq<char>
    decreases n,
{
    if n <= 0 {
        Seq::empty()
    } else if n == 1 {
        help_item(sizes, 0)
    } else {
        help_items(sizes, n - 1) + ", "@ + help_item(sizes, n - 1)
    }
}

/// The number of page sizes that a request for `sizes` covers: that of the
/// sizes or that of the counts, whichever is less.
pub open spec fn paired(sizes: Seq<usize>, req: Seq<usize>) -> int {
    if sizes.len() <= req.len() {
        sizes.len() as int
    } else {
        req.len() as int
    }
}

/// The writes that raise a pool: one for each of the first `k` page sizes
/// of which more pages are requested than the pool holds, smallest first.
pub open spec fn raising_writes(
    sizes: Seq<usize>,
    req: Seq<usize>,
    current: Seq<usize>,
    k: int,
) -> Seq<(usize, usize)>
    decreases k,
{
    if k <= 0 {
        Seq::empty()
    } else if req[k - 1] > current[k - 1] {
        raising_writes(sizes, req, current, k - 1).push((sizes[k - 1], req[k - 1]))
    } else {
        raising_writes(sizes, req, current, k - 1)
    }
}

/// The writes that set every pool from the `k`-th page size down to the
/// first.
pub open spec fn setting_writes(sizes: Seq<usize>, req: Seq<usize>, k: int) -> Seq<(usize, usize)>
    decreases k,
{
    if k <= 0 {
        Seq::empty()
    } else {
        seq![(sizes[k - 1], req[k - 1])] + setting_writes(sizes, req, k - 1)
    }
}

impl HTLBReq {
    /// The format of a request for the page sizes `sizes`, such as `i:j:k`.
    pub fn req_fmt_str(sizes: &Vec<usize>) -> (r: String)
        requires
            sizes@.len() <= 151,
        ensures
            r@ == fmt_text(sizes@.len() as int),
    {
        let n = sizes.len();
        let mut out = String::new();
        let mut i: usize = 0;
        while i < n
            invariant
                i <= n <= 151,
                n == sizes@.len(),
                out@ == fmt_text(i as int),
            decreases n - i,
        {
            if i > 0 {
                out.append(":");
            }
            let c = (105u8 + i as u8) as char;
            push_char(&mut out, c);
            proof {
                assert(out@ =~= fmt_text(i + 1));
            }
            i += 1;
        }
        out
    }

    /// The help for the format of a request: what each letter stands for,
    /// then the format itself.
    pub fn req_fmt_help(sizes: &Vec<usize>) -> (r: String)
        requires
            sizes@.len() <= 151,
        ensures
            r@ == help_items(sizes@, sizes@.len() as int) + " -> "@ + fmt_text(sizes@.len() as int),
    {
        let n = sizes.len();
        let mut out = String::new();
        let mut i: usize = 0;
        while i < n
            invariant
                i <= n <= 151,
                n == sizes@.len(),
                out@ == help_items(sizes@, i as int),
            decreases n - i,
        {
            if i > 0 {
                out.append(", ");
            }
            let c = (105u8 + i as u8) as char;
            push_char(&mut out, c);
            out.append(" ");
            let sz = size_to_str(sizes[i]);
            out.append(sz.as_str());
            out.append(" pages");
            proof {
                assert(out@ =~= help_items(sizes@, i + 1));
            }
            i += 1;
        }
        out.append(" -> ");
        let fmt = Self::req_fmt_str(sizes);
        out.append(fmt.as_str());
        out
    }

    /// The writes that reserve the pages of the request, each a page size
    /// and the number of pages for its pool. `sizes` holds the machine's page
    /// sizes and `current` the number of pages in each pool now. First come
    /// the pools that grow, smallest page size first; then every pool is
    /// set, largest page size first.
    pub fn reserve_pages(&self, sizes: &Vec<usize>, current: &Vec<usize>) -> (r: Vec<(usize, usize)>)
        requires
            current@.len() == sizes@.len(),
        ensures
            r@ == raising_writes(sizes@, self.req@, current@, paired(sizes@, self.req@))
                + setting_writes(sizes@, self.req@, paired(sizes@, self.req@)),
    {
        let m = if sizes.len() <= self.req.len() {
            sizes.len()
        } else {
            self.req.len()
        };
        let mut out: Vec<(usize, usize)> = Vec::new();
        let mut i: usize = 0;
        while i < m
            invariant
                i <= m,
                m == paired(sizes@, self.req@),
                current@.len() == sizes@.len(),
                out@ == raising_writes(sizes@, self.req@, current@, i as int),
            decreases m - i,
        {
            if self.req[i] > current[i] {
                out.push((sizes[i], self.req[i]));
            }
            i += 1;
        }
        let ghost raised = out@;
        let mut k: usize = m;
        while k > 0
            invariant
                k <= m,
                m == paired(sizes@, self.req@),
                out@ + setting_writes(sizes@, self.req@, k as int) == raised + setting_writes(
                    sizes@,
                    self.req@,
                    m as int,
                ),
            decreases k,
        {
            let ghost before = out@;
            out.push((sizes[k - 1], self.req[k - 1]));
            proof {
                assert(out@ + setting_writes(sizes@, self.req@, k - 1) =~= before + setting_writes(
                    sizes@,
                    self.req@,
                    k as int,
                ));
            }
            k -= 1;
        }
        proof {
            assert(out@ + setting_writes(sizes@, self.req@, 0) =~= out@);
        }
        out
    }

    /// Whether a pool differs from the request: `after` holds the number of
    /// pages in each pool after the writes.
    pub open spec fn differs(&self, sizes: Seq<usize>, after: Seq<usize>) -> bool {
        exists|i: int| 0 <= i < paired(sizes, self.req@) && self.req@[i] != #[trigger] after[i]
    }

    /// The outcome of a reservation, from the number of pages in each pool
    /// after the writes: `Ok` if a pool differs from the request, and the
    /// error `Couldn't allocate pages` if none does.
    pub fn check_reserved(&self, sizes: &Vec<usize>, after: &Vec<usize>) -> (r: Result<(), String>)
        requires
            after@.len() == sizes@.len(),
        ensures
            r.is_ok() == self.differs(sizes@, after@),
            r.is_err() ==> r.unwrap_err()@ == "Couldn't allocate pages"@,
    {
        let m = if sizes.len() <= self.req.len() {
            sizes.len()
        } else {
            self.req.len()
        };
        let mut i: usize = 0;
        while i < m
            invariant
                i <= m,
                m == paired(sizes@, self.req@),
                after@.len() == sizes@.len(),
                forall|j: int| 0 <= j < i ==> self.req@[j] == #[trigger] after@[j],
            decreases m - i,
        {
            if self.req[i] != after[i] {
                return Ok(());
            }
            i += 1;
        }
        Err(String::from_str("Couldn't allocate pages"))
    }
}

/// The number of pages of `sz` bytes in the first `n` intervals.
pub open spec fn pages_upto(plan: Seq<Interval>, sz: usize, n: int) -> int
    decreases n,
{
    if n <= 0 || n > plan.len() {
        0
    } else if plan[n - 1].pagesz == sz {
        pages_upto(plan, sz, n - 1) + (plan[n - 1].end - plan[n - 1].start) / (
        plan[n - 1].pagesz as int)
    } else {
        pages_upto(plan, sz, n - 1)
    }
}

/// The number of bytes in the plan's pages of the first `n` sizes of
/// `sizes`.
pub open spec fn bytes_upto(plan: Seq<Interval>, sizes: Seq<usize>, n: int) -> int
    decreases n,
{
    if n <= 0 || n > sizes.len() {
        0
    } else {
        bytes_upto(plan, sizes, n - 1) + pages_upto(plan, sizes[n - 1], plan.len() as int)
            * sizes[n - 1]
    }
}

/// In a well-formed plan, the pages of one size in the first `n` intervals
/// are no more than the bytes below the end of the last of them.
pub proof fn lemma_pages_bound(plan: Seq<Interval>, sz: usize, n: int)
    requires
        plan_wf(plan),
        0 <= n <= plan.len(),
    ensures
        0 <= pages_upto(plan, sz, n),
        n > 0 ==> pages_upto(plan, sz, n) <= plan[n - 1].end,
        n == 0 ==> pages_upto(plan, sz, n) == 0,
    decreases n,
{
    if n > 0 {
        lemma_pages_bound(plan, sz, n - 1);
        let x = plan[n - 1];
        assert(x.wf());
        let len = x.end - x.start;
        let p = x.pagesz as int;
        assert(0 <= len / p <= len) by (nonlinear_arith)
            requires
                len >= 0,
                p >= 1,
        ;
        if n > 1 {
            assert(plan[n - 2].end <= plan[n - 1].start);
        }
    }
}

/// The bytes in pages of some sizes are not negative.
pub proof fn lemma_bytes_nonneg(plan: Seq<Interval>, sizes: Seq<usize>, n: int)
    requires
        plan_wf(plan),
    ensures
        bytes_upto(plan, sizes, n) >= 0,
    decreases n,
{
    if 0 < n <= sizes.len() {
        lemma_bytes_nonneg(plan, sizes, n - 1);
        lemma_pages_bound(plan, sizes[n - 1], plan.len() as int);
        let pages = pages_upto(plan, sizes[n - 1], plan.len() as int);
        let x = sizes[n - 1] as int;
        assert(pages * x >= 0) by (nonlinear_arith)
            requires
                pages >= 0,
                x >= 0,
        ;
    }
}

/// The bytes in pages of the first `k` sizes are no more than those in
/// pages of the first `n`, for `k <= n`.
pub proof fn lemma_bytes_grow(plan: Seq<Interval>, sizes: Seq<usize>, k: int, n: int)
    requires
        plan_wf(plan),
        0 <= k <= n <= sizes.len(),
    ensures
        bytes_upto(plan, sizes, k) <= bytes_upto(plan, sizes, n),
    decreases n - k,
{
    if k < n {
        lemma_bytes_grow(plan, sizes, k, n - 1);
        lemma_pages_bound(plan, sizes[n - 1], plan.len() as int);
        let pages = pages_upto(plan, sizes[n - 1], plan.len() as int);
        let x = sizes[n - 1] as int;
        assert(pages * x >= 0) by (nonlinear_arith)
            requires
                pages >= 0,
                x >= 0,
        ;
    }
}

/// Once the rows write no plan, more rows write none either.
pub proof fn lemma_plan_from_fails(
    kind: Seq<char>,
    records: Seq<CSVRecord>,
    supported: Seq<usize>,
    k: int,
    n: int,
)
    requires
        0 <= k <= n <= records.len(),
        plan_from(kind, records, supported, k).is_none(),
    ensures
        plan_from(kind, records, supported, n).is_none(),
    decreases n - k,
{
    if k < n {
        lemma_plan_from_fails(kind, records, supported, k, n - 1);
    }
}

/// The truth value that `s` writes, as `str::parse::<bool>` reads it.
pub open spec fn parse_bool_spec(s: Seq<char>) -> Option<bool> {
    if s == "true"@ {
        Some(true)
    } else if s == "false"@ {
        Some(false)
    } else {
        None
    }
}

/// Reads `s` as a truth value.
pub fn parse_bool(s: &str) -> (r: Option<bool>)
    ensures
        r == parse_bool_spec(s@),
{
    let v = String::from_str(s);
    if v == String::from_str("true") {
        Some(true)
    } else if v == String::from_str("false") {
        Some(false)
    } else {
        None
    }
}

/// The text of a truth value.
pub open spec fn bool_text(b: bool) -> Seq<char> {
    if b {
        "true"@
    } else {
        "false"@
    }
}

fn bool_string(b: bool) -> (r: String)
    ensures
        r@ == bool_text(b),
{
    if b {
        String::from_str("true")
    } else {
        String::from_str("false")
    }
}

impl MosallocConfig {
    /// The settings that the values of the interposer's environment
    /// variables write: the path of the plan as it is, three numbers and two
    /// truth values. There are none if one of these is not what it should be.
    pub fn load(
        pool_config: String,
        anon_ffa_size: &str,
        file_ffa_size: &str,
        file_pool_size: &str,
        analyze_regions: &str,
        dryrun: &str,
    ) -> (r: Option<MosallocConfig>)
        ensures
            match (
                parse_usize_spec(anon_ffa_size@),
                parse_usize_spec(file_ffa_size@),
                parse_usize_spec(file_pool_size@),
                parse_bool_spec(analyze_regions@),
                parse_bool_spec(dryrun@),
            ) {
                (Some(anon), Some(file), Some(pool), Some(analyze), Some(dry)) => {
                    &&& r.is_some()
                    &&& r.unwrap().pool_config == pool_config
                    &&& r.unwrap().anon_ffa_size == anon
                    &&& r.unwrap().file_ffa_size == file
                    &&& r.unwrap().file_pool_size == pool
                    &&& r.unwrap().analyze_regions == analyze
                    &&& r.unwrap().dryrun == dry
                },
                _ => r.is_none(),
            },
    {
        match (
            parse_usize(anon_ffa_size),
            parse_usize(file_ffa_size),
            parse_usize(file_pool_size),
            parse_bool(analyze_regions),
            parse_bool(dryrun),
        ) {
            (Some(anon), Some(file), Some(pool), Some(analyze), Some(dry)) => Some(
                MosallocConfig {
                    pool_config,
                    anon_ffa_size: anon,
                    file_ffa_size: file,
                    file_pool_size: pool,
                    analyze_regions: analyze,
                    dryrun: dry,
                },
            ),
            _ => None,
        }
    }

    /// The environment variables that hold the settings, each with its
    /// value, in the order in which they are set.
    pub fn save(&self) -> (r: Vec<(String, String)>)
        ensures
            r@.len() == 6,
            r@[0].0@ == "HPC_ANON_FFA_SIZE"@ && r@[0].1@ == decimal(self.anon_ffa_size as nat),
            r@[1].0@ == "HPC_FILE_FFA_SIZE"@ && r@[1].1@ == decimal(self.file_ffa_size as nat),
            r@[2].0@ == "HPC_FILE_POOL_SIZE"@ && r@[2].1@ == decimal(self.file_pool_size as nat),
            r@[3].0@ == "HPC_ANALYZE_HPBRS"@ && r@[3].1@ == bool_text(self.analyze_regions),
            r@[4].0@ == "HPC_DRYRUN"@ && r@[4].1@ == bool_text(self.dryrun),
            r@[5].0@ == "HPC_CONFIG_FILE"@ && r@[5].1@ == self.pool_config@,
    {
        let mut out: Vec<(String, String)> = Vec::new();
        out.push((String::from_str("HPC_ANON_FFA_SIZE"), decimal_string(self.anon_ffa_size)));
        out.push((String::from_str("HPC_FILE_FFA_SIZE"), decimal_string(self.file_ffa_size)));
        out.push((String::from_str("HPC_FILE_POOL_SIZE"), decimal_string(self.file_pool_size)));
        out.push((String::from_str("HPC_ANALYZE_HPBRS"), bool_string(self.analyze_regions)));
        out.push((String::from_str("HPC_DRYRUN"), bool_string(self.dryrun)));
        out.push((String::from_str("HPC_CONFIG_FILE"), self.pool_config.clone()));
        out
    }
}

/// The `n` KiB that a number of KiB holds in bytes, in the low bits of a
/// `usize`.
pub open spec fn kib_to_bytes(n: usize) -> usize {
    ((n as u64) << 10) as usize
}

/// The page size that the name of a directory of a huge-page pool writes,
/// such as `hugepages-2048kB`: the number between the first `-` and the `kB`
/// at the end, in KiB.
pub open spec fn dir_size(name: Seq<char>) -> Option<usize> {
    let n = name.len() as int;
    let dash = index_of(name, '-', 0, n);
    if dash >= n || n - (dash + 1) < 2 || name.subrange(n - 2, n) != "kB"@ {
        None
    } else {
        match parse_usize_spec(name.subrange(dash + 1, n - 2)) {
            Some(k) => Some(kib_to_bytes(k)),
            None => None,
        }
    }
}

/// The page size that the name of a directory of a huge-page pool writes.
pub fn htlb_dir_size(name: &str) -> (r: Option<usize>)
    ensures
        r == dir_size(name@),
{
    let v = chars_of(name);
    let n = v.len();
    let dash = find_in(&v, '-', 0, n);
    if dash >= n || n - (dash + 1) < 2 || !slice_is(&v, n - 2, n, "kB") {
        return None;
    }
    match parse_usize_in(&v, dash + 1, n - 2) {
        Some(k) => {
            let wide: u64 = (k as u64) << 10;
            Some(#[verifier::truncate] (wide as usize))
        },
        None => None,
    }
}

/// The number of elements at the front of `v` that are at or below `x`,
/// counted from the `k`-th on.
pub open spec fn sorted_index(v: Seq<usize>, x: usize, k: int) -> int
    decreases v.len() - k,
{
    if 0 <= k < v.len() && v[k] <= x {
        sorted_index(v, x, k + 1)
    } else {
        k
    }
}

/// The page sizes that the first `n` names write, smallest first; `None` if
/// one of them writes none.
pub open spec fn sizes_from(names: Seq<String>, n: int) -> Option<Seq<usize>>
    decreases n,
{
    if n <= 0 || n > names.len() {
        Some(Seq::empty())
    } else {
        match (sizes_from(names, n - 1), dir_size(names[n - 1]@)) {
            (Some(v), Some(x)) => Some(v.insert(sorted_index(v, x, 0), x)),
            _ => None,
        }
    }
}

/// Whether `v` is sorted, smallest first.
pub open spec fn is_sorted(v: Seq<usize>) -> bool {
    forall|i: int, j: int| 0 <= i <= j < v.len() ==> v[i] <= v[j]
}

/// The index at which a number is put into a sorted sequence lies in it or
/// at its end; all before it is at or below the number, and what is at it
/// lies above.
pub proof fn lemma_sorted_index(v: Seq<usize>, x: usize, k: int)
    requires
        0 <= k <= v.len(),
        forall|i: int| 0 <= i < k ==> v[i] <= x,
    ensures
        k <= sorted_index(v, x, k) <= v.len(),
        forall|i: int| 0 <= i < sorted_index(v, x, k) ==> v[i] <= x,
        sorted_index(v, x, k) < v.len() ==> v[sorted_index(v, x, k)] > x,
    decreases v.len() - k,
{
    if k < v.len() && v[k] <= x {
        lemma_sorted_index(v, x, k + 1);
    }
}

/// The page sizes that names write are sorted, and there is one for each
/// name.
pub proof fn lemma_sizes_sorted(names: Seq<String>, n: int)
    requires
        0 <= n <= names.len(),
    ensures
        sizes_from(names, n).is_some() ==> is_sorted(sizes_from(names, n).unwrap())
            && sizes_from(names, n).unwrap().len() == n,
    decreases n,
{
    if n > 0 {
        lemma_sizes_sorted(names, n - 1);
        match (sizes_from(names, n - 1), dir_size(names[n - 1]@)) {
            (Some(v), Some(x)) => {
                lemma_sorted_index(v, x, 0);
                let k = sorted_index(v, x, 0);
                let out = v.insert(k, x);
                assert forall|i: int, j: int| 0 <= i <= j < out.len() implies out[i] <= out[j] by {
                    let i0 = if i < k {
                        i
                    } else {
                        i - 1
                    };
                    let j0 = if j < k {
                        j
                    } else {
                        j - 1
                    };
                    if i != k && j != k {
                        assert(v[i0] <= v[j0]);
                    } else if i == k && j != k {
                        assert(v[k] <= v[j0]);
                    }
                }
            },
            _ => {},
        }
    }
}

fn index_in_sorted(v: &Vec<usize>, x: usize) -> (k: usize)
    ensures
        k == sorted_index(v@, x, 0),
        k <= v@.len(),
{
    let n = v.len();
    let mut k: usize = 0;
    while k < n && v[k] <= x
        invariant
            k <= n,
            n == v@.len(),
            sorted_index(v@, x, 0) == sorted_index(v@, x, k as int),
        decreases n - k,
    {
        k += 1;
    }
    k
}

/// The machine's sizes of huge page, smallest first, from the names of the
/// directories of its huge-page pools. There are none if one of the names
/// writes no size.
pub fn supported_htlb_sizes(names: &Vec<String>) -> (r: Option<Vec<usize>>)
    ensures
        match sizes_from(names@, names@.len() as int) {
            Some(v) => r.is_some() && r.unwrap()@ == v && is_sorted(v),
            None => r.is_none(),
        },
{
    let n = names.len();
    let mut sizes: Vec<usize> = Vec::new();
    let mut i: usize = 0;
    while i < n
        invariant
            i <= n,
            n == names@.len(),
            sizes_from(names@, i as int) == Some(sizes@),
        decreases n - i,
    {
        match htlb_dir_size(names[i].as_str()) {
            None => {
                proof {
                    lemma_sizes_fail(names@, i + 1, n as int);
                }
                return None;
            },
            Some(x) => {
                let k = index_in_sorted(&sizes, x);
                sizes.insert(k, x);
            },
        }
        i += 1;
    }
    proof {
        lemma_sizes_sorted(names@, n as int);
    }
    Some(sizes)
}

/// Once names write no sizes, more names write none either.
pub proof fn lemma_sizes_fail(names: Seq<String>, k: int, n: int)
    requires
        0 <= k <= n <= names.len(),
        sizes_from(names, k).is_none(),
    ensures
        sizes_from(names, n).is_none(),
    decreases n - k,
{
    if k < n {
        lemma_sizes_fail(names, k, n - 1);
    }
}

/// The file that holds the number of huge pages of `sz` bytes on the node
/// `node`.
pub open spec fn pages_file(node: Id, sz: usize) -> Seq<char> {
    joined(
        node_path(node) + "/hugepages/hugepages-"@ + decimal((sz as u64 >> 10) as nat) + "kB"@,
        "nr_hugepages"@,
    )
}

fn pages_path(sizes: &Vec<usize>, node: Id, sz: usize) -> (r: Result<String, String>)
    ensures
        sizes@.contains(sz) ==> r.is_ok() && r.unwrap()@ == pages_file(node, sz),
        !sizes@.contains(sz) ==> r.is_err() && r.unwrap_err()@ == "invalid htlb size "@ + decimal(
            sz as nat,
        ),
{
    if !vec_contains(sizes, sz) {
        let mut msg = String::from_str("invalid htlb size ");
        push_decimal(&mut msg, sz);
        Err(msg)
    } else {
        let kib: u64 = (sz as u64) >> 10;
        Ok(sysfs_path_htlb(node, kib as usize, "nr_hugepages"))
    }
}

/// The write that sets the number of huge pages of `sz` bytes on the node
/// `node` to `nr`: the file and the text to write to it. An error if `sz` is
/// not among the machine's page sizes `sizes`.
pub fn set_htlb_pages_node(sizes: &Vec<usize>, node: Id, sz: usize, nr: usize) -> (r: Result<
    (String, String),
    String,
>)
    ensures
        sizes@.contains(sz) ==> r.is_ok() && r.unwrap().0@ == pages_file(node, sz)
            && r.unwrap().1@ == decimal(nr as nat),
        !sizes@.contains(sz) ==> r.is_err() && r.unwrap_err()@ == "invalid htlb size "@ + decimal(
            sz as nat,
        ),
{
    match pages_path(sizes, node, sz) {
        Ok(path) => Ok((path, decimal_string(nr))),
        Err(e) => Err(e),
    }
}

/// The file to read for the number of huge pages of `sz` bytes on the node
/// `node`. An error if `sz` is not among the machine's page sizes `sizes`.
pub fn get_htlb_pages_node(sizes: &Vec<usize>, node: Id, sz: usize) -> (r: Result<String, String>)
    ensures
        sizes@.contains(sz) ==> r.is_ok() && r.unwrap()@ == pages_file(node, sz),
        !sizes@.contains(sz) ==> r.is_err() && r.unwrap_err()@ == "invalid htlb size "@ + decimal(
            sz as nat,
        ),
{
    pages_path(sizes, node, sz)
}

/// The number that the text `s` writes, without the white space at its
/// ends.
pub open spec fn trimmed_number(s: Seq<char>) -> Option<usize> {
    let (a, b) = trim_bounds(s, 0, s.len() as int);
    parse_usize_spec(s.subrange(a, b))
}

/// The number of huge pages that the text of a pool's file writes.
pub fn pages_from_text(text: &str) -> (r: Option<usize>)
    ensures
        r == trimmed_number(text@),
{
    let v = chars_of(text);
    let (a, b) = trim_in(&v, 0, v.len());
    parse_usize_in(&v, a, b)
}

/// The line of the report on the pool of the `i`-th page size.
pub open spec fn status_line(node: Id, sizes: Seq<usize>, counts: Seq<usize>, i: int) -> Seq<char> {
    "# of "@ + size_text(sizes[i]) + " pages (node "@ + decimal(node as nat) + ") == "@ + decimal(
        counts[i] as nat,
    ) + "\n"@
}

/// The lines of the report on the pools of the first `n` page sizes.
pub open spec fn status_lines(node: Id, sizes: Seq<usize>, counts: Seq<usize>, n: int) -> Seq<char>
    decreases n,
{
    if n <= 0 {
        Seq::empty()
    } else {
        status_lines(node, sizes, counts, n - 1) + status_line(node, sizes, counts, n - 1)
    }
}

/// The report on the huge pages of the node `node`: a heading, a line for
/// each of the machine's page sizes `sizes` with the number of pages in its
/// pool, which `counts` holds, and an empty line.
pub fn print_htlb_status_node(node: Id, sizes: &Vec<usize>, counts: &Vec<usize>) -> (r: String)
    requires
        counts@.len() == sizes@.len(),
    ensures
        r@ == "HugeTLB status for node "@ + decimal(node as nat) + "\n"@ + status_lines(
            node,
            sizes@,
            counts@,
            sizes@.len() as int,
        ) + "\n"@,
{
    let mut out = String::from_str("HugeTLB status for node ");
    push_decimal(&mut out, node);
    out.append("\n");
    let ghost head = out@;
    let n = sizes.len();
    let mut i: usize = 0;
    while i < n
        invariant
            i <= n,
            n == sizes@.len(),
            counts@.len() == sizes@.len(),
            out@ == head + status_lines(node, sizes@, counts@, i as int),
        decreases n - i,
    {
        out.append("# of ");
        let sz = size_to_str(sizes[i]);
        out.append(sz.as_str());
        out.append(" pages (node ");
        push_decimal(&mut out, node);
        out.append(") == ");
        push_decimal(&mut out, counts[i]);
        out.append("\n");
        proof {
            assert(out@ =~= head + status_lines(node, sizes@, counts@, i + 1));
        }
        i += 1;
    }
    out.append("\n");
    out
}

/// A switch of the kernel to set and to report: the file of the switch, the
/// text to write to it first, if any, and the label under which what the
/// file then holds is printed.
#[derive(Debug)]
pub struct Switch {
    pub path: String,
    pub write: Option<String>,
    pub label: String,
}

/// Whether `sw` is the switch in the file `path` with the label `label`,
/// which is set to `text` unless `readonly`.
pub open spec fn is_switch(
    sw: Switch,
    path: Seq<char>,
    text: Seq<char>,
    label: Seq<char>,
    readonly: bool,
) -> bool {
    &&& sw.path@ == path
    &&& sw.label@ == label
    &&& readonly ==> sw.write.is_none()
    &&& !readonly ==> sw.write.is_some() && sw.write.unwrap()@ == text
}

/// Turns transparent huge pages off, unless `readonly`, and reports how the
/// switch stands.
pub fn disable_thp(readonly: bool) -> (r: Switch)
    ensures
        is_switch(r, SYSFS_THP_ENABLED@, "never"@, "thp: "@, readonly),
{
    Switch {
        path: sysfs_path_thp_enabled(),
        write: if readonly {
            None
        } else {
            Some(String::from_str("never"))
        },
        label: String::from_str("thp: "),
    }
}

/// Turns memory overcommit on, unless `readonly`, and reports how the switch
/// stands.
pub fn enable_overcommit(readonly: bool) -> (r: Switch)
    ensures
        is_switch(r, SYSFS_OVERCOMMIT@, "1"@, "overcommit: "@, readonly),
{
    Switch {
        path: sysfs_path_overcommit(),
        write: if readonly {
            None
        } else {
            Some(String::from_str("1"))
        },
        label: String::from_str("overcommit: "),
    }
}

} // verus!
