//! Placing the three regions: a scan of the process's mappings for a gap
//! that holds the heap, the anonymous and the file-backed region, in that
//! order.

use crate::misc::{ceil_to, checked_align_up, is_pow2, lemma_ceil_bounds};
use crate::text::{
    chars_of, drop_spaces, find_in, find_space, find_space_back, index_of, parse_hex_in,
    parse_hex_spec, skip_spaces, slice_is, token_end, token_start, trim_in,
};
use vstd::prelude::*;

verus! {

/// One mapping of the process: its address range, and whether it is the
/// stack.
#[derive(Debug, Clone, Copy, PartialEq, Eq, Structural)]
pub struct Mapping {
    pub start: usize,
    pub end: usize,
    pub is_stack: bool,
}

/// How far the scan has come: the region that it places next, or how it
/// ended.
#[derive(Debug, Clone, Copy, PartialEq, Eq, Structural)]
pub enum Stage {
    Heap,
    Anon,
    File,
    /// All three regions are placed.
    Done,
    /// There is no suitable gap.
    Failed,
}

/// The largest page size and the length of each region.
#[derive(Debug, Clone, Copy, PartialEq, Eq, Structural)]
pub struct Dims {
    pub heap_pgsz: usize,
    pub heap_len: usize,
    pub anon_pgsz: usize,
    pub anon_len: usize,
    pub file_pgsz: usize,
    pub file_len: usize,
}

/// The state of the scan. `last` is the aligned end of the last mapping that
/// was considered, `upper` the address from which the next region may start;
/// the start of a region counts once the scan is past its stage.
#[derive(Debug, Clone, Copy, PartialEq, Eq, Structural)]
pub struct Scan {
    pub stage: Stage,
    pub last: usize,
    pub upper: usize,
    pub heap_start: usize,
    pub anon_start: usize,
    pub file_start: usize,
}

/// The largest page size of the region that is placed at `s`.
pub open spec fn pgsz_of(d: Dims, s: Stage) -> usize {
    match s {
        Stage::Heap => d.heap_pgsz,
        Stage::Anon => d.anon_pgsz,
        _ => d.file_pgsz,
    }
}

/// The length of the region that is placed at `s`.
pub open spec fn len_of(d: Dims, s: Stage) -> usize {
    match s {
        Stage::Heap => d.heap_len,
        Stage::Anon => d.anon_len,
        _ => d.file_len,
    }
}

/// Whether a region is still to be placed at `s`.
pub open spec fn is_open(s: Stage) -> bool {
    s == Stage::Heap || s == Stage::Anon || s == Stage::File
}

/// The stage after `s`.
pub open spec fn next_stage(s: Stage) -> Stage {
    match s {
        Stage::Heap => Stage::Anon,
        Stage::Anon => Stage::File,
        Stage::File => Stage::Done,
        other => other,
    }
}

/// The number of regions still to be placed at `s`.
pub open spec fn rank(s: Stage) -> nat {
    match s {
        Stage::Heap => 3,
        Stage::Anon => 2,
        Stage::File => 1,
        _ => 0,
    }
}

/// The state `st` with the region of its stage started at `st.last`.
pub open spec fn with_start(st: Scan) -> Scan {
    match st.stage {
        Stage::Heap => Scan { heap_start: st.last, ..st },
        Stage::Anon => Scan { anon_start: st.last, ..st },
        Stage::File => Scan { file_start: st.last, ..st },
        _ => st,
    }
}

/// Whether the gap from `st.last` up to a mapping that starts at `a` holds
/// the region of the stage.
pub open spec fn has_gap(st: Scan, a: usize, d: Dims) -> bool {
    &&& is_open(st.stage)
    &&& st.last >= st.upper
    &&& st.last < a
    &&& a - st.last >= len_of(d, st.stage)
}

/// Places regions below a mapping that starts at `a`, while the gap holds
/// the next one: the region starts at `last`, and the one after it may start
/// at its end, rounded up to that region's largest page size.
pub open spec fn place(st: Scan, a: usize, d: Dims) -> Scan
    decreases rank(st.stage),
{
    if !has_gap(st, a, d) {
        st
    } else {
        let placed = with_start(st);
        let top = st.last + len_of(d, st.stage);
        let next = next_stage(st.stage);
        if next == Stage::Done {
            Scan { stage: Stage::Done, upper: top as usize, ..placed }
        } else {
            let up = ceil_to(top, pgsz_of(d, next) as int);
            if up > usize::MAX {
                Scan { stage: Stage::Failed, ..placed }
            } else {
                place(Scan { stage: next, last: up as usize, upper: up as usize, ..placed }, a, d)
            }
        }
    }
}

/// The scan's step for the mapping `m`. While `last` lies below `upper` it
/// moves to the end of `m`, rounded up. From then on regions are placed
/// below `m` as far as the gap holds them; the scan fails if the heap is not
/// placed then, or if `m` is the stack and a region is still to be placed.
pub open spec fn scan_line(st: Scan, m: Mapping, d: Dims) -> Scan {
    if !is_open(st.stage) {
        st
    } else if st.last < st.upper {
        let up = ceil_to(m.end as int, pgsz_of(d, st.stage) as int);
        if up > usize::MAX {
            Scan { stage: Stage::Failed, ..st }
        } else {
            Scan { last: up as usize, ..st }
        }
    } else {
        let after = place(st, m.start, d);
        if is_open(after.stage) && (after.stage == Stage::Heap || m.is_stack) {
            Scan { stage: Stage::Failed, ..after }
        } else {
            after
        }
    }
}

/// The scan of the mappings from the `k`-th on, begun in the state `st`.
pub open spec fn scan_from(st: Scan, maps: Seq<Mapping>, k: int, d: Dims) -> Scan
    decreases maps.len() - k,
{
    if k < 0 || k >= maps.len() {
        st
    } else {
        scan_from(scan_line(st, maps[k], d), maps, k + 1, d)
    }
}

/// The state in which the scan begins, for a program break at `brk`: the
/// heap may start at the break, rounded up to its largest page size.
pub open spec fn scan_start(brk: usize, d: Dims) -> Scan {
    let up = ceil_to(brk as int, d.heap_pgsz as int);
    Scan {
        stage: if up > usize::MAX {
            Stage::Failed
        } else {
            Stage::Heap
        },
        last: 0,
        upper: if up > usize::MAX {
            0
        } else {
            up as usize
        },
        heap_start: 0,
        anon_start: 0,
        file_start: 0,
    }
}

/// Where the scan of `maps` places the regions, for a program break at `brk`.
pub open spec fn scan(brk: usize, maps: Seq<Mapping>, d: Dims) -> Scan {
    scan_from(scan_start(brk, d), maps, 0, d)
}

/// Whether every region's largest page size is a power of two.
pub open spec fn dims_wf(d: Dims) -> bool {
    is_pow2(d.heap_pgsz) && is_pow2(d.anon_pgsz) && is_pow2(d.file_pgsz)
}

/// Whether the heap has its place in the state `st`.
pub open spec fn heap_placed(st: Scan) -> bool {
    st.stage == Stage::Anon || st.stage == Stage::File || st.stage == Stage::Done
}

/// Whether the anonymous region has its place in the state `st`.
pub open spec fn anon_placed(st: Scan) -> bool {
    st.stage == Stage::File || st.stage == Stage::Done
}

/// Whether the file-backed region has its place in the state `st`.
pub open spec fn file_placed(st: Scan) -> bool {
    st.stage == Stage::Done
}

/// What holds of every state of a scan that has not failed: a region that is
/// placed starts at a multiple of its largest page size and ends at or below
/// the start of the next one, and the region to place next would start at
/// such a multiple, at or above the end of the one before it.
pub open spec fn scan_inv(st: Scan, d: Dims) -> bool {
    &&& is_open(st.stage) ==> st.last as int % pgsz_of(d, st.stage) as int == 0
    &&& heap_placed(st) ==> {
        &&& st.heap_start as int % d.heap_pgsz as int == 0
        &&& st.heap_start + d.heap_len <= usize::MAX
    }
    &&& st.stage == Stage::Anon ==> st.last == st.upper && st.heap_start + d.heap_len <= st.last
    &&& anon_placed(st) ==> {
        &&& st.anon_start as int % d.anon_pgsz as int == 0
        &&& st.heap_start + d.heap_len <= st.anon_start
        &&& st.anon_start + d.anon_len <= usize::MAX
    }
    &&& st.stage == Stage::File ==> st.last == st.upper && st.anon_start + d.anon_len <= st.last
    &&& file_placed(st) ==> {
        &&& st.file_start as int % d.file_pgsz as int == 0
        &&& st.anon_start + d.anon_len <= st.file_start
        &&& st.file_start + d.file_len <= usize::MAX
    }
}

/// Placing regions keeps what `scan_inv` states.
pub proof fn lemma_place_inv(st: Scan, a: usize, d: Dims)
    requires
        dims_wf(d),
        scan_inv(st, d),
    ensures
        place(st, a, d).stage == Stage::Failed || scan_inv(place(st, a, d), d),
    decreases rank(st.stage),
{
    if has_gap(st, a, d) {
        let placed = with_start(st);
        let top = st.last + len_of(d, st.stage);
        let next = next_stage(st.stage);
        if next != Stage::Done {
            let up = ceil_to(top, pgsz_of(d, next) as int);
            lemma_ceil_bounds(top, pgsz_of(d, next) as int);
            if up <= usize::MAX {
                let st2 = Scan { stage: next, last: up as usize, upper: up as usize, ..placed };
                lemma_place_inv(st2, a, d);
            }
        }
    }
}

/// One step of the scan keeps what `scan_inv` states.
pub proof fn lemma_scan_line_inv(st: Scan, m: Mapping, d: Dims)
    requires
        dims_wf(d),
        scan_inv(st, d),
    ensures
        scan_line(st, m, d).stage == Stage::Failed || scan_inv(scan_line(st, m, d), d),
{
    if is_open(st.stage) {
        if st.last < st.upper {
            lemma_ceil_bounds(m.end as int, pgsz_of(d, st.stage) as int);
        } else {
            lemma_place_inv(st, m.start, d);
        }
    }
}

/// A scan that begins in a state of which `scan_inv` holds fails or ends in
/// such a state.
pub proof fn lemma_scan_from_inv(st: Scan, maps: Seq<Mapping>, k: int, d: Dims)
    requires
        dims_wf(d),
        st.stage == Stage::Failed || scan_inv(st, d),
    ensures
        scan_from(st, maps, k, d).stage == Stage::Failed || scan_inv(scan_from(st, maps, k, d), d),
    decreases maps.len() - k,
{
    if 0 <= k < maps.len() {
        if st.stage != Stage::Failed {
            lemma_scan_line_inv(st, maps[k], d);
        }
        lemma_scan_from_inv(scan_line(st, maps[k], d), maps, k + 1, d);
    }
}

/// The regions that a scan places do not overlap, lie in the order heap,
/// anonymous, file-backed, and each starts at a multiple of its largest page
/// size.
pub proof fn lemma_scan_inv(brk: usize, maps: Seq<Mapping>, d: Dims)
    requires
        dims_wf(d),
    ensures
        scan(brk, maps, d).stage == Stage::Failed || scan_inv(scan(brk, maps, d), d),
{
    lemma_scan_from_inv(scan_start(brk, d), maps, 0, d);
}

fn stage_pgsz(d: &Dims, s: Stage) -> (r: usize)
    ensures
        r == pgsz_of(*d, s),
{
    match s {
        Stage::Heap => d.heap_pgsz,
        Stage::Anon => d.anon_pgsz,
        _ => d.file_pgsz,
    }
}

fn stage_len(d: &Dims, s: Stage) -> (r: usize)
    ensures
        r == len_of(*d, s),
{
    match s {
        Stage::Heap => d.heap_len,
        Stage::Anon => d.anon_len,
        _ => d.file_len,
    }
}

fn stage_is_open(s: Stage) -> (r: bool)
    ensures
        r == is_open(s),
{
    match s {
        Stage::Heap | Stage::Anon | Stage::File => true,
        _ => false,
    }
}

/// Places regions below a mapping that starts at `a`, while the gap holds
/// the next one.
pub fn place_in_gap(st: Scan, a: usize, d: &Dims) -> (r: Scan)
    requires
        dims_wf(*d),
    ensures
        r == place(st, a, *d),
    decreases rank(st.stage),
{
    if !(stage_is_open(st.stage) && st.last >= st.upper && st.last < a && a - st.last
        >= stage_len(d, st.stage)) {
        return st;
    }
    let top = st.last + stage_len(d, st.stage);
    match st.stage {
        Stage::Heap => {
            match checked_align_up(top, d.anon_pgsz) {
                None => Scan { stage: Stage::Failed, heap_start: st.last, ..st },
                Some(up) => place_in_gap(
                    Scan { stage: Stage::Anon, last: up, upper: up, heap_start: st.last, ..st },
                    a,
                    d,
                ),
            }
        },
        Stage::Anon => {
            match checked_align_up(top, d.file_pgsz) {
                None => Scan { stage: Stage::Failed, anon_start: st.last, ..st },
                Some(up) => place_in_gap(
                    Scan { stage: Stage::File, last: up, upper: up, anon_start: st.last, ..st },
                    a,
                    d,
                ),
            }
        },
        _ => Scan { stage: Stage::Done, upper: top, file_start: st.last, ..st },
    }
}

/// The scan's step for the mapping `m`.
pub fn scan_mapping(st: Scan, m: &Mapping, d: &Dims) -> (r: Scan)
    requires
        dims_wf(*d),
    ensures
        r == scan_line(st, *m, *d),
{
    if !stage_is_open(st.stage) {
        st
    } else if st.last < st.upper {
        match checked_align_up(m.end, stage_pgsz(d, st.stage)) {
            None => Scan { stage: Stage::Failed, ..st },
            Some(up) => Scan { last: up, ..st },
        }
    } else {
        let after = place_in_gap(st, m.start, d);
        let open = stage_is_open(after.stage);
        let at_heap = match after.stage {
            Stage::Heap => true,
            _ => false,
        };
        if open && (at_heap || m.is_stack) {
            Scan { stage: Stage::Failed, ..after }
        } else {
            after
        }
    }
}

/// Scans the mappings `maps`, lowest first, for the places of the three
/// regions, for a program break at `brk`.
pub fn scan_maps(brk: usize, maps: &Vec<Mapping>, d: &Dims) -> (r: Scan)
    requires
        dims_wf(*d),
    ensures
        r == scan(brk, maps@, *d),
        r.stage == Stage::Failed || scan_inv(r, *d),
{
    let mut st = match checked_align_up(brk, d.heap_pgsz) {
        None => Scan {
            stage: Stage::Failed,
            last: 0,
            upper: 0,
            heap_start: 0,
            anon_start: 0,
            file_start: 0,
        },
        Some(up) => Scan {
            stage: Stage::Heap,
            last: 0,
            upper: up,
            heap_start: 0,
            anon_start: 0,
            file_start: 0,
        },
    };
    let n = maps.len();
    let mut i: usize = 0;
    while i < n
        invariant
            i <= n,
            n == maps@.len(),
            dims_wf(*d),
            scan_from(st, maps@, i as int, *d) == scan(brk, maps@, *d),
        decreases n - i,
    {
        st = scan_mapping(st, &maps[i], d);
        i += 1;
    }
    proof {
        lemma_scan_inv(brk, maps@, *d);
    }
    st
}

/// The mapping that one line of the process's table of mappings writes. The
/// line's first word holds the start and the end of the range in base 16,
/// with a `-` between them; the mapping is the stack if the last word is
/// `[stack]`. `None` if the line has no word or its first word is no range.
pub open spec fn maps_line(s: Seq<char>) -> Option<Mapping> {
    let n = s.len() as int;
    let a = skip_spaces(s, 0, n);
    let e = token_end(s, a, n);
    let dash = index_of(s, '-', a, e);
    let last_end = drop_spaces(s, a, n);
    let last_start = token_start(s, a, last_end);
    if a >= n || dash >= e {
        None
    } else {
        match (parse_hex_spec(s.subrange(a, dash)), parse_hex_spec(s.subrange(dash + 1, e))) {
            (Some(start), Some(end)) => Some(
                Mapping { start, end, is_stack: s.subrange(last_start, last_end) == "[stack]"@ },
            ),
            _ => None,
        }
    }
}

/// Reads one line of the process's table of mappings.
pub fn parse_maps_line(line: &str) -> (r: Option<Mapping>)
    ensures
        r == maps_line(line@),
{
    let v = chars_of(line);
    let n = v.len();
    let (a, last_end) = trim_in(&v, 0, n);
    if a >= n {
        return None;
    }
    let e = find_space(&v, a, n);
    let dash = find_in(&v, '-', a, e);
    if dash >= e {
        return None;
    }
    let last_start = find_space_back(&v, a, last_end);
    match (parse_hex_in(&v, a, dash), parse_hex_in(&v, dash + 1, e)) {
        (Some(start), Some(end)) => Some(
            Mapping { start, end, is_stack: slice_is(&v, last_start, last_end, "[stack]") },
        ),
        _ => None,
    }
}

} // verus!
