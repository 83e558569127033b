use mosalloc::allocator::{Action, Allocator};
use mosalloc::backing::MapRequest;
use mosalloc::bootstrap::Mapping;
use mosalloc::consts::{
    EEXIST, EINVAL, ENOMEM, MAP_ANONYMOUS, MAP_FIXED, MAP_FIXED_NOREPLACE, MAP_HUGETLB,
    MAP_PRIVATE, MAP_SHARED, MREMAP_FIXED, MREMAP_MAYMOVE, PROT_READ, PROT_WRITE,
};
use mosalloc::htlb::{AllocType, Interval, MosallocConfig, Pool};

const KIB: usize = 1 << 10;
const MIB: usize = 1 << 20;
const GIB: usize = 1 << 30;
const RW: i32 = PROT_READ | PROT_WRITE;
const ANON: i32 = MAP_ANONYMOUS | MAP_PRIVATE;
const BRK: usize = 0x1000_0000;

fn pool(kind: AllocType, tiles: &[(usize, usize, usize)]) -> Pool {
    Pool {
        alloc_type: kind,
        intervals: tiles
            .iter()
            .map(|&(pagesz, start, end)| Interval { pagesz, start, end })
            .collect(),
    }
}

fn config(file_pool_size: usize, dryrun: bool) -> MosallocConfig {
    MosallocConfig {
        pool_config: String::from("plan.csv"),
        anon_ffa_size: 16,
        file_ffa_size: 16,
        file_pool_size,
        analyze_regions: false,
        dryrun,
    }
}

fn maps() -> Vec<Mapping> {
    vec![
        Mapping { start: 0x40_0000, end: BRK, is_stack: false },
        Mapping { start: 0x7000_0000_0000, end: 0x7000_0010_0000, is_stack: true },
    ]
}

fn make(heap: &[(usize, usize, usize)], anon: &[(usize, usize, usize)], drained: bool) -> Allocator {
    Allocator::new(
        &config(16 * MIB, false),
        pool(AllocType::BRK, heap),
        pool(AllocType::ANON, anon),
        BRK,
        &maps(),
        drained,
    )
    .unwrap()
}

fn free(r: &mosalloc::region::Region) -> Vec<(usize, usize)> {
    let m = r.free_map();
    (0..m.len()).map(|i| (m.get(i).start, m.get(i).end)).collect()
}

fn ret(act: Action) -> (usize, Vec<MapRequest>) {
    match act {
        Action::Return { ret, backing } => (ret, backing),
        other => panic!("expected a return, got {:?}", other),
    }
}

fn errno(act: Action) -> i32 {
    match act {
        Action::Fail { errno } => errno,
        other => panic!("expected a failure, got {:?}", other),
    }
}

#[test]
fn regions_are_placed_in_order() {
    let a = make(&[(2 * MIB, 0, 2 * MIB)], &[(GIB, 0, GIB)], true);
    assert_eq!(a.heap.start, BRK);
    assert_eq!(a.heap.max, BRK + 2 * MIB);
    assert_eq!(a.heap.end, a.heap.start);
    assert_eq!(a.anon_region.start, GIB);
    assert_eq!(a.anon_region.max, 2 * GIB);
    assert_eq!(a.file_region.start, 2 * GIB);
    assert_eq!(a.file_region.max, 2 * GIB + 16 * MIB);
    assert_eq!(free(&a.heap), vec![(BRK, BRK + 2 * MIB)]);
    assert_eq!(free(&a.anon_region), vec![(GIB, 2 * GIB)]);
    assert_eq!(free(&a.file_region), vec![(2 * GIB, 2 * GIB + 16 * MIB)]);
}

#[test]
fn sbrk_fails_before_the_drain_and_moves_the_break_after() {
    let mut a = make(&[(2 * MIB, 0, 2 * MIB)], &[(GIB, 0, GIB)], false);
    assert_eq!(errno(a.sbrk(4096)), ENOMEM);
    assert_eq!(a.heap.end, a.heap.start);
    a.drain();
    let start = a.heap.start;
    assert_eq!(ret(a.sbrk(0)), (start, vec![]));
    let (old, backing) = ret(a.sbrk(4096));
    assert_eq!(old, start);
    assert_eq!(backing.len(), 1);
    assert_eq!(backing[0].addr, start);
    assert_eq!(backing[0].len, 2 * MIB);
    assert_eq!(backing[0].prot, RW);
    assert_eq!(backing[0].flags, ANON | MAP_FIXED_NOREPLACE | MAP_HUGETLB | (21 << 26));
    assert_eq!(backing[0].fd, -1);
    assert_eq!(backing[0].offset, 0);
    assert_eq!(ret(a.sbrk(0)).0, start + 4096);
    assert_eq!(free(&a.heap), vec![(start + 4096, start + 2 * MIB)]);
}

#[test]
fn sbrk_up_and_down_restores_the_heap() {
    let mut a = make(&[(2 * MIB, 0, 2 * MIB)], &[(GIB, 0, GIB)], true);
    ret(a.sbrk(8192));
    let end = a.heap.end;
    let before = free(&a.heap);
    assert_eq!(ret(a.sbrk(3 * 4096)).0, end);
    assert_eq!(a.heap.end, end + 3 * 4096);
    assert_eq!(ret(a.sbrk(-3 * 4096)).0, end + 3 * 4096);
    assert_eq!(a.heap.end, end);
    assert_eq!(free(&a.heap), before);
}

#[test]
fn brk_returns_zero_and_rejects_what_is_outside_the_heap() {
    let mut a = make(&[(2 * MIB, 0, 2 * MIB)], &[(GIB, 0, GIB)], true);
    let start = a.heap.start;
    assert_eq!(ret(a.brk(start + 8192)).0, 0);
    assert_eq!(a.heap.end, start + 8192);
    assert_eq!(ret(a.brk(start + 4096)).0, 0);
    assert_eq!(a.heap.end, start + 4096);
    assert_eq!(errno(a.brk(start + 2 * MIB)), ENOMEM);
    assert_eq!(errno(a.brk(start - 1)), ENOMEM);
    assert_eq!(errno(a.sbrk(isize::MIN)), ENOMEM);
    assert_eq!(a.heap.end, start + 4096);
}

#[test]
fn mmap_of_the_whole_anon_region_gets_one_huge_tile() {
    let mut a = make(&[(2 * MIB, 0, 2 * MIB)], &[(GIB, 0, GIB)], true);
    let start = a.anon_region.start;
    let (addr, backing) = ret(a.mmap(0, GIB, RW, ANON, -1, 0));
    assert_eq!(addr, start);
    assert_eq!(
        backing,
        vec![MapRequest {
            addr: start,
            len: GIB,
            prot: RW,
            flags: ANON | MAP_FIXED_NOREPLACE | MAP_HUGETLB | (30 << 26),
            fd: -1,
            offset: 0,
        }]
    );
    assert_eq!(free(&a.anon_region), vec![]);
    assert_eq!(errno(a.mmap(0, GIB, RW, ANON, -1, 0)), ENOMEM);
}

#[test]
fn mmap_across_two_intervals_tiles_each_with_its_page_size() {
    let plan = [(2 * MIB, 0, 4 * MIB), (4 * KIB, 4 * MIB, 8 * MIB)];
    let mut a = make(&[(2 * MIB, 0, 2 * MIB)], &plan, true);
    let start = a.anon_region.start;
    let (addr, backing) = ret(a.mmap(0, 5 * MIB, RW, ANON, -1, 0));
    assert_eq!(addr, start);
    assert_eq!(backing.len(), 2 + 256);
    assert_eq!((backing[0].addr, backing[0].len), (start, 2 * MIB));
    assert_eq!((backing[1].addr, backing[1].len), (start + 2 * MIB, 2 * MIB));
    assert_eq!(backing[1].flags, ANON | MAP_FIXED_NOREPLACE | MAP_HUGETLB | (21 << 26));
    for (i, t) in backing[2..].iter().enumerate() {
        assert_eq!((t.addr, t.len), (start + 4 * MIB + i * 4 * KIB, 4 * KIB));
        assert_eq!(t.flags, ANON | MAP_FIXED_NOREPLACE);
    }
    assert_eq!(free(&a.anon_region), vec![(start + 5 * MIB, start + 8 * MIB)]);
}

#[test]
fn mmap_fixed_noreplace_fails_on_a_reserved_range() {
    let plan = [(2 * MIB, 0, 4 * MIB), (4 * KIB, 4 * MIB, 8 * MIB)];
    let mut a = make(&[(2 * MIB, 0, 2 * MIB)], &plan, true);
    let start = a.anon_region.start;
    ret(a.mmap(0, 5 * MIB, RW, ANON, -1, 0));
    let flags = ANON | MAP_FIXED_NOREPLACE;
    assert_eq!(errno(a.mmap(start + 2 * MIB, MIB, RW, flags, -1, 0)), EEXIST);
    assert_eq!(ret(a.munmap(start, 4 * MIB)), (0, vec![]));
    assert_eq!(
        free(&a.anon_region),
        vec![(start, start + 4 * MIB), (start + 5 * MIB, start + 8 * MIB)]
    );
    let (addr, backing) = ret(a.mmap(start + 2 * MIB, MIB, RW, flags, -1, 0));
    assert_eq!(addr, start + 2 * MIB);
    assert_eq!(backing.len(), 1);
    assert_eq!((backing[0].addr, backing[0].len), (start + 2 * MIB, 2 * MIB));
    assert_eq!(
        free(&a.anon_region),
        vec![(start, start + 2 * MIB), (start + 3 * MIB, start + 4 * MIB), (start + 5 * MIB, start + 8 * MIB)]
    );
}

#[test]
fn mmap_fixed_on_a_reserved_range_changes_nothing() {
    let mut a = make(&[(2 * MIB, 0, 2 * MIB)], &[(2 * MIB, 0, 8 * MIB)], true);
    let start = a.anon_region.start;
    ret(a.mmap(0, 4 * MIB, RW, ANON, -1, 0));
    let before = free(&a.anon_region);
    let end = a.anon_region.end;
    assert!(a.anon_region.is_range_reserved(start + MIB, MIB));
    let (addr, backing) = ret(a.mmap(start + MIB, MIB, RW, ANON | MAP_FIXED, -1, 0));
    assert_eq!(addr, start + MIB);
    assert_eq!(backing, vec![]);
    assert_eq!(free(&a.anon_region), before);
    assert_eq!(a.anon_region.end, end);
}

#[test]
fn mmap_with_a_taken_hint_goes_elsewhere() {
    let mut a = make(&[(2 * MIB, 0, 2 * MIB)], &[(2 * MIB, 0, 8 * MIB)], true);
    let start = a.anon_region.start;
    ret(a.mmap(0, 2 * MIB, RW, ANON, -1, 0));
    let (addr, _) = ret(a.mmap(start, 2 * MIB, RW, ANON, -1, 0));
    assert_eq!(addr, start + 2 * MIB);
    assert_eq!(errno(a.mmap(0, 8 * MIB, RW, ANON, -1, 0)), ENOMEM);
}

#[test]
fn mmap_is_forwarded_outside_the_regions_and_for_unusual_flags() {
    let mut a = make(&[(2 * MIB, 0, 2 * MIB)], &[(GIB, 0, GIB)], true);
    assert!(matches!(a.mmap(0x5000, 4096, RW, ANON, -1, 0), Action::Forward));
    assert!(matches!(a.mmap(0, 4096, RW, MAP_ANONYMOUS | MAP_SHARED, -1, 0), Action::Forward));
    assert!(matches!(a.mmap(0, 4096, RW, ANON | MAP_HUGETLB, -1, 0), Action::Forward));
    assert_eq!(free(&a.anon_region), vec![(GIB, 2 * GIB)]);
}

#[test]
fn anon_mmap_fails_before_the_drain() {
    let mut a = make(&[(2 * MIB, 0, 2 * MIB)], &[(GIB, 0, GIB)], false);
    assert_eq!(errno(a.mmap(0, 4096, RW, ANON, -1, 0)), ENOMEM);
    let start = a.anon_region.start;
    assert_eq!(errno(a.munmap(start, 4096)), EINVAL);
    assert_eq!(errno(a.mremap(start, 8192, 4096, 0, 0)), ENOMEM);
    assert!(matches!(a.mmap(0, 4096, RW, MAP_PRIVATE, 3, 0), Action::MapFile { .. }));
}

#[test]
fn file_mmap_reserves_and_has_the_file_mapped() {
    let mut a = make(&[(2 * MIB, 0, 2 * MIB)], &[(GIB, 0, GIB)], true);
    let start = a.file_region.start;
    let max = a.file_region.max;
    match a.mmap(0, MIB, PROT_READ, MAP_PRIVATE, 7, 4096) {
        Action::MapFile { request } => assert_eq!(
            request,
            MapRequest {
                addr: start,
                len: MIB,
                prot: PROT_READ,
                flags: MAP_PRIVATE | MAP_FIXED_NOREPLACE,
                fd: 7,
                offset: 4096,
            }
        ),
        other => panic!("expected a file mapping, got {:?}", other),
    }
    assert_eq!(free(&a.file_region), vec![(start + MIB, max)]);
    match a.munmap(start, MIB) {
        Action::Unmap { addr, len } => assert_eq!((addr, len), (start, MIB)),
        other => panic!("expected an unmapping, got {:?}", other),
    }
    assert_eq!(free(&a.file_region), vec![(start, max)]);
    assert_eq!(a.file_region.end, start);
}

#[test]
fn munmap_lowers_the_high_water_mark() {
    let mut a = make(&[(2 * MIB, 0, 2 * MIB)], &[(2 * MIB, 0, 8 * MIB)], true);
    let start = a.anon_region.start;
    ret(a.mmap(0, 2 * MIB, RW, ANON, -1, 0));
    ret(a.mmap(0, 2 * MIB, RW, ANON, -1, 0));
    assert_eq!(a.anon_region.end, start + 4 * MIB);
    ret(a.munmap(start, 2 * MIB));
    assert_eq!(a.anon_region.end, start + 4 * MIB);
    ret(a.munmap(start + 2 * MIB, 2 * MIB));
    assert_eq!(a.anon_region.end, start);
    assert!(matches!(a.munmap(0x5000, 4096), Action::Forward));
}

#[test]
fn mprotect_and_madvise_are_ignored_in_heap_and_anon() {
    let a = make(&[(2 * MIB, 0, 2 * MIB)], &[(GIB, 0, GIB)], true);
    assert_eq!(ret(a.mprotect(a.heap.start, 4096, PROT_READ)), (0, vec![]));
    assert_eq!(ret(a.mprotect(a.anon_region.start + 4096, 4096, PROT_READ)), (0, vec![]));
    assert_eq!(ret(a.madvise(a.anon_region.start, 4096, 4)), (0, vec![]));
    assert!(matches!(a.mprotect(a.file_region.start, 4096, PROT_READ), Action::Forward));
    assert!(matches!(a.madvise(a.file_region.start, 4096, 4), Action::Forward));
    assert!(matches!(a.mprotect(0x5000, 4096, PROT_READ), Action::Forward));
    assert!(matches!(a.madvise(a.anon_region.max, 4096, 4), Action::Forward));
}

#[test]
fn mremap_shrinks_in_place_and_grows_if_the_tail_is_free() {
    let mut a = make(&[(2 * MIB, 0, 2 * MIB)], &[(4 * KIB, 0, MIB)], true);
    let start = a.anon_region.start;
    ret(a.mmap(0, 8 * KIB, RW, ANON, -1, 0));
    assert_eq!(free(&a.anon_region), vec![(start + 8 * KIB, start + MIB)]);
    assert_eq!(ret(a.mremap(start, 8 * KIB, 4 * KIB, 0, 0)), (start, vec![]));
    assert_eq!(free(&a.anon_region), vec![(start + 4 * KIB, start + MIB)]);
    let (addr, backing) = ret(a.mremap(start, 4 * KIB, 12 * KIB, 0, 0));
    assert_eq!(addr, start);
    assert_eq!(backing.len(), 2);
    assert_eq!((backing[0].addr, backing[0].len), (start + 4 * KIB, 4 * KIB));
    assert_eq!((backing[1].addr, backing[1].len), (start + 8 * KIB, 4 * KIB));
    assert_eq!(free(&a.anon_region), vec![(start + 12 * KIB, start + MIB)]);
}

#[test]
fn mremap_that_cannot_grow_in_place_fails_or_moves() {
    let mut a = make(&[(2 * MIB, 0, 2 * MIB)], &[(4 * KIB, 0, MIB)], true);
    let start = a.anon_region.start;
    ret(a.mmap(0, 4 * KIB, RW, ANON, -1, 0));
    ret(a.mmap(0, 4 * KIB, RW, ANON, -1, 0));
    let before = free(&a.anon_region);
    assert_eq!(errno(a.mremap(start, 4 * KIB, 8 * KIB, 0, 0)), ENOMEM);
    assert_eq!(free(&a.anon_region), before);
    let (addr, backing) = ret(a.mremap(start, 4 * KIB, 8 * KIB, MREMAP_MAYMOVE, 0));
    assert_eq!(addr, start + 8 * KIB);
    assert_eq!(backing.len(), 2);
    assert_eq!(free(&a.anon_region), vec![(start + 16 * KIB, start + MIB)]);
    assert!(matches!(a.mremap(0x5000, 4096, 8192, 0, 0), Action::Forward));
}

#[test]
fn mremap_to_a_fixed_address() {
    let mut a = make(&[(2 * MIB, 0, 2 * MIB)], &[(4 * KIB, 0, MIB)], true);
    let start = a.anon_region.start;
    ret(a.mmap(0, 8 * KIB, RW, ANON, -1, 0));
    let flags = MREMAP_FIXED | MREMAP_MAYMOVE;
    assert_eq!(errno(a.mremap(start, 4 * KIB, 4 * KIB, flags, start + 4 * KIB)), EEXIST);
    let (addr, backing) = ret(a.mremap(start, 4 * KIB, 8 * KIB, flags, start + 64 * KIB));
    assert_eq!(addr, start + 64 * KIB);
    assert_eq!(backing.len(), 2);
    assert_eq!(backing[0].flags, ANON | MAP_FIXED_NOREPLACE);
    assert_eq!(
        free(&a.anon_region),
        vec![(start + 8 * KIB, start + 64 * KIB), (start + 72 * KIB, start + MIB)]
    );
}

#[test]
fn dry_run_asks_for_no_huge_pages() {
    let mut a = Allocator::new(
        &config(16 * MIB, true),
        pool(AllocType::BRK, &[(2 * MIB, 0, 2 * MIB)]),
        pool(AllocType::ANON, &[(2 * MIB, 0, 4 * MIB)]),
        BRK,
        &maps(),
        true,
    )
    .unwrap();
    let (_, backing) = ret(a.mmap(0, 2 * MIB, RW, ANON, -1, 0));
    assert_eq!(backing.len(), 1);
    assert_eq!(backing[0].len, 2 * MIB);
    assert_eq!(backing[0].flags, ANON | MAP_FIXED_NOREPLACE);
}

#[test]
fn no_allocator_without_a_gap_or_a_usable_plan() {
    let heap = [(2 * MIB, 0, 2 * MIB)];
    let anon = [(GIB, 0, GIB)];
    let tight = vec![
        Mapping { start: 0x40_0000, end: BRK, is_stack: false },
        Mapping { start: BRK + MIB, end: BRK + 2 * MIB, is_stack: false },
        Mapping { start: 0x7000_0000_0000, end: 0x7000_0010_0000, is_stack: true },
    ];
    let got = Allocator::new(
        &config(16 * MIB, false),
        pool(AllocType::BRK, &heap),
        pool(AllocType::ANON, &anon),
        BRK,
        &tight,
        true,
    );
    assert!(got.is_none());
    let got = Allocator::new(
        &config(16 * MIB + 1, false),
        pool(AllocType::BRK, &heap),
        pool(AllocType::ANON, &anon),
        BRK,
        &maps(),
        true,
    );
    assert!(got.is_none());
    let got = Allocator::new(
        &config(16 * MIB, false),
        pool(AllocType::BRK, &[]),
        pool(AllocType::ANON, &anon),
        BRK,
        &maps(),
        true,
    );
    assert!(got.is_none());
}
