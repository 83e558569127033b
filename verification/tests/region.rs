use mosalloc::backing::{backing_requests, make_tile_request, page_shift, tile_is_backed, MapRequest};
use mosalloc::consts::{
    EEXIST, ENOMEM, MAP_ANONYMOUS, MAP_FAILED, MAP_FIXED, MAP_FIXED_NOREPLACE, MAP_HUGETLB,
    MAP_PRIVATE, PROT_EXEC, PROT_READ, PROT_WRITE,
};
use mosalloc::htlb::{AllocType, Interval, Pool};
use mosalloc::region::Region;

const KIB: usize = 1 << 10;
const MIB: usize = 1 << 20;
const BASE: usize = 0x4000_0000;
const ANON: i32 = MAP_ANONYMOUS | MAP_PRIVATE;

fn region(kind: AllocType, tiles: &[(usize, usize, usize)]) -> Region {
    let pool = Pool {
        alloc_type: kind,
        intervals: tiles
            .iter()
            .map(|&(pagesz, start, end)| Interval { pagesz, start, end })
            .collect(),
    };
    let mut r = Region::new(pool, kind, 4);
    r.init(BASE);
    r.lock();
    r
}

fn free(r: &Region) -> Vec<(usize, usize)> {
    let m = r.free_map();
    (0..m.len()).map(|i| (m.get(i).start, m.get(i).end)).collect()
}

#[test]
fn a_new_region_is_unplaced_and_init_places_it() {
    let pool = Pool {
        alloc_type: AllocType::ANON,
        intervals: vec![
            Interval { pagesz: 4 * KIB, start: 0, end: 2 * MIB },
            Interval { pagesz: 2 * MIB, start: 2 * MIB, end: 6 * MIB },
        ],
    };
    let mut r = Region::new(pool, AllocType::ANON, 8);
    assert_eq!((r.start, r.end, r.max), (0, 0, 0));
    assert_eq!((r.max_pgsz, r.len), (2 * MIB, 6 * MIB));
    assert_eq!(free(&r), vec![]);
    assert!(!r.contains(0));
    r.init(BASE);
    assert_eq!((r.start, r.end, r.max), (BASE, BASE, BASE + 6 * MIB));
    assert_eq!(free(&r), vec![(BASE, BASE + 6 * MIB)]);
    assert!(r.contains(BASE));
    assert!(r.contains(BASE + 6 * MIB - 1));
    assert!(!r.contains(BASE + 6 * MIB));
    assert!(!r.contains(BASE - 1));
    assert_eq!(r.get_addr_pagesz(BASE), 4 * KIB);
    assert_eq!(r.get_addr_pagesz(BASE + MIB), 4 * KIB);
    assert_eq!(r.get_addr_pagesz(BASE + 2 * MIB), 2 * MIB);
    assert_eq!(r.get_addr_pagesz(BASE + 7 * MIB), 4 * KIB);
}

#[test]
fn alloc_range_rounds_the_length_up_to_pages() {
    let mut r = region(AllocType::ANON, &[(4 * KIB, 0, MIB)]);
    let a = r.alloc_range(0, 1, PROT_READ, ANON, false);
    assert_eq!(a.addr, BASE);
    assert_eq!(a.backing.len(), 1);
    assert_eq!(
        a.backing[0],
        MapRequest {
            addr: BASE,
            len: 4 * KIB,
            prot: PROT_READ | PROT_WRITE,
            flags: ANON | MAP_FIXED_NOREPLACE,
            fd: -1,
            offset: 0,
        }
    );
    assert_eq!(free(&r), vec![(BASE + 4 * KIB, BASE + MIB)]);
    assert_eq!(r.end, BASE + 4 * KIB);
    let b = r.alloc_range(0, 4 * KIB + 1, PROT_EXEC, ANON, false);
    assert_eq!(b.addr, BASE + 4 * KIB);
    assert_eq!(b.backing.len(), 2);
    assert_eq!(b.backing[1].prot, PROT_EXEC | PROT_READ | PROT_WRITE);
    assert_eq!(r.end, BASE + 12 * KIB);
}

#[test]
fn alloc_range_of_nothing_changes_nothing() {
    let mut r = region(AllocType::ANON, &[(4 * KIB, 0, MIB)]);
    let a = r.alloc_range(0, 0, PROT_READ, ANON, false);
    assert_eq!(a.addr, BASE);
    assert_eq!(a.backing, vec![]);
    assert_eq!(free(&r), vec![(BASE, BASE + MIB)]);
    assert_eq!(r.end, BASE);
    let b = r.alloc_range(BASE + 8 * KIB, 0, PROT_READ, ANON, false);
    assert_eq!(b.addr, BASE + 8 * KIB);
    assert_eq!(free(&r), vec![(BASE, BASE + MIB)]);
    assert_eq!(r.end, BASE);
}

#[test]
fn alloc_range_in_a_file_region_installs_no_backing() {
    let mut r = region(AllocType::FILE, &[(4 * KIB, 0, MIB)]);
    let a = r.alloc_range(0, 64 * KIB, PROT_READ, MAP_PRIVATE, false);
    assert_eq!(a.addr, BASE);
    assert_eq!(a.backing, vec![]);
    assert_eq!(free(&r), vec![(BASE + 64 * KIB, BASE + MIB)]);
}

#[test]
fn alloc_range_with_fixed_flags() {
    let mut r = region(AllocType::ANON, &[(4 * KIB, 0, MIB)]);
    assert_eq!(r.alloc_range(BASE + 16 * KIB, 16 * KIB, 0, ANON | MAP_FIXED, false).addr, BASE + 16 * KIB);
    assert_eq!(free(&r), vec![(BASE, BASE + 16 * KIB), (BASE + 32 * KIB, BASE + MIB)]);
    assert_eq!(r.end, BASE + 32 * KIB);
    let again = r.alloc_range(BASE + 16 * KIB, 16 * KIB, 0, ANON | MAP_FIXED, false);
    assert_eq!((again.addr, again.backing.len()), (BASE + 16 * KIB, 0));
    let no = r.alloc_range(BASE + 16 * KIB, 16 * KIB, 0, ANON | MAP_FIXED_NOREPLACE, false);
    assert_eq!(no.addr, usize::MAX);
    let partly = r.alloc_range(BASE + 8 * KIB, 16 * KIB, 0, ANON | MAP_FIXED_NOREPLACE, false);
    assert_eq!(partly.addr, usize::MAX);
    assert_eq!(free(&r), vec![(BASE, BASE + 16 * KIB), (BASE + 32 * KIB, BASE + MIB)]);
    let both = r.alloc_range(BASE, 16 * KIB, 0, ANON | MAP_FIXED | MAP_FIXED_NOREPLACE, false);
    assert_eq!(both.addr, BASE);
    assert_eq!(free(&r), vec![(BASE + 32 * KIB, BASE + MIB)]);
}

#[test]
fn alloc_range_takes_the_lowest_range_that_is_long_enough() {
    let mut r = region(AllocType::ANON, &[(4 * KIB, 0, MIB)]);
    r.alloc_range(BASE + 8 * KIB, 8 * KIB, 0, ANON | MAP_FIXED, false);
    assert_eq!(r.alloc_range(0, 12 * KIB, 0, ANON, false).addr, BASE + 16 * KIB);
    assert_eq!(r.alloc_range(0, 4 * KIB, 0, ANON, false).addr, BASE);
    assert_eq!(r.alloc_range(0, MIB, 0, ANON, false).addr, usize::MAX);
    assert_eq!(free(&r), vec![(BASE + 4 * KIB, BASE + 8 * KIB), (BASE + 28 * KIB, BASE + MIB)]);
}

#[test]
fn free_range_frees_exactly_the_range_and_moves_the_mark() {
    let mut r = region(AllocType::ANON, &[(4 * KIB, 0, MIB)]);
    r.alloc_range(0, 32 * KIB, 0, ANON, false);
    assert_eq!(r.end, BASE + 32 * KIB);
    r.free_range(BASE + 8 * KIB, 8 * KIB);
    assert_eq!(free(&r), vec![(BASE + 8 * KIB, BASE + 16 * KIB), (BASE + 32 * KIB, BASE + MIB)]);
    assert_eq!(r.end, BASE + 32 * KIB);
    r.free_range(BASE + 16 * KIB, 16 * KIB);
    assert_eq!(free(&r), vec![(BASE + 8 * KIB, BASE + MIB)]);
    assert_eq!(r.end, BASE + 8 * KIB);
    r.free_range(BASE + 100, 50);
    assert_eq!(free(&r), vec![(BASE + 100, BASE + 150), (BASE + 8 * KIB, BASE + MIB)]);
    r.free_range(BASE, 0);
    assert_eq!(r.end, BASE + 8 * KIB);
    r.free_range(BASE, 8 * KIB);
    assert_eq!(free(&r), vec![(BASE, BASE + MIB)]);
    assert_eq!(r.end, BASE);
}

#[test]
fn free_range_of_what_is_free_already_is_harmless() {
    let mut r = region(AllocType::ANON, &[(4 * KIB, 0, MIB)]);
    r.alloc_range(0, 32 * KIB, 0, ANON, false);
    r.free_range(BASE + 16 * KIB, 64 * KIB);
    assert_eq!(free(&r), vec![(BASE + 16 * KIB, BASE + MIB)]);
    assert_eq!(r.end, BASE + 16 * KIB);
    r.free_range(BASE, MIB);
    assert_eq!(free(&r), vec![(BASE, BASE + MIB)]);
    assert_eq!(r.end, BASE);
}

#[test]
fn a_full_region_has_its_mark_at_the_top() {
    let mut r = region(AllocType::ANON, &[(4 * KIB, 0, 64 * KIB)]);
    assert_eq!(r.alloc_range(0, 64 * KIB, 0, ANON, false).addr, BASE);
    assert_eq!(free(&r), vec![]);
    assert_eq!(r.end, BASE + 64 * KIB);
    r.free_range(BASE, 4 * KIB);
    assert_eq!(r.end, BASE + 64 * KIB);
    assert!(r.is_range_reserved(BASE + 4 * KIB, 60 * KIB));
    assert!(!r.is_range_reserved(BASE, 8 * KIB));
    assert!(!r.is_range_reserved(BASE + 60 * KIB, 8 * KIB));
    assert!(!r.is_range_reserved(BASE - 4 * KIB, 8 * KIB));
    assert!(r.is_range_reserved(BASE, 0));
}

#[test]
fn tiles_ask_for_huge_pages_of_their_size() {
    assert_eq!(page_shift(4 * KIB), 12);
    assert_eq!(page_shift(2 * MIB), 21);
    assert_eq!(page_shift(1 << 30), 30);
    assert_eq!(page_shift(1), 0);
    let t = make_tile_request(BASE + 3 * MIB + 5, 2 * MIB, PROT_READ, ANON, false);
    assert_eq!(t.addr, BASE + 2 * MIB);
    assert_eq!(t.len, 2 * MIB);
    assert_eq!(t.flags, ANON | MAP_FIXED_NOREPLACE | MAP_HUGETLB | (21 << 26));
    assert_eq!(make_tile_request(BASE, 2 * MIB, 0, ANON, true).flags, ANON | MAP_FIXED_NOREPLACE);
    assert_eq!(make_tile_request(BASE, 4 * KIB, 0, ANON, false).flags, ANON | MAP_FIXED_NOREPLACE);
    let r = region(AllocType::ANON, &[(2 * MIB, 0, 2 * MIB)]);
    assert_eq!(r.alloc_tile(BASE + 5, 2 * MIB, 0, ANON, false), make_tile_request(BASE, 2 * MIB, 0, ANON, false));
}

#[test]
fn a_tile_counts_as_backed_if_mapped_now_or_before() {
    assert!(tile_is_backed(BASE, 0));
    assert!(tile_is_backed(MAP_FAILED, EEXIST));
    assert!(!tile_is_backed(MAP_FAILED, ENOMEM));
}

#[test]
fn backing_covers_the_range_with_tiles_of_the_plan() {
    let pool = Pool {
        alloc_type: AllocType::ANON,
        intervals: vec![
            Interval { pagesz: 2 * MIB, start: 0, end: 4 * MIB },
            Interval { pagesz: 4 * KIB, start: 4 * MIB, end: 5 * MIB },
            Interval { pagesz: 2 * MIB, start: 6 * MIB, end: 8 * MIB },
        ],
    };
    let from = BASE + 3 * MIB + 4 * KIB;
    let to = BASE + 7 * MIB;
    let tiles = backing_requests(&pool, BASE, from, to, 0, ANON, false);
    assert_eq!(tiles[0].addr, BASE + 2 * MIB);
    let mut next = tiles[0].addr;
    for t in &tiles {
        assert_eq!(t.addr, next);
        assert_eq!(t.len, pool.pagesz_at(t.addr - BASE));
        assert_eq!(t.len, pool.pagesz_at(t.addr + t.len - 1 - BASE));
        assert_eq!(t.addr % t.len, 0);
        next = t.addr + t.len;
    }
    assert_eq!(next, BASE + 8 * MIB);
    assert_eq!(tiles.len(), 1 + 256 + 256 + 1);
    assert_eq!(backing_requests(&pool, BASE, from, from, 0, ANON, false), vec![]);
}
