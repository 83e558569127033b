use mosalloc::bootstrap::{
    parse_maps_line, place_in_gap, scan_mapping, scan_maps, Dims, Mapping, Scan, Stage,
};

const MIB: usize = 1 << 20;
const GIB: usize = 1 << 30;

fn dims() -> Dims {
    Dims {
        heap_pgsz: 2 * MIB,
        heap_len: 4 * MIB,
        anon_pgsz: GIB,
        anon_len: 2 * GIB,
        file_pgsz: 4096,
        file_len: 16 * MIB,
    }
}

fn map(start: usize, end: usize) -> Mapping {
    Mapping { start, end, is_stack: false }
}

fn stack(start: usize, end: usize) -> Mapping {
    Mapping { start, end, is_stack: true }
}

#[test]
fn maps_lines_are_read() {
    assert_eq!(
        parse_maps_line("55f1c0a2b000-55f1c0a2d000 r--p 00000000 08:01 1048602    /usr/bin/cat"),
        Some(map(0x55f1c0a2b000, 0x55f1c0a2d000))
    );
    assert_eq!(
        parse_maps_line("7ffc8b5e3000-7ffc8b604000 rw-p 00000000 00:00 0          [stack]\n"),
        Some(stack(0x7ffc8b5e3000, 0x7ffc8b604000))
    );
    assert_eq!(parse_maps_line("  10-20"), Some(map(0x10, 0x20)));
    assert_eq!(parse_maps_line("10-20 [stack] x"), Some(map(0x10, 0x20)));
    assert_eq!(parse_maps_line("10-20 [stack]  "), Some(stack(0x10, 0x20)));
    assert_eq!(parse_maps_line("FF-+100 [stack]"), Some(stack(0xff, 0x100)));
    assert_eq!(parse_maps_line(""), None);
    assert_eq!(parse_maps_line("   "), None);
    assert_eq!(parse_maps_line("10 20"), None);
    assert_eq!(parse_maps_line("10-"), None);
    assert_eq!(parse_maps_line("-20"), None);
    assert_eq!(parse_maps_line("10-20-30"), None);
    assert_eq!(parse_maps_line("0x10-0x20"), None);
    assert_eq!(parse_maps_line("10-1ffffffffffffffff"), None);
}

#[test]
fn the_scan_places_three_regions_below_the_stack() {
    let maps = vec![
        map(0x40_0000, 0x50_0000),
        map(0x1000_0000, 0x1003_0000),
        stack(0x7ffc_0000_0000, 0x7ffc_0002_0000),
    ];
    let st = scan_maps(0x1002_1000, &maps, &dims());
    assert_eq!(st.stage, Stage::Done);
    assert_eq!(st.heap_start, 0x1020_0000);
    assert_eq!(st.anon_start, GIB);
    assert_eq!(st.file_start, 3 * GIB);
    assert_eq!(st.upper, 3 * GIB + 16 * MIB);
}

#[test]
fn the_scan_fails_if_the_heap_does_not_fit() {
    let maps = vec![map(0x1000_0000, 0x1003_0000), map(0x1040_0000, 0x1050_0000)];
    assert_eq!(scan_maps(0x1002_1000, &maps, &dims()).stage, Stage::Failed);
}

#[test]
fn the_scan_fails_at_the_stack_if_a_region_is_left() {
    let maps = vec![
        map(0x1000_0000, 0x1003_0000),
        map(0x2000_0000, 0x2000_1000),
        stack(0x4000_0000, 0x4000_1000),
    ];
    let st = scan_maps(0x1002_1000, &maps, &dims());
    assert_eq!(st.stage, Stage::Failed);
    assert_eq!(st.heap_start, 0x1020_0000);
}

#[test]
fn the_scan_takes_a_later_gap_for_a_later_region() {
    let maps = vec![
        map(0x1000_0000, 0x1003_0000),
        map(0x2000_0000, 0x2000_1000),
        map(0x2_0000_0000, 0x2_0000_1000),
    ];
    let st = scan_maps(0x1002_1000, &maps, &dims());
    assert_eq!(st.stage, Stage::Done);
    assert_eq!((st.heap_start, st.anon_start, st.file_start), (0x1020_0000, GIB, 3 * GIB));
}

#[test]
fn the_scan_ends_early_if_the_mappings_do() {
    let st = scan_maps(0x1002_1000, &vec![], &dims());
    assert_eq!((st.stage, st.last, st.upper), (Stage::Heap, 0, 0x1020_0000));
    let st = scan_maps(0x1002_1000, &vec![map(0x40_0000, 0x50_0000)], &dims());
    assert_eq!((st.stage, st.last), (Stage::Heap, 0x60_0000));
    let maps = vec![map(0x1000_0000, 0x1003_0000), map(0x2000_0000, 0x2000_1000)];
    let st = scan_maps(0x1002_1000, &maps, &dims());
    assert_eq!((st.stage, st.heap_start, st.last), (Stage::Anon, 0x1020_0000, GIB));
}

#[test]
fn the_scan_fails_where_rounding_overflows() {
    assert_eq!(scan_maps(usize::MAX, &vec![], &dims()).stage, Stage::Failed);
    let maps = vec![map(0x1000, usize::MAX - 5)];
    assert_eq!(scan_maps(0x1002_1000, &maps, &dims()).stage, Stage::Failed);
}

#[test]
fn one_step_of_the_scan() {
    let d = dims();
    let start = Scan {
        stage: Stage::Heap,
        last: 0x1020_0000,
        upper: 0x1020_0000,
        heap_start: 0,
        anon_start: 0,
        file_start: 0,
    };
    let small = place_in_gap(start, 0x1040_0000, &d);
    assert_eq!(small, start);
    let one = place_in_gap(start, 0x1060_0000, &d);
    assert_eq!((one.stage, one.heap_start, one.last, one.upper), (Stage::Anon, 0x1020_0000, GIB, GIB));
    let line = scan_mapping(start, &map(0x1060_0000, 0x1070_0000), &d);
    assert_eq!(line, one);
    let at_stack = scan_mapping(start, &stack(0x1060_0000, 0x1070_0000), &d);
    assert_eq!(at_stack.stage, Stage::Failed);
    let done = Scan { stage: Stage::Done, ..one };
    assert_eq!(scan_mapping(done, &stack(0, 1), &d), done);
}
