use mosalloc::rangelist::{IdRange, RangeList};
use mosalloc::sysfs_path::{
    sysfs_path_htlb, sysfs_path_htlb_base, sysfs_path_node, sysfs_path_node_cpus,
    sysfs_path_online_cpus, sysfs_path_online_nodes, sysfs_path_overcommit, sysfs_path_thp_enabled,
};
use mosalloc::text::{
    char_is_space, chars_of, decimal_string, find_in, parse_hex_in, parse_usize, parse_usize_in,
    trim_in,
};
use std::path::Path;

#[test]
fn parse_usize_reads_as_std_does() {
    for s in [
        "0", "7", "42", "007", "+5", "+", "", "-1", "1 ", " 1", "1_000", "12a", "++1",
        "18446744073709551615", "18446744073709551616", "99999999999999999999", "٣",
    ] {
        assert_eq!(parse_usize(s), s.parse::<usize>().ok(), "{:?}", s);
    }
}

#[test]
fn parse_usize_in_reads_a_part() {
    let v = chars_of("ab123cd");
    assert_eq!(parse_usize_in(&v, 2, 5), Some(123));
    assert_eq!(parse_usize_in(&v, 2, 6), None);
    assert_eq!(parse_usize_in(&v, 3, 3), None);
}

#[test]
fn parse_hex_reads_as_std_does() {
    for s in [
        "0", "ff", "FF", "7f0e", "+1a", "", "+", "0x10", "g", "-1", "ffffffffffffffff",
        "10000000000000000", "55f1c0a2b000",
    ] {
        let v = chars_of(s);
        assert_eq!(parse_hex_in(&v, 0, v.len()), usize::from_str_radix(s, 16).ok(), "{:?}", s);
    }
}

#[test]
fn decimal_string_writes_as_std_does() {
    for n in [0usize, 1, 9, 10, 11, 99, 100, 4096, 123456789, usize::MAX] {
        assert_eq!(decimal_string(n), n.to_string());
    }
}

#[test]
fn white_space_is_what_std_calls_so() {
    for c in ('\0'..='\u{3100}').chain(['\u{feff}', '\u{10000}']) {
        assert_eq!(char_is_space(c), c.is_whitespace(), "{:?}", c);
    }
}

#[test]
fn trim_in_and_find_in_give_bounds() {
    let v = chars_of(" \t a,b \n");
    assert_eq!(trim_in(&v, 0, v.len()), (3, 6));
    assert_eq!(find_in(&v, ',', 3, 6), 4);
    assert_eq!(find_in(&v, ';', 3, 6), 6);
    let blank = chars_of("   ");
    assert_eq!(trim_in(&blank, 0, 3), (3, 3));
}

#[test]
fn range_lists_are_read() {
    let l = RangeList::from_str(String::from("0-3,8, 10-11\n"));
    assert_eq!(l.len(), 3);
    for n in 0..16 {
        assert_eq!(l.contains(n), n <= 3 || n == 8 || n == 10 || n == 11, "{}", n);
    }
    assert!(RangeList::parse("5").unwrap().contains(5));
    assert!(!RangeList::parse("5").unwrap().contains(4));
    assert!(!RangeList::parse("3-1").unwrap().contains(2));
    assert!(RangeList::parse("+1-+3").unwrap().contains(2));
}

#[test]
fn range_lists_that_are_none_are_refused() {
    for s in ["", ",", "1,", ",1", "a", "1-", "-1", "1-2-3", "1 - 2", "1 2", "0x1"] {
        assert!(RangeList::parse(s).is_none(), "{:?}", s);
    }
}

#[test]
fn range_list_iter_walks_the_ranges() {
    let l = RangeList::from_str(String::from("0-2,5,7-8"));
    let mut it = l.iter();
    let mut got = Vec::new();
    while let Some(n) = it.next() {
        got.push(n);
    }
    assert_eq!(got, vec![0, 1, 2, 5, 7, 8]);
    assert_eq!(it.next(), None);
}

#[test]
fn range_list_iter_stops_at_an_empty_range() {
    let l = RangeList::from_str(String::from("1,3-2,9"));
    let mut it = l.iter();
    assert_eq!(it.next(), Some(1));
    assert_eq!(it.next(), None);
    assert_eq!(it.next(), Some(9));
    assert_eq!(it.next(), None);
    let top = RangeList::from_str(format!("{}-{}", usize::MAX - 1, usize::MAX));
    let mut it = top.iter();
    assert_eq!(it.next(), Some(usize::MAX - 1));
    assert_eq!(it.next(), Some(usize::MAX));
    assert_eq!(it.next(), None);
}

#[test]
fn id_ranges_compare_by_their_bounds() {
    assert_eq!(IdRange { first: 1, last: 2 }, IdRange { first: 1, last: 2 });
    assert_ne!(IdRange { first: 1, last: 2 }, IdRange { first: 1, last: 3 });
}

#[test]
fn sysfs_paths_are_those_of_path_join() {
    assert_eq!(Path::new(&sysfs_path_online_cpus()), Path::new("/sys/devices/system/cpu/").join("online"));
    assert_eq!(sysfs_path_online_cpus(), "/sys/devices/system/cpu/online");
    assert_eq!(sysfs_path_online_nodes(), "/sys/devices/system/node/online");
    assert_eq!(sysfs_path_node(3), "/sys/devices/system/node/node3");
    assert_eq!(sysfs_path_node_cpus(12), "/sys/devices/system/node/node12/cpulist");
    assert_eq!(sysfs_path_htlb_base(), "/sys/kernel/mm/hugepages/");
    assert_eq!(sysfs_path_thp_enabled(), "/sys/kernel/mm/transparent_hugepage/enabled");
    assert_eq!(sysfs_path_overcommit(), "/proc/sys/vm/overcommit_memory");
    for leaf in ["nr_hugepages", "", "/abs/leaf", "a/b"] {
        let want = Path::new("/sys/devices/system/node/")
            .join(format!("node{}", 1))
            .join("hugepages")
            .join(format!("hugepages-{}kB", 2048))
            .join(leaf);
        assert_eq!(sysfs_path_htlb(1, 2048, leaf), want.to_str().unwrap(), "{:?}", leaf);
    }
}

#[test]
fn a_range_is_one_number_or_two() {
    assert_eq!(RangeList::range_from_str(" 7 "), Some(IdRange { first: 7, last: 7 }));
    assert_eq!(RangeList::range_from_str("2-9"), Some(IdRange { first: 2, last: 9 }));
    assert_eq!(RangeList::range_from_str("2,9"), None);
    assert_eq!(RangeList::vec_to_range(vec![4]), IdRange { first: 4, last: 4 });
    assert_eq!(RangeList::vec_to_range(vec![4, 5, 6]), IdRange { first: 4, last: 6 });
}
