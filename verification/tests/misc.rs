use mosalloc::argparse::{default_node, parse_file_path, parse_htlb_req, parse_node, parse_size};
use mosalloc::misc::{
    align, align_down, align_up, checked_align_up, is_aligned, is_power_of_two, size_from_parts,
    size_from_str, size_to_str, try_size_from_str,
};
use mosalloc::rangelist::RangeList;

#[test]
fn align_rounds_to_multiples() {
    assert_eq!(align(0x1234, 0x1000, false), 0x1000);
    assert_eq!(align(0x1234, 0x1000, true), 0x2000);
    assert_eq!(align(0x2000, 0x1000, true), 0x2000);
    assert_eq!(align_down(0x2000, 0x1000), 0x2000);
    assert_eq!(align_down(0x2fff, 0x1000), 0x2000);
    assert_eq!(align_up(0x2001, 0x1000), 0x3000);
    assert_eq!(align_up(0, 0x1000), 0);
    assert_eq!(align_up(7, 1), 7);
    assert_eq!(align_up(5 << 20, 2 << 20), 6 << 20);
}

#[test]
fn checked_align_up_reports_overflow() {
    assert_eq!(checked_align_up(0x2001, 0x1000), Some(0x3000));
    assert_eq!(checked_align_up(usize::MAX - 0xfff, 0x1000), Some(usize::MAX - 0xfff));
    assert_eq!(checked_align_up(usize::MAX - 0xffe, 0x1000), None);
    assert_eq!(checked_align_up(usize::MAX, 1), Some(usize::MAX));
}

#[test]
fn is_aligned_tests_multiples() {
    assert!(is_aligned(0x4000, 0x1000));
    assert!(!is_aligned(0x4001, 0x1000));
    assert!(is_aligned(0, 0x20_0000));
    assert!(!is_aligned(0x10_0000, 0x20_0000));
}

#[test]
fn powers_of_two() {
    assert!(is_power_of_two(1));
    assert!(is_power_of_two(4096));
    assert!(is_power_of_two(1 << 30));
    assert!(!is_power_of_two(0));
    assert!(!is_power_of_two(12288));
    for n in 0..5000usize {
        assert_eq!(is_power_of_two(n), n.is_power_of_two());
    }
}

#[test]
fn sizes_are_written_in_the_largest_unit() {
    assert_eq!(size_to_str(0), "0B");
    assert_eq!(size_to_str(1023), "1023B");
    assert_eq!(size_to_str(1024), "1KB");
    assert_eq!(size_to_str(4096), "4KB");
    assert_eq!(size_to_str((1 << 20) - 1), "1023KB");
    assert_eq!(size_to_str(2 << 20), "2MB");
    assert_eq!(size_to_str(1 << 30), "1GB");
    assert_eq!(size_to_str(3 << 40), "3TB");
    assert_eq!(size_to_str(5000 << 40), "5000TB");
}

#[test]
fn sizes_are_read_with_their_unit() {
    assert_eq!(size_from_str("4096"), 4096);
    assert_eq!(size_from_str("17B"), 17);
    assert_eq!(size_from_str("4KB"), 4 << 10);
    assert_eq!(size_from_str("2MB"), 2 << 20);
    assert_eq!(size_from_str("1GB"), 1 << 30);
    assert_eq!(size_from_str("3TB"), 3 << 40);
    assert_eq!(size_from_str("page of 2MB, about"), 2 << 20);
    assert_eq!(size_from_str("12 34KB"), 12);
}

#[test]
fn sizes_without_digits_or_with_half_a_unit_are_refused() {
    assert_eq!(try_size_from_str("2MB"), Some(2 << 20));
    assert_eq!(try_size_from_str(""), None);
    assert_eq!(try_size_from_str("MB"), None);
    assert_eq!(try_size_from_str("2M"), None);
    assert_eq!(try_size_from_str("2K"), None);
    assert_eq!(try_size_from_str("99999999999999999999999"), None);
    assert_eq!(try_size_from_str("2kB"), Some(2));
}

#[test]
fn size_parts_follow_the_unit() {
    assert_eq!(size_from_parts("8", ""), Some(8));
    assert_eq!(size_from_parts("8", "b"), Some(8));
    assert_eq!(size_from_parts("8", "B"), Some(8));
    assert_eq!(size_from_parts("8", "kB"), Some(8 << 10));
    assert_eq!(size_from_parts("8", "KB"), Some(8 << 10));
    assert_eq!(size_from_parts("8", "mB"), Some(8 << 20));
    assert_eq!(size_from_parts("8", "gB"), Some(8 << 30));
    assert_eq!(size_from_parts("8", "tB"), Some(8 << 40));
    assert_eq!(size_from_parts("8", "K"), None);
    assert_eq!(size_from_parts("8", "PB"), None);
    assert_eq!(size_from_parts("x", "KB"), None);
    assert_eq!(size_from_parts("18446744073709551615", "KB"), Some(usize::MAX << 10));
}

#[test]
fn parse_size_names_what_it_refuses() {
    assert_eq!(parse_size("16MB"), Ok(16 << 20));
    assert_eq!(parse_size("big"), Err(String::from("invalid size big")));
}

#[test]
fn parse_file_path_goes_by_the_file_test() {
    assert_eq!(parse_file_path("/etc/plan.csv", true), Ok(String::from("/etc/plan.csv")));
    assert_eq!(
        parse_file_path("/etc/plan.csv", false),
        Err(String::from("invalid file /etc/plan.csv"))
    );
}

#[test]
fn parse_node_wants_an_online_node() {
    let online = RangeList::from_str(String::from("0-1,4"));
    assert_eq!(parse_node("1", &online), Ok(1));
    assert_eq!(parse_node("4", &online), Ok(4));
    assert_eq!(parse_node("2", &online), Err(String::from("Invalid NUMA node 2")));
    assert_eq!(parse_node("two", &online), Err(String::from("`two` isn't a number")));
    assert_eq!(parse_node(" 1", &online), Err(String::from("` 1` isn't a number")));
}

#[test]
fn parse_htlb_req_splits_at_colons() {
    let r = parse_htlb_req(" 4:0:1 \n", 3).unwrap();
    assert_eq!(r.req, vec![4, 0, 1]);
    assert_eq!(r.node, 0);
    assert_eq!(parse_htlb_req("7", 3).unwrap().req, vec![7]);
    assert_eq!(parse_htlb_req("7:8", 2).unwrap().req, vec![7, 8]);
    assert_eq!(parse_htlb_req("anything", 0).unwrap().req, Vec::<usize>::new());
    assert_eq!(parse_htlb_req("1:2:3", 2).unwrap_err(), "Invalid HTLB request 1:2:3");
    assert_eq!(parse_htlb_req("1:x", 3).unwrap_err(), "Invalid HTLB request 1:x");
    assert_eq!(parse_htlb_req("1:", 3).unwrap_err(), "Invalid HTLB request 1:");
    assert_eq!(parse_htlb_req("", 3).unwrap_err(), "Invalid HTLB request ");
}

#[test]
fn default_node_is_the_first_usable_processor() {
    let cpus = RangeList::from_str(String::from("1-3"));
    let nodes = vec![RangeList::from_str(String::from("0-1")), RangeList::from_str(String::from("3"))];
    assert_eq!(default_node(&vec![true, true, true, true], &cpus, &nodes), Some(1));
    assert_eq!(default_node(&vec![true, false, true, true], &cpus, &nodes), Some(3));
    assert_eq!(default_node(&vec![true, false, true, false], &cpus, &nodes), None);
    assert_eq!(default_node(&vec![], &cpus, &nodes), None);
    assert_eq!(default_node(&vec![true, true], &cpus, &vec![]), None);
}
