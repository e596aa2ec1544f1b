use neon_binary::range::AddressRange;

fn range(start: usize, end: usize) -> AddressRange {
    AddressRange::new(start, end)
}

#[test]
fn new_keeps_both_ends() {
    let r = range(0x1000, 0x1010);
    assert_eq!(r.start, 0x1000);
    assert_eq!(r.end, 0x1010);
}

#[test]
fn ranges_that_share_bytes_overlap() {
    assert!(range(0, 8).intersects(&range(4, 12)));
    assert!(range(4, 12).intersects(&range(0, 8)));
    assert!(range(0, 16).intersects(&range(4, 8)));
    assert!(range(4, 8).intersects(&range(0, 16)));
    assert!(range(0, 16).intersects(&range(0, 16)));
    assert!(range(0, 8).intersects(&range(7, 8)));
}

#[test]
fn adjacent_and_distant_ranges_do_not_overlap() {
    assert!(!range(0, 8).intersects(&range(8, 16)));
    assert!(!range(8, 16).intersects(&range(0, 8)));
    assert!(!range(0, 4).intersects(&range(100, 104)));
    assert!(!range(100, 104).intersects(&range(0, 4)));
}

#[test]
fn overlap_of_an_empty_range_follows_the_two_comparisons() {
    // Strictly inside another range: both comparisons hold.
    assert!(range(5, 5).intersects(&range(0, 10)));
    assert!(range(0, 10).intersects(&range(5, 5)));
    // At either end of it, or against itself: one comparison fails.
    assert!(!range(0, 0).intersects(&range(0, 10)));
    assert!(!range(10, 10).intersects(&range(0, 10)));
    assert!(!range(5, 5).intersects(&range(5, 5)));
}

#[test]
fn overlap_at_the_top_of_the_address_space() {
    let top = range(usize::MAX - 8, usize::MAX);
    assert!(top.intersects(&range(usize::MAX - 1, usize::MAX)));
    assert!(!top.intersects(&range(0, usize::MAX - 8)));
}

#[test]
fn footprint_is_address_plus_length_times_stride() {
    assert_eq!(AddressRange::from_raw_parts(0x1000, 16, 1), Some(range(0x1000, 0x1010)));
    assert_eq!(AddressRange::from_raw_parts(0x1000, 4, 4), Some(range(0x1000, 0x1010)));
    assert_eq!(AddressRange::from_raw_parts(0x1000, 3, 8), Some(range(0x1000, 0x1018)));
    assert_eq!(AddressRange::from_raw_parts(0x1000, 0, 8), Some(range(0x1000, 0x1000)));
    assert_eq!(AddressRange::from_raw_parts(0x1000, 5, 0), Some(range(0x1000, 0x1000)));
    assert_eq!(AddressRange::from_raw_parts(0, 0, 0), Some(range(0, 0)));
}

#[test]
fn footprint_may_end_at_the_last_address() {
    assert_eq!(
        AddressRange::from_raw_parts(usize::MAX - 16, 4, 4),
        Some(range(usize::MAX - 16, usize::MAX))
    );
    assert_eq!(AddressRange::from_raw_parts(0, usize::MAX, 1), Some(range(0, usize::MAX)));
}

#[test]
fn footprint_past_the_address_space_is_refused() {
    assert_eq!(AddressRange::from_raw_parts(usize::MAX - 15, 4, 4), None);
    assert_eq!(AddressRange::from_raw_parts(1, usize::MAX, 1), None);
    assert_eq!(AddressRange::from_raw_parts(0, usize::MAX, 2), None);
    assert_eq!(AddressRange::from_raw_parts(0, usize::MAX / 2 + 1, 2), None);
    assert_eq!(AddressRange::from_raw_parts(usize::MAX, 1, 1), None);
}

#[test]
fn ranges_compare_by_their_ends() {
    assert_eq!(range(1, 2), range(1, 2));
    assert_ne!(range(1, 2), range(1, 3));
    assert_ne!(range(1, 2), range(0, 2));
    let copy = range(3, 9);
    let same = copy;
    assert_eq!(copy, same);
}
