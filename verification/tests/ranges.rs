use binate::ranges::{find_differing_ranges, ByteRange, MERGE_THRESHOLD};

fn summary(rs: &[ByteRange]) -> Vec<(u64, usize, Vec<u8>, Vec<u8>)> {
    rs.iter().map(|r| (r.offset, r.len, r.left_bytes.clone(), r.right_bytes.clone())).collect()
}

#[test]
fn identical_images_have_no_ranges() {
    let data = vec![1u8, 2, 3, 4, 5];
    assert!(find_differing_ranges(&data, &data, 0x1000).is_empty());
}

#[test]
fn single_differing_byte() {
    let rs = find_differing_ranges(&[1, 2, 3, 4], &[1, 9, 3, 4], 0x1000);
    assert_eq!(summary(&rs), vec![(0x1001, 1, vec![2], vec![9])]);
}

#[test]
fn close_differences_merge_into_one_range() {
    let left = vec![0u8; 20];
    let mut right = vec![0u8; 20];
    right[2] = 1;
    right[6] = 1;
    let rs = find_differing_ranges(&left, &right, 0x400);
    assert_eq!(summary(&rs), vec![(0x402, 5, vec![0, 0, 0, 0, 0], vec![1, 0, 0, 0, 1])]);
}

#[test]
fn distant_differences_stay_apart() {
    let left = vec![0u8; 30];
    let mut right = vec![0u8; 30];
    right[1] = 7;
    right[1 + 1 + MERGE_THRESHOLD] = 8;
    let rs = find_differing_ranges(&left, &right, 0);
    assert_eq!(summary(&rs), vec![(1, 1, vec![0], vec![7]), (10, 1, vec![0], vec![8])]);
}

#[test]
fn differences_near_the_end_run_to_the_end() {
    // Fewer than MERGE_THRESHOLD agreeing bytes remain after the first
    // difference, and the window is cut at the end of the common prefix.
    let rs = find_differing_ranges(&[0, 0, 0, 0], &[0, 5, 0, 0], 0);
    assert_eq!(summary(&rs), vec![(1, 1, vec![0], vec![5])]);
}

#[test]
fn extra_bytes_form_a_trailing_range() {
    let rs = find_differing_ranges(&[1, 2], &[1, 2, 3, 4], 0x2000);
    assert_eq!(summary(&rs), vec![(0x2002, 2, vec![], vec![3, 4])]);
}

#[test]
fn extra_bytes_on_the_left() {
    let rs = find_differing_ranges(&[1, 2, 3], &[1, 7], 0);
    assert_eq!(summary(&rs), vec![(1, 1, vec![2], vec![7]), (2, 1, vec![3], vec![])]);
}

#[test]
fn swapping_sides_swaps_bytes() {
    let a = [1u8, 2, 3, 4, 5, 6];
    let b = [1u8, 0, 3, 0, 5];
    let ab = summary(&find_differing_ranges(&a, &b, 10));
    let ba = summary(&find_differing_ranges(&b, &a, 10));
    let swapped: Vec<_> = ab.into_iter().map(|(o, l, x, y)| (o, l, y, x)).collect();
    assert_eq!(swapped, ba);
}

#[test]
fn addresses_wrap_around() {
    let rs = find_differing_ranges(&[0, 0], &[0, 1], u64::MAX);
    assert_eq!(rs[0].offset, 0);
}
