use bunch::lanes::{lane_offset, lane_size};

#[test]
fn segment_boundaries() {
    assert_eq!(lane_offset(0), (0, 0));
    assert_eq!(lane_offset(1), (0, 1));
    assert_eq!(lane_offset(2), (1, 0));
    assert_eq!(lane_offset(5), (1, 3));
    assert_eq!(lane_offset(6), (2, 0));
    assert_eq!(lane_offset(13), (2, 7));
    assert_eq!(lane_offset(14), (3, 0));
}

#[test]
fn lane_sizes_double() {
    assert_eq!(lane_size(0), 2);
    assert_eq!(lane_size(1), 4);
    assert_eq!(lane_size(2), 8);
    assert_eq!(lane_size(10), 2048);
}

#[test]
fn decomposition_round_trip() {
    for index in 0..200_000usize {
        let (lane, offset) = lane_offset(index);
        assert!(offset < lane_size(lane));
        assert_eq!((lane_size(lane) - 2) + offset, index);
    }
}

#[test]
fn decomposition_of_largest_index() {
    // The last lane starts two below the largest index.
    assert_eq!(lane_offset(usize::MAX), (usize::BITS as usize - 1, 1));
    assert_eq!(lane_offset(usize::MAX - 1), (usize::BITS as usize - 1, 0));
    let (lane, offset) = lane_offset(usize::MAX - 2);
    assert_eq!(lane, usize::BITS as usize - 2);
    assert_eq!(offset, lane_size(lane) - 1);
}
