use std::collections::BTreeMap;

use async_http_range_reader::memory_map::{remove_range, MemoryMap};
use bytes::Bytes;
use itertools::Itertools;

#[test]
fn test_store() {
    let mut map = MemoryMap::new(100);
    let bytes = Bytes::from(vec![1, 2, 3, 4, 5]);
    map.store(0, bytes.clone());
    assert!(map.len() == 100);
    assert!(map.inner.data_len == 5);
    assert!(&map.get(0..5).unwrap().into_iter().collect_vec() == &bytes);
    assert!(map.inner.record.is_covered(0..5));

    assert!(map.inner.record.is_covered(1..5));
    assert!(map.inner.record.is_covered(0..4));
    assert!(map.inner.record.is_covered(2..3));
    assert!(!map.inner.record.is_covered(2..10));

    let bytes2 = Bytes::from(vec![6, 7, 8, 9, 10]);

    map.store(5, bytes2.clone());
    assert!(map.inner.data_len == 10);
    assert!(
        map.get(0..10).unwrap().into_iter().collect_vec()
            == vec![1, 2, 3, 4, 5, 6, 7, 8, 9, 10]
    );
    assert!(map.inner.record.is_covered(0..10));
    assert!(map.inner.record.is_covered(1..10));
    assert!(map.inner.record.is_covered(0..9));
    assert!(map.inner.record.is_covered(2..3));
    assert!(!map.inner.record.is_covered(2..20));
}

#[test]
fn test_remove() {
    // remove exact
    let mut data = BTreeMap::from([(5, Bytes::from(vec![5, 6, 7, 8, 9]))]);
    assert_eq!(remove_range(&mut data, 5..=9), 5, "remove exact go wrong");
    assert_eq!(data, BTreeMap::new(), "remove exact go wrong");

    // remove within
    let mut data = BTreeMap::from([(5, Bytes::from(vec![5, 6, 7, 8, 9]))]);
    assert_eq!(remove_range(&mut data, 6..=8), 3, "remove within go wrong");
    assert_eq!(
        data,
        BTreeMap::from([(5, Bytes::from(vec![5])), (9, Bytes::from(vec![9]))]),
        "remove within go wrong"
    );

    // remove within left
    let mut data = BTreeMap::from([(5, Bytes::from(vec![5, 6, 7, 8, 9]))]);
    assert_eq!(
        remove_range(&mut data, 5..=6),
        2,
        "remove within left go wrong"
    );
    assert_eq!(
        data,
        BTreeMap::from([(7, Bytes::from(vec![7, 8, 9]))]),
        "remove within left go wrong"
    );

    // remove within left
    let mut data = BTreeMap::from([(5, Bytes::from(vec![5, 6, 7, 8, 9]))]);
    assert_eq!(
        remove_range(&mut data, 5..=8),
        4,
        "remove within left go wrong 2"
    );
    assert_eq!(
        data,
        BTreeMap::from([(9, Bytes::from(vec![9]))]),
        "remove within left go wrong 2"
    );

    // remove within right
    let mut data = BTreeMap::from([(5, Bytes::from(vec![5, 6, 7, 8, 9]))]);
    assert_eq!(
        remove_range(&mut data, 7..=9),
        3,
        "remove within right go wrong"
    );
    assert_eq!(
        data,
        BTreeMap::from([(5, Bytes::from(vec![5, 6]))]),
        "remove within right go wrong"
    );
    // remove within right
    let mut data = BTreeMap::from([(5, Bytes::from(vec![5, 6, 7, 8, 9]))]);
    assert_eq!(
        remove_range(&mut data, 6..=9),
        4,
        "remove within right go wrong 2"
    );
    assert_eq!(
        data,
        BTreeMap::from([(5, Bytes::from(vec![5]))]),
        "remove within right go wrong 2"
    );

    // remove outside left
    let mut data = BTreeMap::from([(5, Bytes::from(vec![5, 6, 7, 8, 9]))]);
    assert_eq!(
        remove_range(&mut data, 0..=4),
        0,
        "remove outside left go wrong"
    );
    assert_eq!(
        data,
        BTreeMap::from([(5, Bytes::from(vec![5, 6, 7, 8, 9]))]),
        "remove outside left go wrong"
    );

    // remove outside right
    let mut data = BTreeMap::from([(5, Bytes::from(vec![5, 6, 7, 8, 9]))]);
    assert_eq!(
        remove_range(&mut data, 10..=20),
        0,
        "remove outside right go wrong"
    );
    assert_eq!(
        data,
        BTreeMap::from([(5, Bytes::from(vec![5, 6, 7, 8, 9]))]),
        "remove outside right go wrong"
    );

    // remove from [<left, <right] within
    let mut data = BTreeMap::from([(5, Bytes::from(vec![5, 6, 7, 8, 9]))]);
    assert_eq!(
        remove_range(&mut data, 4..=8),
        4,
        "remove from [<left, <right] within go wrong"
    );
    assert_eq!(
        data,
        BTreeMap::from([(9, Bytes::from(vec![9]))]),
        "remove from [<left, <right] within go wrong"
    );

    // remove from [<left, <right] within 2
    let mut data = BTreeMap::from([(5, Bytes::from(vec![5, 6, 7, 8, 9]))]);
    assert_eq!(
        remove_range(&mut data, 4..=5),
        1,
        "remove from [<left, <right] within go wrong 2"
    );
    assert_eq!(
        data,
        BTreeMap::from([(6, Bytes::from(vec![6, 7, 8, 9]))]),
        "remove from [<left, <right] within go wrong 2"
    );

    // remove from [>left, >right] within
    let mut data = BTreeMap::from([(5, Bytes::from(vec![5, 6, 7, 8, 9]))]);
    assert_eq!(
        remove_range(&mut data, 6..=10),
        4,
        "remove from [>left, >right] within go wrong"
    );

    // remove from [<left, >right]
    let mut data = BTreeMap::from([(5, Bytes::from(vec![5, 6, 7, 8, 9]))]);
    assert_eq!(
        remove_range(&mut data, 4..=10),
        5,
        "remove from [<left, >right] go wrong"
    );
    assert_eq!(
        data,
        BTreeMap::new(),
        "remove from [<left, >right] go wrong"
    );

    //    -----  ------
    //  |  |
    let mut data = BTreeMap::from([
        (5, Bytes::from(vec![5, 6, 7, 8, 9])),
        (15, Bytes::from(vec![15, 16, 17, 18, 19])),
    ]);
    assert_eq!(
        remove_range(&mut data, 4..=7),
        3,
        "2 continues range remove case 1"
    );
    assert_eq!(
        data,
        BTreeMap::from([
            (8, Bytes::from(vec![8, 9])),
            (15, Bytes::from(vec![15, 16, 17, 18, 19]))
        ]),
        "2 continues range remove case 1"
    );

    //    -----    ------
    //  |        |
    let mut data = BTreeMap::from([
        (5, Bytes::from(vec![5, 6, 7, 8, 9])),
        (15, Bytes::from(vec![15, 16, 17, 18, 19])),
    ]);
    assert_eq!(
        remove_range(&mut data, 4..=10),
        5,
        "2 continues range remove case 2"
    );
    assert_eq!(
        data,
        BTreeMap::from([(15, Bytes::from(vec![15, 16, 17, 18, 19]))]),
        "2 continues range remove case 2"
    );
    //    -----    ------
    //  |            |
    let mut data = BTreeMap::from([
        (5, Bytes::from(vec![5, 6, 7, 8, 9])),
        (15, Bytes::from(vec![15, 16, 17, 18, 19])),
    ]);
    assert_eq!(
        remove_range(&mut data, 4..=17),
        8,
        "2 continues range remove case 3"
    );
    assert_eq!(
        data,
        BTreeMap::from([(18, Bytes::from(vec![18, 19]))]),
        "2 continues range remove case 3"
    );
    //    -----    ------
    //   |                |
    let mut data = BTreeMap::from([
        (5, Bytes::from(vec![5, 6, 7, 8, 9])),
        (15, Bytes::from(vec![15, 16, 17, 18, 19])),
    ]);
    assert_eq!(
        remove_range(&mut data, 4..=25),
        10,
        "2 continues range remove case 4"
    );
    assert_eq!(data, BTreeMap::new(), "2 continues range remove case 4");

    //   -----    ------
    //    | |

    let mut data = BTreeMap::from([
        (5, Bytes::from(vec![5, 6, 7, 8, 9])),
        (15, Bytes::from(vec![15, 16, 17, 18, 19])),
    ]);
    assert_eq!(
        remove_range(&mut data, 6..=8),
        3,
        "2 continues range remove case 5"
    );
    assert_eq!(
        data,
        BTreeMap::from([
            (5, Bytes::from(vec![5])),
            (9, Bytes::from(vec![9])),
            (15, Bytes::from(vec![15, 16, 17, 18, 19]))
        ]),
        "2 continues range remove case 5"
    );

    //  -----    ------
    //    |   |
    let mut data = BTreeMap::from([
        (5, Bytes::from(vec![5, 6, 7, 8, 9])),
        (15, Bytes::from(vec![15, 16, 17, 18, 19])),
    ]);
    assert_eq!(
        remove_range(&mut data, 8..=12),
        2,
        "2 continues range remove case 6"
    );
    assert_eq!(
        data,
        BTreeMap::from([
            (5, Bytes::from(vec![5, 6, 7])),
            (15, Bytes::from(vec![15, 16, 17, 18, 19]))
        ]),
        "2 continues range remove case 6"
    );
    // -----    ------
    //    |       |
    let mut data = BTreeMap::from([
        (5, Bytes::from(vec![5, 6, 7, 8, 9])),
        (15, Bytes::from(vec![15, 16, 17, 18, 19])),
    ]);
    assert_eq!(
        remove_range(&mut data, 8..=16),
        4,
        "2 continues range remove case 7"
    );
    assert_eq!(
        data,
        BTreeMap::from([
            (5, Bytes::from(vec![5, 6, 7])),
            (17, Bytes::from(vec![17, 18, 19]))
        ]),
        "2 continues range remove case 7"
    );

    // -----    ------
    //    |           |
    let mut data = BTreeMap::from([
        (5, Bytes::from(vec![5, 6, 7, 8, 9])),
        (15, Bytes::from(vec![15, 16, 17, 18, 19])),
    ]);
    assert_eq!(
        remove_range(&mut data, 8..=20),
        7,
        "2 continues range remove case 8"
    );
    assert_eq!(
        data,
        BTreeMap::from([(5, Bytes::from(vec![5, 6, 7]))]),
        "2 continues range remove case 8"
    );

    let mut data = BTreeMap::from([
        (5, Bytes::from(vec![5, 6, 7, 8, 9])),
        (15, Bytes::from(vec![15, 16, 17, 18, 19])),
        (25, Bytes::from(vec![25, 26, 27, 28, 29])),
        (35, Bytes::from(vec![35, 36, 37, 38, 39])),
    ]);
    assert_eq!(
        remove_range(&mut data, 6..=36),
        16,
        "2 continues range remove case 9"
    );
    assert_eq!(
        data,
        BTreeMap::from([
            (5, Bytes::from(vec![5])),
            (37, Bytes::from(vec![37, 38, 39])),
        ]),
        "2 continues range remove case 9"
    );
}

#[test]
fn test_store_and_free() {
    let mut map = MemoryMap::new(100);
    map.store(0, vec![1, 2, 3, 4, 5].into());
    map.store(5, vec![6, 7, 8, 9, 10].into());
    let bytes = vec![42, 42, 42, 42].into();
    map.store_and_free(10, bytes, 10, 2);
    assert_eq!(map.inner.data_len, 2 + 4);
    assert_eq!(
        map.get(8..14).unwrap().into_iter().collect_vec(),
        vec![9, 10, 42, 42, 42, 42]
    );

    let mut map = MemoryMap::new(100);
    map.store(0, vec![1, 2, 3, 4, 5].into());
    map.store(6, vec![7, 8, 9, 10, 11].into());
    let bytes = vec![42, 42, 42, 42].into();
    map.store(5, bytes);
    assert_eq!(
        map.get(0..=10).unwrap().into_iter().collect_vec(),
        vec![1, 2, 3, 4, 5, 42, 7, 8, 9, 10, 11]
    );

    let mut map = MemoryMap::new(100);
    map.store(0, vec![0, 1, 2, 3, 4].into());
    map.store(6, vec![6, 7, 8, 9, 10].into());
    let bytes = vec![42, 42, 42, 42].into();
    map.store_and_free(5, bytes, 4, 2);
    // [0, 1, 2, 3, 4, 42, 6, 7, 8, 9, 10]
    //        |     ^   1  2  3  4
    //                              d  d
    assert_eq!(
        map.get(2..=8).unwrap().into_iter().collect_vec(),
        vec![2, 3, 4, 42, 6, 7, 8]
    );
    let bytes_last_pos = 5 + 3;
    let protect_zone_start = 4u64.saturating_sub(2);
    assert_eq!(
        map.inner.data_len,
        bytes_last_pos - protect_zone_start + 1
    );
}

fn map_with(len: u64, pieces: Vec<(u64, Vec<u8>)>) -> MemoryMap {
    let mut map = MemoryMap::new(len);
    for (offset, bytes) in pieces {
        map.store(offset, bytes.into());
    }
    map
}

#[test]
fn a_new_map_holds_nothing() {
    let map = MemoryMap::new(7);
    assert_eq!(map.len(), 7);
    assert_eq!(map.inner.data_len, 0);
    assert_eq!(map.inner.record.len(), 0);
    assert_eq!(map.get(0..1), None);
    assert_eq!(map.get(3..3), None);
}

#[test]
fn stored_bytes_are_read_back() {
    let map = map_with(100, vec![(10, vec![1, 2, 3, 4])]);
    assert_eq!(map.get(10..14), Some(vec![1, 2, 3, 4]));
    assert_eq!(map.get(11..=12), Some(vec![2, 3]));
    assert_eq!(map.get(9..14), None);
    assert_eq!(map.get(10..15), None);
    assert_eq!(map.inner.data_len, 4);
    assert_eq!(map.inner.record.covered_ranges(), vec![10..14]);
}

#[test]
fn bytes_that_are_held_stay() {
    let mut map = map_with(100, vec![(10, vec![1, 2, 3]), (16, vec![7, 8])]);
    map.store(8, vec![91, 92, 93, 94, 95, 96, 97, 98, 99, 100, 101].into());
    assert_eq!(
        map.get(8..19),
        Some(vec![91, 92, 1, 2, 3, 96, 97, 98, 7, 8, 101])
    );
    assert_eq!(map.inner.data_len, 11);
}

#[test]
fn storing_twice_changes_nothing() {
    let mut map = map_with(20, vec![(2, vec![1, 2, 3])]);
    map.store(2, vec![1, 2, 3].into());
    assert_eq!(map.inner.data_len, 3);
    assert_eq!(map.inner.record.covered_ranges(), vec![2..5]);
    assert_eq!(map.get(2..5), Some(vec![1, 2, 3]));
}

#[test]
fn bytes_behind_the_end_are_left_out() {
    let mut map = MemoryMap::new(10);
    map.store(8, vec![1, 2, 3, 4].into());
    assert_eq!(map.inner.data_len, 2);
    assert_eq!(map.get(8..10), Some(vec![1, 2]));
    assert_eq!(map.get(8..11), None);
    map.store(10, vec![5].into());
    map.store(11, vec![5].into());
    assert_eq!(map.inner.data_len, 2);
    assert_eq!(map.inner.record.covered_ranges(), vec![8..10]);
}

#[test]
fn the_map_tells_what_it_takes() {
    let map = MemoryMap::new(10);
    assert!(map.takes(0, &Bytes::from(vec![1])));
    assert!(!map.takes(0, &Bytes::new()));
    assert!(map.takes(1, &Bytes::new()));
    assert!(map.takes(10, &Bytes::from(vec![1])));
    assert!(map.takes(11, &Bytes::from(vec![1])));
    assert!(!MemoryMap::new(0).takes(0, &Bytes::from(vec![1])));
    assert!(MemoryMap::new(0).takes(1, &Bytes::from(vec![1])));
}

#[test]
fn ranges_that_run_backward_are_not_read() {
    let map = map_with(20, vec![(0, vec![1, 2, 3])]);
    let (start, end) = (2, 1);
    assert_eq!(map.get(start..end), None);
    assert_eq!(map.get(21..21), None);
}

#[test]
fn an_empty_range_needs_a_byte_before_it() {
    let map = map_with(20, vec![(5, vec![1, 2, 3])]);
    assert_eq!(map.get(4..4), None);
    assert_eq!(map.get(5..5), Some(vec![]));
    assert_eq!(map.get(6..6), Some(vec![]));
    assert_eq!(map.get(15..15), Some(vec![]));
}

#[test]
fn reads_go_over_many_pieces() {
    let map = map_with(
        100,
        vec![(3, vec![3, 4]), (0, vec![0, 1, 2]), (8, vec![8, 9]), (5, vec![5, 6, 7])],
    );
    assert_eq!(map.get(0..10), Some((0..10).collect()));
    assert_eq!(map.get(2..9), Some((2..9).collect()));
    assert_eq!(map.get(4..=5), Some(vec![4, 5]));
}

#[test]
fn freeing_keeps_the_zone_and_nothing_else() {
    let mut map = map_with(100, vec![(0, (0..30).collect()), (50, vec![50, 51])]);
    map.store_and_free(30, vec![30, 31].into(), 30, 10);
    assert_eq!(map.get(20..32), Some((20..32).collect()));
    assert_eq!(map.get(19..20), None);
    assert_eq!(map.get(50..51), None);
    assert_eq!(map.inner.data_len, 12);
    assert_eq!(map.inner.record.covered_ranges(), vec![20..30, 30..32]);
}

#[test]
fn freeing_leaves_no_entry_right_behind() {
    let mut map = map_with(100, vec![(20, vec![20, 21]), (5, vec![5, 6, 7])]);
    map.store_and_free(20, vec![].into(), 20, 20);
    assert_eq!(map.inner.record.covered_ranges(), vec![5..8]);
    assert_eq!(map.inner.data_len, 3);
    map.store_and_free(10, vec![10].into(), 8, 8);
    assert_eq!(map.inner.record.covered_ranges(), vec![5..8, 10..11]);
    assert_eq!(map.get(5..8), Some(vec![5, 6, 7]));
    assert_eq!(map.get(10..11), Some(vec![10]));
    assert_eq!(map.inner.data_len, 4);
}

#[test]
fn freeing_cuts_what_reaches_over_the_zone() {
    let mut map = map_with(100, vec![(10, vec![10, 11]), (4, vec![4, 5])]);
    map.store_and_free(5, vec![95, 6, 7, 8, 9].into(), 5, 0);
    assert_eq!(map.inner.record.covered_ranges(), vec![5..10]);
    assert_eq!(map.get(5..10), Some(vec![5, 6, 7, 8, 9]));
    assert_eq!(map.inner.data_len, 5);
}

#[test]
fn a_zone_that_runs_backward_keeps_nothing() {
    let mut map = map_with(100, vec![(4, vec![4, 5]), (10, vec![10; 50]), (60, vec![60])]);
    map.store_and_free(10, vec![10].into(), 50, 0);
    assert_eq!(map.inner.record.len(), 0);
    assert_eq!(map.inner.data_len, 0);
    assert_eq!(map.get(60..61), None);
}

#[test]
fn removal_outside_changes_nothing() {
    let held = || BTreeMap::from([(5, Bytes::from(vec![5, 6])), (20, Bytes::from(vec![20]))]);
    for range in [0..3, 0..5, 7..10, 8..10, 8..20, 7..20, 21..30, 25..30] {
        let mut data = held();
        assert_eq!(remove_range(&mut data, range), 0);
        assert_eq!(data, held());
    }
    let mut data = BTreeMap::from([(5, Bytes::from(vec![5, 6, 7, 8, 9]))]);
    assert_eq!(remove_range(&mut data, 11..21), 0);
    assert_eq!(data, BTreeMap::from([(5, Bytes::from(vec![5, 6, 7, 8, 9]))]));
}

#[test]
fn removal_keeps_pieces_far_before() {
    let mut data = BTreeMap::from([
        (0, Bytes::from(vec![0])),
        (5, Bytes::from(vec![5, 6])),
        (20, Bytes::from(vec![20, 21])),
    ]);
    assert_eq!(remove_range(&mut data, 10..21), 1);
    assert_eq!(
        data,
        BTreeMap::from([
            (0, Bytes::from(vec![0])),
            (5, Bytes::from(vec![5, 6])),
            (21, Bytes::from(vec![21])),
        ])
    );
}

#[test]
fn an_empty_range_splits_a_piece() {
    let mut data = BTreeMap::from([(5, Bytes::from(vec![5, 6, 7]))]);
    assert_eq!(remove_range(&mut data, 6..6), 0);
    assert_eq!(
        data,
        BTreeMap::from([(5, Bytes::from(vec![5])), (6, Bytes::from(vec![6, 7]))])
    );
    let (start, end) = (7, 6);
    assert_eq!(remove_range(&mut data, start..end), 0);
    assert_eq!(data.len(), 2);
}
