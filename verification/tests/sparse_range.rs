use async_http_range_reader::sparse_range::SparseRange;

#[test]
fn test_uncover_except() {
    let range = SparseRange::from_range(5..15);
    assert!(range.uncover_except(5..15).is_none());
    assert!(range.uncover_except(4..15).is_none());
    assert!(range.uncover_except(5..16).is_none());
    assert!(range.uncover_except(3..16).is_none());

    assert!(range.uncover_except(3..10).is_some());
    assert!(range.uncover_except(7..10).is_some());
    assert!(range.uncover_except(7..20).is_some());
    assert!(range.uncover_except(0..20).is_none());

    let (range_after, uncovered) = range.uncover_except(5..10).unwrap();
    assert_eq!(uncovered, vec![10..=14]);
    assert_eq!(
        range_after.covered_iranges(),
        vec![5..=9]
    );

    let (range_after, uncovered) = range.uncover_except(5..14).unwrap();
    assert_eq!(uncovered, vec![14..=14]);
    assert_eq!(
        range_after.covered_iranges(),
        vec![5..=13]
    );

    let (range_after, uncovered) = range.uncover_except(0..1).unwrap();
    assert_eq!(uncovered, vec![5..=14]);
    assert_eq!(range_after.covered_iranges(), vec![]);

    let (range_after, uncovered) = range.uncover_except(7..10).unwrap();
    assert_eq!(uncovered, vec![5..=6, 10..=14]);
    assert_eq!(
        range_after.covered_iranges(),
        vec![7..=9]
    );

    let (range_after, uncovered) = range.uncover_except(10..20).unwrap();
    assert_eq!(uncovered, vec![5..=9]);
    assert_eq!(
        range_after.covered_iranges(),
        vec![10..=14]
    );

    let mut range = SparseRange::from_range(5..15);
    range.update(20..30);
    // [5..=14], [20..=29]

    let (range_after, uncovered) = range.uncover_except(10..26).unwrap();
    assert_eq!(uncovered, vec![5..=9, 26..=29]);
    assert_eq!(
        range_after.covered_iranges(),
        vec![10..=14, 20..=25]
    );
}

#[test]
fn test_uncover() {
    // [0, 10], [20, 30], [40, 50], [60, 70], [80, 90]
    let mut range = SparseRange::from_range(0..11);
    range.update(20..31);
    range.update(40..51);
    range.update(60..71);
    range.update(80..91);

    assert_eq!(
        range.covered_iranges(),
        vec![0..=10, 20..=30, 40..=50, 60..=70, 80..=90]
    );

    // Uncovering [35, 75] => expecting uncovered [40, 50], [60, 70]
    let (range_after, uncovered) = range.uncover(35..76).unwrap();
    assert_eq!(uncovered, vec![40..=50, 60..=70]);
    assert_eq!(
        range_after.covered_iranges(),
        vec![0..=10, 20..=30, 80..=90]
    );

    // Uncovering [25, 75] => expecting uncovered [25, 30], [40, 50], [60, 70]
    let (range_after, uncovered) = range.uncover(25..76).unwrap();
    assert_eq!(uncovered, vec![25..=30, 40..=50, 60..=70]);
    assert_eq!(
        range_after.covered_iranges(),
        vec![0..=10, 20..=24, 80..=90]
    );

    // uncovering [35, 85] => expecting [40, 50], [60, 70], [80, 85]
    let (range_after, uncovered) = range.uncover(35..86).unwrap();
    assert_eq!(uncovered, vec![40..=50, 60..=70, 80..=85]);
    assert_eq!(
        range_after.covered_iranges(),
        vec![0..=10, 20..=30, 86..=90]
    );

    // uncovering [35, 80] => expecting [40, 50], [60, 70], [80, 80]
    let (range_after, uncovered) = range.uncover(35..81).unwrap();
    assert_eq!(uncovered, vec![40..=50, 60..=70, 80..=80]);
    assert_eq!(
        range_after.covered_iranges(),
        vec![0..=10, 20..=30, 81..=90]
    );

    // 1..=10
    let range = SparseRange::from_range(1..11);
    assert!(range.uncover(11..20).is_none());
    assert!(range.uncover(0..1).is_none());
    assert!(range.uncover(0..2).is_some());
    assert!(range.uncover(2..5).is_some());
    assert!(range.uncover(2..11).is_some());
    assert!(range.uncover(2..15).is_some());
    assert!(range.uncover(11..15).is_none());

    let (range_after, uncovered) = range.uncover(3..6).unwrap();
    assert_eq!(uncovered, vec![3..=5]);
    assert_eq!(
        range_after.covered_iranges(),
        vec![1..=2, 6..=10]
    );

    let (range_after, uncovered) = range.uncover(3..100).unwrap();
    assert_eq!(uncovered, vec![3..=10]);
    assert_eq!(
        range_after.covered_iranges(),
        vec![1..=2]
    );

    let (range_after, uncovered) = range.uncover(0..5).unwrap();
    assert_eq!(uncovered, vec![1..=4]);
    assert_eq!(
        range_after.covered_iranges(),
        vec![5..=10]
    );

    let mut range = SparseRange::from_range(1..11);
    range.update(20..31);
    assert!(range.uncover(11..20).is_none());
    assert!(range.uncover(12..20).is_none());
    assert!(range.uncover(11..19).is_none());

    assert!(range.uncover(11..21).is_some());
    assert!(range.uncover(10..20).is_some());
    assert!(range.uncover(0..20).is_some());
    assert!(range.uncover(0..120).is_some());

    let (range_after, uncovered) = range.uncover(3..6).unwrap();
    assert_eq!(uncovered, vec![3..=5]);
    assert_eq!(
        range_after.covered_iranges(),
        vec![1..=2, 6..=10, 20..=30]
    );

    let (range_after, uncovered) = range.uncover(3..100).unwrap();
    assert_eq!(uncovered, vec![3..=10, 20..=30]);
    assert_eq!(
        range_after.covered_iranges(),
        vec![1..=2]
    );

    let (range_after, uncovered) = range.uncover(15..26).unwrap();
    assert_eq!(uncovered, vec![20..=25]);
    assert_eq!(
        range_after.covered_iranges(),
        vec![1..=10, 26..=30]
    );
}

#[test]
fn test_sparse_range() {
    let range = SparseRange::default();
    assert!(range.covered_iranges().into_iter().next().is_none());
    assert_eq!(
        range.cover(5..10).unwrap().0,
        SparseRange::from_range(5..10)
    );

    let range = SparseRange::from_range(5..10);
    assert_eq!(range.covered_iranges(), vec![5..=9]);
    assert!(range.is_covered(5..10));
    assert!(range.is_covered(6..9));
    assert!(!range.is_covered(5..11));
    assert!(!range.is_covered(3..8));

    assert_eq!(
        range.cover(3..5),
        Some((SparseRange::from_range(3..10), vec![3..=4]))
    );

    let (range, missing) = range.cover(12..15).unwrap();
    assert_eq!(
        range.covered_iranges(),
        vec![5..=9, 12..=14]
    );
    assert_eq!(missing, vec![12..=14]);
    assert!(range.is_covered(5..10));
    assert!(range.is_covered(12..15));
    assert!(!range.is_covered(5..15));
    assert!(!range.is_covered(11..12));

    let (range, missing) = range.cover(8..14).unwrap();
    assert_eq!(range.covered_iranges(), vec![5..=14]);
    assert_eq!(missing, vec![10..=11]);
}

#[test]
fn text_lists_the_entries() {
    assert_eq!(SparseRange::default().to_string(), "");
    assert_eq!(SparseRange::from_range(5..10).to_string(), "5..=9");
    let range = SparseRange::from_ranges(vec![5..10, 12..15, 100..1001]);
    assert_eq!(range.to_string(), "5..=9, 12..=14, 100..=1000");
}

#[test]
fn from_ranges_covers_one_after_the_other() {
    assert_eq!(SparseRange::from_ranges(vec![]), SparseRange::default());
    let range = SparseRange::from_ranges(vec![20..30, 5..10, 8..21]);
    assert_eq!(range.covered_ranges(), vec![5..30]);
    let range = SparseRange::from_ranges(vec![10..20, 0..10, 20..30]);
    // The entry that begins right behind is taken in, the one that ends right before is not.
    assert_eq!(range.covered_ranges(), vec![0..20, 20..30]);
}

#[test]
fn cover_gives_what_is_missing() {
    let range = SparseRange::from_ranges(vec![10..20, 30..40, 50..60]);
    let (after, missing) = range.cover(5..55).unwrap();
    assert_eq!(missing, vec![5..=9, 20..=29, 40..=49]);
    assert_eq!(after.covered_ranges(), vec![5..60]);
    let (after, missing) = range.cover(35..70).unwrap();
    assert_eq!(missing, vec![40..=49, 60..=69]);
    assert_eq!(after.covered_ranges(), vec![10..20, 30..70]);
    assert!(range.cover(30..40).is_none());
    assert!(range.cover(31..31).is_none());
    assert!(range.cover(5..5).is_none());
}

#[test]
fn cover_adds_the_range_and_nothing_else() {
    let mut range = SparseRange::from_ranges(vec![10..20, 40..45]);
    range.update(15..42);
    for x in 0..60 {
        assert_eq!(range.is_covered(x..x + 1), (10..45).contains(&x));
    }
    assert_eq!(range.len(), 35);
}

#[test]
fn cover_twice_changes_nothing() {
    let mut range = SparseRange::from_range(3..7);
    range.update(5..9);
    let once = range.clone();
    range.update(5..9);
    assert_eq!(range, once);
    range.update(3..9);
    assert_eq!(range, once);
}

#[test]
fn cover_undoes_uncover() {
    let mut range = SparseRange::from_range(0..100);
    range.remove(30..40);
    assert_eq!(range.covered_ranges(), vec![0..30, 40..100]);
    assert_eq!(range.len(), 90);
    range.update(30..40);
    assert_eq!(range.len(), 100);
    assert!(range.is_covered(0..100));
}

#[test]
fn len_counts_the_values() {
    assert_eq!(SparseRange::default().len(), 0);
    assert_eq!(SparseRange::from_range(5..5).len(), 0);
    assert_eq!(SparseRange::from_ranges(vec![0..1, 5..10, 20..23]).len(), 9);
}

#[test]
fn remove_leaves_the_rest() {
    let mut range = SparseRange::from_ranges(vec![0..10, 20..30]);
    range.remove(12..18);
    assert_eq!(range.covered_ranges(), vec![0..10, 20..30]);
    range.remove(5..25);
    assert_eq!(range.covered_ranges(), vec![0..5, 25..30]);
    range.remove(0..100);
    assert_eq!(range, SparseRange::default());
}

#[test]
fn uncover_except_keeps_nothing_right_behind() {
    let range = SparseRange::from_ranges(vec![0..5, 10..20]);
    let (after, uncovered) = range.uncover_except(0..10).unwrap();
    assert_eq!(uncovered, vec![10..=19]);
    assert_eq!(after, SparseRange::from_range(0..5));

    let range = SparseRange::from_range(5..15);
    let (after, uncovered) = range.uncover_except(0..5).unwrap();
    assert_eq!(uncovered, vec![5..=14]);
    assert_eq!(after.covered_iranges(), vec![]);
    assert_eq!(after, SparseRange::default());
}

#[test]
fn uncover_except_of_an_empty_range_keeps_nothing() {
    let range = SparseRange::from_ranges(vec![5..15, 20..22]);
    let (after, uncovered) = range.uncover_except(10..10).unwrap();
    assert_eq!(uncovered, vec![5..=9, 10..=14, 20..=21]);
    assert_eq!(after, SparseRange::default());
    let (start, end) = (12, 8);
    let (after, uncovered) = range.uncover_except(start..end).unwrap();
    assert_eq!(uncovered, vec![5..=14, 20..=21]);
    assert_eq!(after, SparseRange::default());
}

#[test]
fn an_empty_range_gives_an_entry_that_holds_nothing() {
    let range = SparseRange::from_range(5..5);
    assert_eq!(range.covered_ranges(), vec![5..5]);
    assert_eq!(range.to_string(), "5..=4");
    assert!(!range.is_covered(5..6));
    assert!(range.uncover_except(0..5).is_none());
    assert!(range.uncover_except(4..6).is_none());
    let (after, uncovered) = range.uncover_except(5..6).unwrap();
    assert_eq!(uncovered.len(), 1);
    assert!(uncovered[0].is_empty());
    assert_eq!(after, SparseRange::default());
    assert_eq!(
        SparseRange::from_ranges(vec![5..5, 7..9, 9..9]).covered_ranges(),
        vec![5..5, 7..9]
    );
    let mut range = SparseRange::from_range(5..15);
    range.update(20..20);
    assert_eq!(range, SparseRange::from_range(5..15));
}

#[test]
fn uncovering_an_empty_range_splits_an_entry() {
    let mut range = SparseRange::from_range(5..15);
    assert!(range.uncover(5..5).is_none());
    assert!(range.uncover(15..15).is_none());
    let (after, uncovered) = range.uncover(10..10).unwrap();
    assert_eq!((*uncovered[0].start(), *uncovered[0].end()), (10, 9));
    assert_eq!(uncovered.len(), 1);
    assert_eq!(after.covered_ranges(), vec![5..10, 10..15]);
    range.remove(10..10);
    assert_eq!(range, after);
    assert!(range.is_covered(5..15));
}

#[test]
fn missing_ranges_do_not_touch() {
    let range = SparseRange::from_ranges(vec![0..5, 10..20]);
    let (after, _) = range.uncover_except(0..10).unwrap();
    let (_, missing) = after.cover(0..30).unwrap();
    assert_eq!(missing, vec![5..=29]);
}

#[test]
fn uncover_except_keeps_the_range_and_nothing_else() {
    let range = SparseRange::from_ranges(vec![0..10, 20..30, 40..50]);
    let (after, uncovered) = range.uncover_except(5..45).unwrap();
    assert_eq!(uncovered, vec![0..=4, 45..=49]);
    for x in 0..60 {
        assert_eq!(
            after.is_covered(x..x + 1),
            range.is_covered(x..x + 1) && (5..45).contains(&x)
        );
    }
}

#[test]
fn a_clone_is_equal() {
    let range = SparseRange::from_ranges(vec![0..10, 20..30]);
    assert_eq!(range.clone(), range);
    assert_eq!(range.clone().covered_iranges(), vec![0..=9, 20..=29]);
}
