use vmdk::extents::Extents;

#[test]
fn inserts_merge_and_overlap_is_half_open() {
    let mut x = Extents::default();
    x.insert(100, 200);
    x.insert(300, 400);
    x.insert(150, 310); // bridges both
    x.insert(500, 600);
    x.insert(600, 700); // touches: merged
    assert_eq!(x.0, vec![(100, 400), (500, 700)]);

    assert!(!x.overlaps(0, 100), "end is exclusive");
    assert!(x.overlaps(0, 101));
    assert!(!x.overlaps(400, 500), "the gap between two extents");
    assert!(x.overlaps(399, 400));
    assert!(x.overlaps(650, 651));
    assert!(!x.overlaps(700, 800));
    assert!(x.overlaps(0, 10_000), "a range covering everything");
}

#[test]
fn an_empty_range_shares_no_byte() {
    let mut x = Extents::default();
    x.insert(100, 200);
    assert!(!x.overlaps(150, 150));
    assert!(!x.overlaps(100, 100));
    assert!(!x.overlaps(180, 120));
    assert!(x.overlaps(150, 151));
}
