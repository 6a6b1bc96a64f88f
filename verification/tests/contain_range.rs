use silk_engine::util::contain_range::ContainRange;

#[test]
fn contain_range_tracks_live_ranges() {
    let mut c = ContainRange::new();
    assert_eq!(c.range(), 0..0);
    c.add(2, 5);
    c.add(1, 3);
    assert_eq!(c.range(), 1..5);
    c.remove(1, 3);
    assert_eq!(c.range(), 2..5);
    c.remove(2, 5);
    assert_eq!(c.range(), 0..0);
}

#[test]
fn contain_range_removal_before_add_cancels_it() {
    let mut c = ContainRange::default();
    c.remove(7, 9);
    c.add(7, 9);
    assert_eq!(c.range(), 0..0);
    c.add(4, 6);
    assert_eq!(c.range(), 4..6);
}

#[test]
fn contain_range_duplicates_count() {
    let mut c = ContainRange::new();
    c.add(3, 8);
    c.add(3, 8);
    c.remove(3, 8);
    assert_eq!(c.range(), 3..8);
    c.add(10, 20);
    assert_eq!(c.range(), 3..20);
}
