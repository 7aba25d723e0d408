use reims_vgpu_core::access::ByteRange;
use reims_vgpu_core::range_set::RangeSet;

fn r(offset: u64, length: u64) -> ByteRange {
    ByteRange { offset, length }
}

fn assert_sorted_disjoint_coalesced(s: &RangeSet) {
    for w in s.ranges().windows(2) {
        assert!(
            w[0].offset + w[0].length < w[1].offset,
            "ranges must be ordered, disjoint and non-adjacent: {:?}",
            s.ranges()
        );
    }
    for x in s.ranges() {
        assert!(x.length > 0, "an empty range is not a member");
    }
}

#[test]
fn inserting_touching_ranges_makes_one() {
    let mut s = RangeSet::new();
    s.insert(r(0, 4));
    s.insert(r(4, 4));
    assert_sorted_disjoint_coalesced(&s);
    assert_eq!(s.ranges(), &[r(0, 8)]);
    assert_eq!(s.len(), 8);
}

#[test]
fn inserting_a_gap_keeps_two() {
    let mut s = RangeSet::new();
    s.insert(r(0, 4));
    s.insert(r(8, 4));
    assert_sorted_disjoint_coalesced(&s);
    assert_eq!(s.ranges(), &[r(0, 4), r(8, 4)]);
    s.insert(r(3, 6));
    assert_sorted_disjoint_coalesced(&s);
    assert_eq!(s.ranges(), &[r(0, 12)]);
}

#[test]
fn inserting_out_of_order_still_sorts() {
    let mut s = RangeSet::new();
    for range in [r(100, 4), r(0, 4), r(50, 4), r(20, 4)] {
        s.insert(range);
        assert_sorted_disjoint_coalesced(&s);
    }
    assert_eq!(s.ranges(), &[r(0, 4), r(20, 4), r(50, 4), r(100, 4)]);
}

#[test]
fn removing_the_middle_splits_a_range() {
    let mut s = RangeSet::from_range(r(0, 16));
    s.remove(r(4, 4));
    assert_sorted_disjoint_coalesced(&s);
    assert_eq!(s.ranges(), &[r(0, 4), r(8, 8)]);
}

#[test]
fn removing_the_edges_trims_rather_than_splits() {
    let mut s = RangeSet::from_range(r(8, 8));
    s.remove(r(0, 10));
    assert_eq!(s.ranges(), &[r(10, 6)]);
    s.remove(r(14, 100));
    assert_eq!(s.ranges(), &[r(10, 4)]);
    assert_sorted_disjoint_coalesced(&s);
}

#[test]
fn a_zero_length_range_is_neither_inserted_nor_removed() {
    let mut s = RangeSet::from_range(r(0, 8));
    s.insert(r(4, 0));
    s.remove(r(4, 0));
    assert_eq!(s.ranges(), &[r(0, 8)]);
    assert!(
        s.covers(r(4, 0)),
        "a range naming no byte is always covered"
    );
}

#[test]
fn missing_from_names_only_the_bytes_that_are_owed() {
    let mut fresh = RangeSet::new();
    fresh.insert(r(0, 16));
    fresh.insert(r(32, 16));
    let owed = fresh.missing_from(r(0, 64));
    assert_sorted_disjoint_coalesced(&owed);
    assert_eq!(owed.ranges(), &[r(16, 16), r(48, 16)]);
    assert_eq!(owed.len(), 32);
    assert!(fresh.missing_from(r(0, 16)).is_empty());
    assert!(fresh.covers(r(4, 8)));
    assert!(!fresh.covers(r(8, 32)));
}

#[test]
fn a_read_of_nothing_owes_nothing() {
    let fresh = RangeSet::new();
    assert!(fresh.missing_from(r(0, 0)).is_empty());
    assert_eq!(fresh.missing_from(r(0, 8)).ranges(), &[r(0, 8)]);
}

#[test]
fn union_is_insertion_of_every_member() {
    let mut a = RangeSet::from_range(r(0, 8));
    let mut b = RangeSet::from_range(r(8, 8));
    b.insert(r(100, 4));
    a.union_with(&b);
    assert_sorted_disjoint_coalesced(&a);
    assert_eq!(a.ranges(), &[r(0, 16), r(100, 4)]);
}

#[test]
fn two_sets_covering_the_same_bytes_are_equal_however_they_were_built() {
    let mut a = RangeSet::new();
    a.insert(r(0, 4));
    a.insert(r(4, 4));
    let b = RangeSet::from_range(r(0, 8));
    assert_eq!(a, b);
}
