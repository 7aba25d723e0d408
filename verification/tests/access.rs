use reims_vgpu_core::access::{
    AccessIntent, AccessKey, AccessMode, BackingId, ByteRange, HeapId, ResourceKey,
    SubresourceRange, requires_edge,
};
use reims_vgpu_core::identity::ChannelId;

fn key(backing: u64) -> ResourceKey {
    ResourceKey {
        backing: BackingId(backing),
        heap: None,
    }
}

fn intent(key: AccessKey, mode: AccessMode) -> AccessIntent {
    AccessIntent {
        domain: ChannelId(1),
        key,
        mode,
        api_stages: 0,
        input_content_version: None,
        output_content_version: None,
    }
}

#[test]
fn a_zero_length_range_names_no_byte_and_so_conflicts_with_nothing() {
    let empty = ByteRange {
        offset: 0,
        length: 0,
    };
    assert!(!empty.overlaps(empty));
    assert!(!empty.overlaps(ByteRange {
        offset: 0,
        length: 16
    }));
}

#[test]
fn adjacent_ranges_do_not_overlap_and_touching_ones_do() {
    let a = ByteRange {
        offset: 0,
        length: 16,
    };
    assert!(!a.overlaps(ByteRange {
        offset: 16,
        length: 16
    }));
    assert!(a.overlaps(ByteRange {
        offset: 15,
        length: 1
    }));
}

#[test]
fn a_whole_backing_meets_every_precise_access_inside_it() {
    let whole = AccessKey::Whole(key(7));
    let sub = AccessKey::Subresource(
        key(7),
        SubresourceRange {
            base_level: 3,
            level_count: 1,
            base_slice: 0,
            slice_count: 1,
            plane: 0,
        },
    );
    let range = AccessKey::Range(
        key(7),
        ByteRange {
            offset: 4096,
            length: 64,
        },
    );
    assert!(whole.may_alias(sub));
    assert!(sub.may_alias(whole));
    assert!(whole.may_alias(range));
    assert!(!whole.may_alias(AccessKey::Whole(key(8))));
}

#[test]
fn a_byte_range_and_a_subresource_over_one_backing_may_alias() {
    let range = AccessKey::Range(
        key(1),
        ByteRange {
            offset: 0,
            length: 4,
        },
    );
    let sub = AccessKey::Subresource(
        key(1),
        SubresourceRange {
            base_level: 9,
            level_count: 1,
            base_slice: 0,
            slice_count: 1,
            plane: 0,
        },
    );
    assert!(range.may_alias(sub));
}

#[test]
fn different_planes_are_different_memory() {
    let plane = |p| {
        AccessKey::Subresource(
            key(2),
            SubresourceRange {
                base_level: 0,
                level_count: 1,
                base_slice: 0,
                slice_count: 1,
                plane: p,
            },
        )
    };
    assert!(!plane(0).may_alias(plane(1)));
    assert!(plane(1).may_alias(plane(1)));
}

#[test]
fn a_heap_declaration_meets_its_members_and_not_a_later_membership() {
    let heap = HeapId {
        id: 5,
        membership_generation: 2,
    };
    let member = AccessKey::Whole(ResourceKey {
        backing: BackingId(11),
        heap: Some(heap),
    });
    let stranger = AccessKey::Whole(key(11));
    assert!(AccessKey::Heap(heap).may_alias(member));
    assert!(member.may_alias(AccessKey::Heap(heap)));
    assert!(
        !AccessKey::Heap(heap).may_alias(stranger),
        "a resource with no heap is not in one"
    );
    let later = HeapId {
        id: 5,
        membership_generation: 3,
    };
    assert!(
        !AccessKey::Heap(heap).may_alias(AccessKey::Heap(later)),
        "the same heap at a different membership is a different set"
    );
}

#[test]
fn incomplete_participation_meets_everything() {
    for other in [
        AccessKey::Whole(key(1)),
        AccessKey::Heap(HeapId {
            id: 1,
            membership_generation: 0,
        }),
        AccessKey::DomainOnly,
    ] {
        assert!(AccessKey::DomainOnly.may_alias(other));
        assert!(other.may_alias(AccessKey::DomainOnly));
    }
    assert_eq!(AccessKey::DomainOnly.rung(), 3);
}

#[test]
fn read_against_read_is_the_only_free_pair() {
    let k = AccessKey::Whole(key(3));
    let r = intent(k, AccessMode::Read);
    let w = intent(k, AccessMode::Write);
    let rw = intent(k, AccessMode::ReadWrite);
    let u = intent(k, AccessMode::Unknown);
    assert!(!requires_edge(&r, &r));
    assert!(requires_edge(&r, &w));
    assert!(requires_edge(&w, &r));
    assert!(requires_edge(&w, &w));
    assert!(requires_edge(&rw, &r));
    assert!(
        requires_edge(&r, &u) && requires_edge(&u, &r),
        "an unestablished direction might be a write, so it is not free"
    );
}

#[test]
fn a_conflict_across_domains_creates_no_edge() {
    let k = AccessKey::Whole(key(4));
    let mut a = intent(k, AccessMode::Write);
    let mut b = intent(k, AccessMode::Read);
    assert!(requires_edge(&a, &b), "same domain, write then read");
    a.domain = ChannelId(1);
    b.domain = ChannelId(2);
    assert!(!requires_edge(&a, &b));
}

#[test]
fn the_rungs_are_ordered_from_exact_to_domain_only() {
    let k = key(1);
    assert_eq!(
        AccessKey::Range(
            k,
            ByteRange {
                offset: 0,
                length: 1
            }
        )
        .rung(),
        1
    );
    assert_eq!(AccessKey::Whole(k).rung(), 2);
    assert_eq!(
        AccessKey::Heap(HeapId {
            id: 0,
            membership_generation: 0
        })
        .rung(),
        2
    );
    assert_eq!(AccessKey::DomainOnly.rung(), 3);
}
