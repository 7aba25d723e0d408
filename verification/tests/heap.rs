use reims_vgpu_core::access::{AccessKey, BackingId, ByteRange, HeapId};
use reims_vgpu_core::heap::{HeapPlacement, Heaps, Refusal, Retirement};
use reims_vgpu_core::identity::{ObjectListRef, ResourceId, SlotGeneration};

fn res(slot: u32) -> ResourceId {
    ResourceId {
        slot: ObjectListRef(slot),
        generation: SlotGeneration(0).next(),
    }
}

fn heaps_with(length: u64) -> Heaps {
    let mut h = Heaps::new();
    h.create(7, BackingId(100), length).expect("first create");
    h
}

#[test]
fn two_placements_alias_exactly_where_their_windows_meet() {
    let mut heaps = heaps_with(4096);
    let a = heaps.place(7, res(1), 0, 512).expect("a fits");
    let b = heaps.place(7, res(2), 256, 512).expect("b fits");
    let c = heaps.place(7, res(3), 2048, 512).expect("c fits");
    let m = heaps.membership(7).expect("live");
    assert_eq!(a.backing, b.backing, "one heap is one piece of storage");
    let key = |p: HeapPlacement, r: ByteRange| AccessKey::Range(p.key(m), r);
    assert!(
        key(a, a.whole()).may_alias(key(b, b.whole())),
        "overlapping windows are the same bytes"
    );
    assert!(
        !key(a, a.whole()).may_alias(key(c, c.whole())),
        "disjoint windows are not"
    );
    let front_of_a = a.within(0, 128).expect("inside a");
    let back_of_b = b.within(384, 128).expect("inside b");
    assert!(!key(a, front_of_a).may_alias(key(b, back_of_b)));
    let tail_of_a = a.within(384, 128).expect("inside a");
    let under_it = b.within(128, 128).expect("inside b");
    assert_eq!(tail_of_a, under_it, "the same heap bytes, named two ways");
    assert!(key(a, tail_of_a).may_alias(key(b, under_it)));
}

#[test]
fn a_window_of_a_placement_cannot_leave_it() {
    let mut heaps = heaps_with(4096);
    let p = heaps.place(7, res(1), 1024, 256).expect("fits");
    assert_eq!(
        p.within(16, 32),
        Ok(ByteRange {
            offset: 1040,
            length: 32
        })
    );
    assert_eq!(
        p.within(0, 256),
        Ok(ByteRange {
            offset: 1024,
            length: 256
        })
    );
    assert_eq!(
        p.within(240, 32),
        Err(Refusal::OutOfPlacement {
            offset: 240,
            length: 32,
            placement_length: 256,
        }),
        "one byte past the end is not clamped to the end"
    );
    assert_eq!(
        p.within(8, u64::MAX),
        Err(Refusal::OutOfPlacement {
            offset: 8,
            length: u64::MAX,
            placement_length: 256,
        }),
        "and an overflowing end is the same defect, not a wrap"
    );
}

#[test]
fn a_placement_cannot_leave_the_heap() {
    let mut heaps = heaps_with(1024);
    assert_eq!(
        heaps.place(7, res(1), 768, 512),
        Err(Refusal::OutOfHeap {
            heap: 7,
            offset: 768,
            length: 512,
            heap_length: 1024,
        })
    );
    assert_eq!(
        heaps.place(7, res(1), 1, u64::MAX),
        Err(Refusal::OutOfHeap {
            heap: 7,
            offset: 1,
            length: u64::MAX,
            heap_length: 1024,
        })
    );
    assert_eq!(
        heaps.allocations(7),
        0,
        "a refused placement is not a member"
    );
    assert_eq!(
        heaps.membership(7).map(|m| m.membership_generation),
        Ok(0),
        "and did not advance membership"
    );
}

#[test]
fn placing_and_removing_both_advance_membership() {
    let mut heaps = heaps_with(4096);
    let generation = |h: &Heaps| h.membership(7).expect("live").membership_generation;
    assert_eq!(generation(&heaps), 0);
    let a = heaps.place(7, res(1), 0, 64).expect("fits");
    assert_eq!(generation(&heaps), 1);
    heaps.place(7, res(2), 64, 64).expect("fits");
    assert_eq!(generation(&heaps), 2);
    assert_eq!(
        heaps.remove(a, res(1)),
        Ok(Retirement::Held {
            allocations: 1,
            named: true
        })
    );
    assert_eq!(generation(&heaps), 3);
}

#[test]
fn a_resource_is_placed_once_and_removed_once() {
    let mut heaps = heaps_with(4096);
    let a = heaps.place(7, res(1), 0, 64).expect("fits");
    assert_eq!(
        heaps.place(7, res(1), 128, 64),
        Err(Refusal::AlreadyPlaced { resource: res(1) }),
        "a second placement would leave the first one's coordinates unowned"
    );
    assert_eq!(heaps.placement(7, res(1)), Ok(a));
    assert_eq!(
        heaps.placement(7, res(2)),
        Err(Refusal::NotPlaced { resource: res(2) })
    );
    assert_eq!(
        heaps.remove(a, res(1)),
        Ok(Retirement::Held {
            allocations: 0,
            named: true
        })
    );
    assert_eq!(
        heaps.remove(a, res(1)),
        Err(Refusal::NotPlaced { resource: res(1) })
    );
}

#[test]
fn deleting_a_heap_with_allocations_hands_the_storage_to_them() {
    let mut heaps = heaps_with(4096);
    let a = heaps.place(7, res(1), 0, 64).expect("fits");
    let b = heaps.place(7, res(2), 64, 64).expect("fits");
    assert_eq!(
        heaps.delete(7),
        Ok(Retirement::Held {
            allocations: 2,
            named: false
        })
    );
    assert_eq!(
        heaps.membership(7),
        Err(Refusal::NoSuchHeap { heap: 7 }),
        "the delete stopped the number resolving"
    );
    assert!(
        heaps.holds_storage(BackingId(100)),
        "and did not free storage"
    );
    assert_eq!(
        heaps.remove(a, res(1)),
        Ok(Retirement::Held {
            allocations: 1,
            named: false
        })
    );
    assert!(heaps.holds_storage(BackingId(100)));
    assert_eq!(
        heaps.remove(b, res(2)),
        Ok(Retirement::StorageFree {
            backing: BackingId(100)
        }),
        "the last allocation completes the handoff"
    );
    assert!(!heaps.holds_storage(BackingId(100)));
    assert_eq!(heaps.retiring_storage(), 0);
}

#[test]
fn deleting_an_empty_heap_frees_its_storage_now() {
    let mut heaps = heaps_with(4096);
    assert_eq!(
        heaps.delete(7),
        Ok(Retirement::StorageFree {
            backing: BackingId(100)
        })
    );
    assert_eq!(heaps.delete(7), Err(Refusal::NoSuchHeap { heap: 7 }));
    assert!(!heaps.holds_storage(BackingId(100)));
}

#[test]
fn a_reused_number_cannot_reach_the_previous_heaps_storage() {
    let mut heaps = heaps_with(4096);
    let old = heaps.place(7, res(1), 0, 64).expect("fits");
    assert_eq!(
        heaps.delete(7),
        Ok(Retirement::Held {
            allocations: 1,
            named: false
        })
    );
    heaps
        .create(7, BackingId(200), 4096)
        .expect("the number is available again");
    let new = heaps.place(7, res(1), 0, 64).expect("fits");
    assert_ne!(old.backing, new.backing);
    assert_eq!(
        heaps.remove(old, res(1)),
        Ok(Retirement::StorageFree {
            backing: BackingId(100)
        }),
        "the old placement retires the old storage"
    );
    assert_eq!(
        heaps.allocations(7),
        1,
        "and left the new heap's membership alone"
    );
    assert_eq!(
        heaps.remove(new, res(1)),
        Ok(Retirement::Held {
            allocations: 0,
            named: true
        }),
        "the new heap is still named, so its storage is still held"
    );
    assert!(heaps.holds_storage(BackingId(200)));
}

#[test]
fn a_live_number_cannot_be_created_over() {
    let mut heaps = heaps_with(4096);
    assert_eq!(
        heaps.create(7, BackingId(200), 4096),
        Err(Refusal::HeapExists { heap: 7 })
    );
}

#[test]
fn a_placement_naming_storage_nothing_holds_refuses() {
    let mut heaps = heaps_with(4096);
    let stranger = HeapPlacement {
        heap: 9,
        backing: BackingId(999),
        region: ByteRange {
            offset: 0,
            length: 64,
        },
    };
    assert_eq!(
        heaps.remove(stranger, res(1)),
        Err(Refusal::StaleStorage {
            backing: BackingId(999)
        })
    );
}

#[test]
fn a_key_recorded_at_one_membership_still_meets_a_later_declaration() {
    let mut heaps = heaps_with(4096);
    let a = heaps.place(7, res(1), 0, 64).expect("fits");
    let early = heaps.membership(7).expect("live");
    heaps.place(7, res(2), 2048, 64).expect("fits");
    let late = heaps.membership(7).expect("live");
    assert_ne!(early.membership_generation, late.membership_generation);
    assert!(
        AccessKey::Range(a.key(early), a.whole()).may_alias(AccessKey::Heap(HeapId { ..late }))
    );
}

#[test]
fn heap_every_refusal_has_its_own_slug() {
    let all = [
        Refusal::NoSuchHeap { heap: 1 },
        Refusal::HeapExists { heap: 1 },
        Refusal::OutOfHeap {
            heap: 1,
            offset: 0,
            length: 0,
            heap_length: 0,
        },
        Refusal::OutOfPlacement {
            offset: 0,
            length: 0,
            placement_length: 0,
        },
        Refusal::AlreadyPlaced { resource: res(1) },
        Refusal::NotPlaced { resource: res(1) },
        Refusal::StaleStorage {
            backing: BackingId(1),
        },
    ];
    let mut slugs: Vec<&str> = all.iter().map(|r| r.slug()).collect();
    slugs.sort_unstable();
    let count = slugs.len();
    slugs.dedup();
    assert_eq!(slugs.len(), count);
}

#[test]
fn storage_under_two_heaps_is_free_when_the_last_goes() {
    let mut heaps = heaps_with(4096);
    heaps.create(8, BackingId(100), 4096).expect("another number");
    assert_eq!(
        heaps.delete(7),
        Ok(Retirement::Held {
            allocations: 0,
            named: false
        }),
        "the other heap is still over the storage"
    );
    assert_eq!(
        heaps.delete(8),
        Ok(Retirement::StorageFree {
            backing: BackingId(100)
        })
    );
}

#[test]
fn allocations_left_by_two_heaps_hold_their_storage_together() {
    let mut heaps = heaps_with(4096);
    heaps.create(8, BackingId(100), 4096).expect("another number");
    let a = heaps.place(7, res(1), 0, 64).expect("fits");
    let b = heaps.place(8, res(1), 64, 64).expect("fits");
    assert_eq!(
        heaps.delete(7),
        Ok(Retirement::Held {
            allocations: 1,
            named: false
        })
    );
    assert_eq!(
        heaps.delete(8),
        Ok(Retirement::Held {
            allocations: 1,
            named: false
        })
    );
    assert_eq!(heaps.retiring_storage(), 1, "one storage, held twice over");
    assert!(matches!(
        heaps.remove(a, res(1)),
        Ok(Retirement::Held { named: false, .. })
    ));
    assert_eq!(
        heaps.remove(b, res(1)),
        Ok(Retirement::StorageFree {
            backing: BackingId(100)
        })
    );
    assert_eq!(heaps.retiring_storage(), 0);
    assert_eq!(
        heaps.remove(b, res(1)),
        Err(Refusal::StaleStorage {
            backing: BackingId(100)
        })
    );
}

#[test]
fn storage_a_live_heap_holds_is_not_stale() {
    let mut heaps = heaps_with(4096);
    heaps.create(8, BackingId(100), 4096).expect("another number");
    let a = heaps.place(7, res(1), 0, 64).expect("fits");
    assert_eq!(
        heaps.remove(a, res(1)),
        Ok(Retirement::Held {
            allocations: 0,
            named: true
        })
    );
    heaps.delete(7).expect("live");
    assert_eq!(
        heaps.remove(a, res(1)),
        Err(Refusal::NotPlaced { resource: res(1) }),
        "the storage is held, but not by this resource"
    );
}
