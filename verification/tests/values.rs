use reims_vgpu_core::access::{BackingId, ByteRange, HeapId, Participation, ParticipationExtent, AccessMode};
use reims_vgpu_core::content::{ContentLedger, Replica};
use reims_vgpu_core::fifo::{
    decode_invalidate_resources, decode_resource_list, decode_synchronize_resources,
    ResourceListDecodeError,
};
use reims_vgpu_core::identity::{
    IngressOrdinal, ObjectListRef, ResourceId, SlotGeneration, StampSlot, StampValue, StampWait,
};
use reims_vgpu_core::ordinal_set::OrdinalSet;
use reims_vgpu_core::pass::{PassDescriptor, VisibilityResultBuffer};
use reims_vgpu_core::prereq::{Production, WaitPoint};
use reims_vgpu_core::range_set::RangeSet;
use reims_vgpu_core::sync::{EventKind, EventOp};
use reims_vgpu_core::table::Table;

fn res(slot: u32) -> ResourceId {
    ResourceId {
        slot: ObjectListRef(slot),
        generation: SlotGeneration(1),
    }
}

fn range(offset: u64, length: u64) -> ByteRange {
    ByteRange { offset, length }
}

#[test]
fn a_stamp_order_wraps_at_half_the_word() {
    let a = StampValue(u32::MAX);
    let b = StampValue(1);
    assert!(b.follows(a));
    assert!(!a.follows(b));
    assert!(!a.follows(a));
    let opposite = StampValue(0x8000_0000);
    assert!(!opposite.follows(StampValue(0)));
    assert!(!StampValue(0).follows(opposite));
    assert!(StampValue(0x7fff_ffff).follows(StampValue(0)));
}

#[test]
fn the_later_of_two_stamps_never_goes_back() {
    assert_eq!(StampValue(5).later(StampValue(3)), StampValue(5));
    assert_eq!(StampValue(5).later(StampValue(9)), StampValue(9));
    assert_eq!(StampValue(u32::MAX).later(StampValue(0)), StampValue(0));
    assert_eq!(
        StampValue(0).later(StampValue(0x8000_0000)),
        StampValue(0),
        "neither is later, so the slot stands"
    );
}

#[test]
fn a_stamp_wait_is_met_at_its_value_and_past_it() {
    let wait = StampWait {
        slot: StampSlot(2),
        value: StampValue(7),
    };
    assert!(!wait.satisfied_by(None));
    assert!(!wait.satisfied_by(Some(StampValue(6))));
    assert!(wait.satisfied_by(Some(StampValue(7))));
    assert!(wait.satisfied_by(Some(StampValue(8))));
}

#[test]
fn a_signal_moves_an_event_only_upwards() {
    let signal = EventOp {
        kind: EventKind::Signal,
        event: res(1),
        value: 4,
    };
    assert!(signal.advances(3));
    assert!(!signal.advances(4));
    assert!(!signal.advances(5));
    let wait = EventOp {
        kind: EventKind::Wait,
        ..signal
    };
    assert!(!wait.advances(0), "a wait moves nothing");
}

#[test]
fn a_production_discharges_only_its_own_point() {
    let signal = Production::Event {
        event: res(1),
        value: 4,
    };
    assert!(signal.discharges(WaitPoint::Event {
        event: res(1),
        value: 3
    }));
    assert!(!signal.discharges(WaitPoint::Event {
        event: res(1),
        value: 5
    }));
    assert!(!signal.discharges(WaitPoint::Event {
        event: res(2),
        value: 1
    }));
    let stamp = Production::Stamp {
        slot: StampSlot(1),
        value: StampValue(2),
    };
    assert!(stamp.discharges(WaitPoint::Stamp {
        slot: StampSlot(1),
        value: StampValue(2)
    }));
    assert!(!stamp.discharges(WaitPoint::Stamp {
        slot: StampSlot(2),
        value: StampValue(2)
    }));
    assert!(!stamp.discharges(WaitPoint::Event {
        event: res(1),
        value: 0
    }));
}

#[test]
fn two_heaps_are_one_by_number_and_not_by_membership() {
    let a = HeapId {
        id: 3,
        membership_generation: 1,
    };
    let b = HeapId {
        id: 3,
        membership_generation: 9,
    };
    let c = HeapId {
        id: 4,
        membership_generation: 1,
    };
    assert!(a.same_heap(b));
    assert!(!a.same_heap(c));
}

#[test]
fn the_other_replica_of_the_other_is_the_first() {
    assert_eq!(Replica::both(), [Replica::GuestPages, Replica::DeviceOwned]);
    for replica in Replica::both() {
        assert_ne!(replica.other(), replica);
        assert_eq!(replica.other().other(), replica);
    }
}

#[test]
fn a_reservation_is_never_handed_out_twice() {
    let mut ledger = ContentLedger::new();
    let backing = BackingId(4);
    assert_eq!(ledger.newest_version(backing), None);
    let first = ledger.reserve(backing);
    let second = ledger.reserve(backing);
    assert_ne!(first, second);
    assert_eq!(
        ledger.newest_version(backing),
        None,
        "reserving makes nothing current"
    );
    ledger.declare(backing, range(0, 16), Replica::GuestPages);
    assert!(ledger.newest_version(backing).is_some());
}

#[test]
fn an_intersection_and_a_difference_name_exact_bytes() {
    let mut a = RangeSet::new();
    a.insert(range(0, 10));
    a.insert(range(20, 10));
    let mut b = RangeSet::new();
    b.insert(range(5, 20));
    assert_eq!(a.intersection(&b).ranges(), &[range(5, 5), range(20, 5)]);
    a.subtract(&b);
    assert_eq!(a.ranges(), &[range(0, 5), range(25, 5)]);
}

#[test]
fn a_range_at_the_top_of_the_word_is_kept_whole() {
    let mut set = RangeSet::new();
    set.insert(range(u64::MAX - 4, 4));
    set.insert(range(u64::MAX - 8, 4));
    assert_eq!(set.ranges(), &[range(u64::MAX - 8, 8)]);
}

#[test]
fn an_ordinal_set_lists_ascending_and_once() {
    let mut set = OrdinalSet::new();
    for n in [5u64, 1, 3, 1] {
        set.insert(IngressOrdinal(n));
    }
    let want = vec![IngressOrdinal(1), IngressOrdinal(3), IngressOrdinal(5)];
    assert_eq!(set.to_vec(), want);
    assert_eq!(set.into_vec(), want);
}

#[test]
fn a_table_answers_for_the_last_value_put_under_a_key() {
    let mut table: Table<StampSlot, u32> = Table::new();
    assert_eq!(table.find(StampSlot(1)), None);
    table.insert(StampSlot(1), 10);
    table.insert(StampSlot(2), 20);
    let at = table.find(StampSlot(1)).expect("held");
    table.set_at(at, 11);
    assert_eq!(*table.value(at), 11);
    *table.value_mut(at) = 12;
    let (key, value) = table.remove_at(at);
    assert_eq!((key, value), (StampSlot(1), 12));
    assert_eq!(table.find(StampSlot(1)), None);
    assert!(table.find(StampSlot(2)).is_some());
}

#[test]
fn a_pass_names_its_visibility_buffer_and_nothing_else() {
    let mut out: Vec<Participation> = Vec::new();
    PassDescriptor::empty().extend_participations(&mut out);
    assert!(out.is_empty());
    PassDescriptor {
        visibility_result_buffer: Some(VisibilityResultBuffer { buffer: res(6) }),
    }
    .extend_participations(&mut out);
    assert_eq!(
        out,
        vec![Participation {
            resource: res(6),
            extent: ParticipationExtent::Whole,
            mode: AccessMode::Write,
            api_stages: 0,
        }]
    );
}

#[test]
fn a_resource_list_is_read_word_by_word() {
    let mut bytes: Vec<u8> = Vec::new();
    for word in [0x0102_0304u32, 2, 0xdead_beef, 0x11, 0x55, 0x22] {
        bytes.extend_from_slice(&word.to_le_bytes());
    }
    let wide = decode_invalidate_resources(&bytes).expect("two records of eight bytes");
    assert_eq!(wide.task_id, 0x0102_0304);
    assert_eq!(wide.object_ids, vec![0xdead_beef, 0x55]);
    let narrow = decode_synchronize_resources(&bytes).expect("two records of four bytes");
    assert_eq!(narrow.object_ids, vec![0xdead_beef, 0x11]);
    let twelve = decode_resource_list(&bytes[..8], 4).expect_err("no record fits");
    assert_eq!(
        twelve,
        ResourceListDecodeError::Truncated { count: 2, plen: 8 }
    );
    assert_eq!(twelve.slug(), "resource_list_truncated");
    assert_eq!(
        decode_resource_list(&bytes[..7], 4).expect_err("no header"),
        ResourceListDecodeError::ShortHeader { plen: 7 }
    );
}
