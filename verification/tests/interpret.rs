use reims_vgpu_core::access::{
    AccessIntent, AccessKey, AccessMode, BackingId, ByteRange, ContentVersion, ResourceKey,
};
use reims_vgpu_core::content::Replica;
use reims_vgpu_core::exec::{ExecBuilder, Prerequisite, ResolvedOperation};
use reims_vgpu_core::identity::{
    ChannelId, ChannelSequence, CompletionStamp, IngressOrdinal, ObjectListRef, ResourceId,
    SessionGeneration, SlotGeneration, StampSlot, StampValue, StampWait,
};
use reims_vgpu_core::interpret::{Interpreter, Observation, Outcome, Refusal, written_bytes};
use reims_vgpu_core::stream::{SegmentKind, SegmentRole};
use reims_vgpu_core::sync::{EventKind, EventOp};

const EVENT: u8 = 3;

fn event_role() -> Option<SegmentRole> {
    Some(SegmentRole::Encoder(SegmentKind::Event))
}

fn res(slot: u32) -> ResourceId {
    ResourceId {
        slot: ObjectListRef(slot),
        generation: SlotGeneration(1),
    }
}

fn builder(ingress: u64) -> ExecBuilder {
    ExecBuilder::new(
        SessionGeneration::first(),
        ChannelId(1),
        ChannelSequence(ingress),
        IngressOrdinal(ingress),
    )
}

fn signal(event: ResourceId, value: u64) -> ResolvedOperation {
    ResolvedOperation::Event(EventOp {
        kind: EventKind::Signal,
        event,
        value,
    })
}

fn write_access(backing: u64, offset: u64, length: u64) -> AccessIntent {
    AccessIntent {
        domain: ChannelId(1),
        key: AccessKey::Range(
            ResourceKey {
                backing: BackingId(backing),
                heap: None,
            },
            ByteRange { offset, length },
        ),
        mode: AccessMode::Write,
        api_stages: 0,
        input_content_version: None,
        output_content_version: Some(ContentVersion(1)),
    }
}

#[test]
fn a_transaction_publishes_its_versions_before_its_stamp() {
    let mut b = builder(1);
    b.declare_access(AccessIntent {
        input_content_version: Some(ContentVersion(1)),
        output_content_version: Some(ContentVersion(2)),
        ..write_access(7, 0, 0x40)
    });
    b.publish_stamp(CompletionStamp {
        slot: StampSlot(3),
        value: StampValue(9),
    });
    let tx = b.finish().expect("frozen");

    let mut interp = Interpreter::new();
    assert_eq!(interp.run(&tx), Outcome::Ran);
    assert_eq!(
        interp.trace(),
        [
            Observation::VersionPublished {
                backing: BackingId(7),
                version: ContentVersion(2)
            },
            Observation::StampPublished {
                slot: StampSlot(3),
                value: StampValue(9)
            },
        ]
    );
    assert_eq!(interp.stamp(StampSlot(3)), Some(StampValue(9)));
}

#[test]
fn an_unmet_wait_in_a_serial_run_is_unmeetable_rather_than_pending() {
    let mut producer = builder(1);
    producer.publish_stamp(CompletionStamp {
        slot: StampSlot(1),
        value: StampValue(5),
    });
    let producer = producer.finish().expect("frozen");

    let mut waiter = builder(2);
    waiter.require(Prerequisite::Stamp(StampWait {
        slot: StampSlot(1),
        value: StampValue(5),
    }));
    let waiter = waiter.finish().expect("frozen");

    let mut early = Interpreter::new();
    assert_eq!(
        early.run(&waiter),
        Outcome::Refused(Refusal::UnmeetableWait),
        "nothing has published slot 1"
    );

    let mut ordered = Interpreter::new();
    assert_eq!(ordered.run(&producer), Outcome::Ran);
    assert_eq!(ordered.run(&waiter), Outcome::Ran);
    assert_eq!(ordered.census(), (2, 0));
}

#[test]
fn only_an_advancing_signal_reaches_the_trace() {
    let mut b = builder(1);
    b.begin_segment(EVENT, event_role(), false)
        .expect("open");
    b.record(signal(res(4), 5)).expect("record");
    b.record(signal(res(4), 3)).expect("record");
    b.record(signal(res(4), 7)).expect("record");
    b.end_segment().expect("end");
    let tx = b.finish().expect("frozen");

    let mut interp = Interpreter::new();
    interp.run(&tx);
    assert_eq!(
        interp.trace(),
        [
            Observation::EventAdvanced {
                event: res(4),
                to: 5
            },
            Observation::EventAdvanced {
                event: res(4),
                to: 7
            },
        ]
    );
    assert_eq!(interp.event_generation(res(4)), 7);
}

#[test]
fn an_event_wait_is_met_at_or_past_its_value() {
    let mut producer = builder(1);
    producer
        .begin_segment(EVENT, event_role(), false)
        .expect("open");
    producer.record(signal(res(4), 5)).expect("record");
    producer.end_segment().expect("end");
    let producer = producer.finish().expect("frozen");

    let mut interp = Interpreter::new();
    interp.run(&producer);

    for (value, expected) in [(4u64, Outcome::Ran), (5, Outcome::Ran)] {
        let mut b = builder(2);
        b.require(Prerequisite::Event {
            event: res(4),
            value,
        });
        assert_eq!(interp.run(&b.finish().expect("frozen")), expected);
    }
    let mut b = builder(3);
    b.require(Prerequisite::Event {
        event: res(4),
        value: 6,
    });
    assert_eq!(
        interp.run(&b.finish().expect("frozen")),
        Outcome::Refused(Refusal::UnmeetableWait)
    );
}

#[test]
fn a_ranged_write_advances_content_and_a_subresource_write_does_not() {
    let mut b = builder(1);
    b.declare_access(write_access(9, 0, 0x40));
    let tx = b.finish().expect("frozen");

    let mut interp = Interpreter::new();
    interp.content_mut().declare(
        BackingId(9),
        ByteRange {
            offset: 0,
            length: 0x100,
        },
        Replica::GuestPages,
    );
    interp.run(&tx);
    assert!(interp.content().is_fresh(
        BackingId(9),
        ByteRange {
            offset: 0,
            length: 0x40
        },
        Replica::DeviceOwned
    ));
    assert!(!interp.content().is_fresh(
        BackingId(9),
        ByteRange {
            offset: 0,
            length: 0x40
        },
        Replica::GuestPages
    ));

    assert_eq!(
        written_bytes(AccessKey::Whole(ResourceKey {
            backing: BackingId(9),
            heap: None
        })),
        None
    );
}

#[test]
fn a_refusal_is_part_of_the_trace() {
    let mut b = builder(1);
    b.require(Prerequisite::Stamp(StampWait {
        slot: StampSlot(1),
        value: StampValue(1),
    }));
    let tx = b.finish().expect("frozen");
    let mut interp = Interpreter::new();
    interp.run(&tx);
    assert_eq!(
        interp.trace(),
        [Observation::Refused {
            ingress: IngressOrdinal(1),
            reason: Refusal::UnmeetableWait,
        }]
    );
    assert_eq!(interp.census(), (0, 1));
}

#[test]
fn work_from_a_closed_generation_is_refused() {
    let tx = builder(1).finish().expect("frozen");
    let mut interp = Interpreter::new();
    interp.reset();
    assert_eq!(
        interp.run(&tx),
        Outcome::Refused(Refusal::StaleGeneration),
        "the transaction was built in the first generation"
    );
    assert_eq!(
        interp.trace(),
        [Observation::Refused {
            ingress: IngressOrdinal(1),
            reason: Refusal::StaleGeneration,
        }]
    );
}

#[test]
fn a_reset_keeps_what_was_already_visible() {
    let mut b = builder(1);
    b.publish_stamp(CompletionStamp {
        slot: StampSlot(2),
        value: StampValue(4),
    });
    let tx = b.finish().expect("frozen");
    let mut interp = Interpreter::new();
    interp.run(&tx);
    interp.reset();
    assert_eq!(interp.stamp(StampSlot(2)), Some(StampValue(4)));
    assert_ne!(interp.generation(), SessionGeneration::first());
}

#[test]
fn the_trace_is_a_function_of_the_transactions_alone() {
    let make = || {
        let mut b = builder(1);
        b.begin_segment(EVENT, event_role(), false)
            .expect("open");
        b.record(signal(res(4), 2)).expect("record");
        b.end_segment().expect("end");
        b.publish_stamp(CompletionStamp {
            slot: StampSlot(1),
            value: StampValue(1),
        });
        b.finish().expect("frozen")
    };
    let tx = make();
    let mut a = Interpreter::new();
    let mut b = Interpreter::new();
    a.run(&tx);
    b.run(&make());
    assert_eq!(a.trace(), b.trace());
}
