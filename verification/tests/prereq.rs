use reims_vgpu_core::exec::{ExecBuilder, ExecTransaction, Prerequisite, ResolvedOperation};
use reims_vgpu_core::identity::{
    ChannelId, ChannelSequence, CompletionStamp, IngressOrdinal, ObjectListRef, ResourceId,
    SessionGeneration, SlotGeneration, StampSlot, StampValue, StampWait,
};
use reims_vgpu_core::prereq::{Diagnosis, Production, WaitGraph, WaitPoint};
use reims_vgpu_core::stream::{SegmentKind, SegmentRole};
use reims_vgpu_core::sync::{EventKind, EventOp};

const EVENT: u8 = 3;

fn event_role() -> Option<SegmentRole> {
    Some(SegmentRole::Encoder(SegmentKind::Event))
}

fn res(slot: u32) -> ResourceId {
    ResourceId {
        slot: ObjectListRef(slot),
        generation: SlotGeneration(1),
    }
}

fn builder(ingress: u64) -> ExecBuilder {
    ExecBuilder::new(
        SessionGeneration::first(),
        ChannelId(1),
        ChannelSequence(ingress),
        IngressOrdinal(ingress),
    )
}

fn packet(
    ingress: u64,
    waits: &[(u32, u64)],
    signals: &[(u32, u64)],
) -> ExecTransaction {
    let mut b = builder(ingress);
    for &(event, value) in waits {
        b.require(Prerequisite::Event {
            event: res(event),
            value,
        });
    }
    if !signals.is_empty() {
        b.begin_segment(EVENT, event_role(), false)
        .expect("segment opens");
        for &(event, value) in signals {
            b.record(ResolvedOperation::Event(EventOp {
                    kind: EventKind::Signal,
                    event: res(event),
                    value,
                }))
            .expect("a signal records");
        }
        b.end_segment().expect("segment closes");
    }
    b.finish().expect("frozen")
}

#[test]
fn a_wait_answered_by_a_later_packet_is_an_edge_that_points_forwards() {
    let mut g = WaitGraph::new();
    g.accept(&packet(1, &[(7, 4)], &[]));
    g.accept(&packet(2, &[], &[(7, 4)]));
    assert_eq!(
        g.edges(),
        vec![(
            IngressOrdinal(1),
            WaitPoint::Event {
                event: res(7),
                value: 4
            },
            IngressOrdinal(2)
        )],
        "the producer arrived after the waiter, which is ordinary"
    );
    assert!(g.diagnose().is_empty(), "a met wait is not a diagnosis");
}

#[test]
fn a_wait_no_admitted_packet_produces_is_unproduced() {
    let mut g = WaitGraph::new();
    g.accept(&packet(1, &[(7, 4)], &[]));
    g.accept(&packet(2, &[], &[(7, 3)]));
    assert_eq!(
        g.diagnose(),
        vec![Diagnosis::Unproduced {
            waiter: IngressOrdinal(1),
            point: WaitPoint::Event {
                event: res(7),
                value: 4
            },
        }],
        "signalling 3 does not reach 4"
    );
}

#[test]
fn an_already_published_point_discharges_the_wait_without_an_edge() {
    let mut g = WaitGraph::new();
    g.satisfy(Production::Event {
        event: res(7),
        value: 9,
    });
    g.accept(&packet(1, &[(7, 4)], &[]));
    assert!(g.edges().is_empty());
    assert!(g.diagnose().is_empty());
}

#[test]
fn two_packets_waiting_on_each_other_are_a_cycle() {
    let mut g = WaitGraph::new();
    g.accept(&packet(1, &[(8, 1)], &[(7, 1)]));
    g.accept(&packet(2, &[(7, 1)], &[(8, 1)]));
    let cycles: Vec<_> = g
        .diagnose()
        .into_iter()
        .filter(|d| matches!(d, Diagnosis::Cycle { .. }))
        .collect();
    assert_eq!(cycles.len(), 1, "one cycle, reported once");
    let Diagnosis::Cycle { members, .. } = &cycles[0] else {
        unreachable!()
    };
    assert_eq!(members, &[IngressOrdinal(1), IngressOrdinal(2)]);
}

#[test]
fn a_packet_waiting_for_its_own_signal_is_a_one_member_cycle() {
    let mut g = WaitGraph::new();
    g.accept(&packet(1, &[(7, 1)], &[(7, 1)]));
    assert_eq!(
        g.diagnose(),
        vec![Diagnosis::Cycle {
            members: vec![IngressOrdinal(1)],
            closed_by: WaitPoint::Event {
                event: res(7),
                value: 1
            },
        }],
        "a packet-level prerequisite is checked before the packet's own \
         records run, so its own signal cannot answer it"
    );
}

#[test]
fn a_three_packet_wait_chain_is_not_a_cycle() {
    let mut g = WaitGraph::new();
    g.accept(&packet(1, &[(7, 1)], &[]));
    g.accept(&packet(2, &[(8, 1)], &[(7, 1)]));
    g.accept(&packet(3, &[], &[(8, 1)]));
    assert!(g.diagnose().is_empty(), "a chain terminates");
}

#[test]
fn retiring_a_producer_keeps_the_wait_it_answered_answered() {
    let mut g = WaitGraph::new();
    g.accept(&packet(2, &[], &[(7, 4)]));
    g.accept(&packet(1, &[(7, 4)], &[]));
    g.retire(IngressOrdinal(2));
    assert_eq!(g.len(), 1);
    assert!(
        g.diagnose().is_empty(),
        "the point was produced; the producer finishing does not unproduce it"
    );
}

#[test]
fn a_stamp_wait_participates_and_a_wrapped_value_still_discharges_it() {
    let mut b = builder(1);
    b.require(Prerequisite::Stamp(StampWait {
        slot: StampSlot(2),
        value: StampValue(1),
    }));
    let waiter = b.finish().expect("frozen");
    let mut g = WaitGraph::new();
    g.satisfy(Production::Stamp {
        slot: StampSlot(2),
        value: StampValue(u32::MAX),
    });
    g.satisfy(Production::Stamp {
        slot: StampSlot(2),
        value: StampValue(1),
    });
    g.accept(&waiter);
    assert!(
        g.diagnose().is_empty(),
        "1 follows u32::MAX on a wrapping timeline"
    );
}

#[test]
fn a_fence_wait_is_not_a_cross_packet_edge() {
    let mut b = builder(1);
    b.require(Prerequisite::Fence { fence: res(3) });
    let tx = b.finish().expect("frozen");
    let mut g = WaitGraph::new();
    g.accept(&tx);
    assert!(g.edges().is_empty());
    assert!(
        g.diagnose().is_empty(),
        "a fence is encoder-scoped; this graph has no opinion about it"
    );
}

#[test]
fn a_completion_stamp_answers_a_stamp_wait_from_another_packet() {
    let mut waiter = builder(1);
    waiter.require(Prerequisite::Stamp(StampWait {
        slot: StampSlot(2),
        value: StampValue(5),
    }));
    let waiter = waiter.finish().expect("frozen");
    let mut producer = builder(2);
    producer.publish_stamp(CompletionStamp {
        slot: StampSlot(2),
        value: StampValue(5),
    });
    let producer = producer.finish().expect("frozen");

    let mut g = WaitGraph::new();
    g.accept(&waiter);
    g.accept(&producer);
    assert_eq!(g.edges().len(), 1);
    assert!(g.diagnose().is_empty());
}

#[test]
fn a_packet_never_has_an_edge_to_itself() {
    let mut g = WaitGraph::new();
    g.accept(&packet(1, &[(7, 1)], &[(7, 1)]));
    g.accept(&packet(2, &[], &[(7, 2)]));
    assert_eq!(
        g.edges(),
        vec![(
            IngressOrdinal(1),
            WaitPoint::Event {
                event: res(7),
                value: 1
            },
            IngressOrdinal(2)
        )],
        "another packet answers the wait, and only that one is an edge"
    );
    assert!(g.diagnose().is_empty(), "the second packet lets the first run");
}

#[test]
fn packets_that_a_third_lets_run_are_no_cycle() {
    let mut g = WaitGraph::new();
    g.accept(&packet(1, &[(8, 1)], &[(7, 1)]));
    g.accept(&packet(2, &[(7, 1)], &[(8, 1)]));
    g.accept(&packet(3, &[], &[(7, 1)]));
    assert_eq!(g.edges().len(), 3, "each waits on the other, and one on the third");
    assert!(
        g.diagnose().is_empty(),
        "the third packet signals, the second runs, and so the first"
    );
}

#[test]
fn a_cycle_is_found_beside_work_that_runs() {
    let mut g = WaitGraph::new();
    g.accept(&packet(1, &[(8, 1)], &[(7, 1)]));
    g.accept(&packet(2, &[(7, 1), (9, 1)], &[(8, 1)]));
    g.accept(&packet(3, &[], &[(9, 1)]));
    assert_eq!(
        g.diagnose(),
        vec![Diagnosis::Cycle {
            members: vec![IngressOrdinal(1), IngressOrdinal(2)],
            closed_by: WaitPoint::Event {
                event: res(8),
                value: 1
            },
        }]
    );
}
