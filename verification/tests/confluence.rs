use reims_vgpu_core::access::{
    AccessIntent, AccessKey, AccessMode, BackingId, ByteRange, ContentVersion, ResourceKey,
};
use reims_vgpu_core::diverge::{equivalent, Divergence};
use reims_vgpu_core::eligible::{eligible, Ineligible};
use reims_vgpu_core::exec::{ExecBuilder, ExecTransaction, Prerequisite, ResolvedOperation};
use reims_vgpu_core::identity::{
    ChannelId, ChannelSequence, CompletionStamp, IngressOrdinal, ObjectListRef, ResourceId,
    SessionGeneration, SlotGeneration, StampSlot, StampValue, StampWait,
};
use reims_vgpu_core::interpret::{Interpreter, Observation, Outcome, Refusal};
use reims_vgpu_core::prereq::{Diagnosis, WaitGraph, WaitPoint};
use reims_vgpu_core::schedule::{parallel, parallel_with, serial};
use reims_vgpu_core::stream::{SegmentKind, SegmentRole};
use reims_vgpu_core::sync::{EventKind, EventOp};

fn res(slot: u32) -> ResourceId {
    ResourceId {
        slot: ObjectListRef(slot),
        generation: SlotGeneration(1),
    }
}

fn builder(domain: u32, ingress: u64) -> ExecBuilder {
    ExecBuilder::new(
        SessionGeneration(1),
        ChannelId(domain),
        ChannelSequence(ingress),
        IngressOrdinal(ingress),
    )
}

fn writes(domain: u32, backing: u64, offset: u64, version: u64) -> AccessIntent {
    AccessIntent {
        domain: ChannelId(domain),
        key: AccessKey::Range(
            ResourceKey {
                backing: BackingId(backing),
                heap: None,
            },
            ByteRange { offset, length: 64 },
        ),
        mode: AccessMode::Write,
        api_stages: 0,
        input_content_version: None,
        output_content_version: Some(ContentVersion(version)),
    }
}

fn stamp(slot: u32, value: u32) -> CompletionStamp {
    CompletionStamp {
        slot: StampSlot(slot),
        value: StampValue(value),
    }
}

fn signals(b: &mut ExecBuilder, event: u32, value: u64) {
    b.begin_segment(3, Some(SegmentRole::Encoder(SegmentKind::Event)), false)
        .expect("event encoder opens");
    b.record(ResolvedOperation::Event(EventOp {
        kind: EventKind::Signal,
        event: res(event),
        value,
    }))
    .expect("a signal records");
    b.end_segment().expect("event encoder closes");
}

#[test]
fn ordered_writers_of_one_backing_keep_its_history() {
    let mut first = builder(1, 1);
    first.declare_access(writes(1, 7, 0, 1));
    first.publish_stamp(stamp(1, 1));
    let mut second = builder(2, 2);
    second.declare_access(writes(2, 7, 512, 2));
    second.require(Prerequisite::Stamp(StampWait {
        slot: StampSlot(1),
        value: StampValue(1),
    }));
    let batch = [
        first.finish().expect("frozen"),
        second.finish().expect("frozen"),
    ];
    eligible(&batch).expect("disjoint regions, ordered by a stamp");
    let reference = serial(&batch);
    for seed in 0..16u64 {
        let run = parallel(&batch, seed);
        assert_eq!(run.order(), reference.order(), "the stamp wait decides");
        equivalent(&reference, &run).expect("the history is one");
    }
}

#[test]
fn unordered_versions_of_one_backing_may_diverge() {
    let batch: Vec<ExecTransaction> = [(1u64, 0u64), (2, 512)]
        .into_iter()
        .map(|(n, offset)| {
            let mut b = builder(1, n);
            b.declare_access(writes(1, 7, offset, n));
            b.finish().expect("frozen")
        })
        .collect();
    eligible(&batch).expect("the regions do not meet");
    let reference = serial(&batch);
    let diverged = (0..16u64).any(|seed| {
        matches!(
            equivalent(&reference, &parallel(&batch, seed)),
            Err(Divergence::ContentHistory { .. })
        )
    });
    assert!(diverged, "nothing orders the two versions");
}

#[test]
fn a_closed_generation_is_refused_whole_in_every_schedule() {
    let batch: Vec<ExecTransaction> = (1..=4u64)
        .map(|n| {
            let mut b = ExecBuilder::new(
                SessionGeneration(2),
                ChannelId(1),
                ChannelSequence(n),
                IngressOrdinal(n),
            );
            b.declare_access(writes(1, n, 0, 1));
            b.publish_stamp(stamp(1, n as u32));
            b.finish().expect("frozen")
        })
        .collect();
    eligible(&batch).expect("one generation, no waits");
    let reference = serial(&batch);
    assert_eq!(
        reference.trace,
        (1..=4u64)
            .map(|n| Observation::Refused {
                ingress: IngressOrdinal(n),
                reason: Refusal::StaleGeneration,
            })
            .collect::<Vec<_>>()
    );
    for seed in 0..16u64 {
        let run = parallel(&batch, seed);
        assert_eq!(run.order().len(), 4);
        assert!(run.releases.iter().all(|r| r.stamp.is_none()));
        equivalent(&reference, &run).expect("the same refusals");
    }
}

#[test]
fn a_refusal_in_one_run_alone_is_a_divergence() {
    let batch = [builder(1, 1).finish().expect("frozen")];
    let reference = serial(&batch);
    let mut broken = reference.clone();
    broken.trace.push(Observation::Refused {
        ingress: IngressOrdinal(1),
        reason: Refusal::UnmeetableWait,
    });
    broken.spans[0].1 = 0..1;
    let found = equivalent(&reference, &broken).expect_err("refused in one");
    assert_eq!(
        found,
        Divergence::Refusals {
            serial: vec![],
            parallel: vec![(IngressOrdinal(1), Refusal::UnmeetableWait)],
        }
    );
    assert_eq!(found.slug(), "diverge_refusals");
}

#[test]
fn the_lowest_choice_follows_ingress_order() {
    let batch: Vec<ExecTransaction> = (1..=5u64)
        .map(|n| {
            let mut b = builder(1 + (n % 2) as u32, n);
            b.publish_stamp(stamp(1 + (n % 2) as u32, n as u32));
            b.finish().expect("frozen")
        })
        .collect();
    let run = parallel_with(&batch, |_| 0);
    assert_eq!(run.order(), serial(&batch).order());
    assert_eq!(run.trace, serial(&batch).trace);
    assert!(run.stalled.is_empty());
}

#[test]
fn finishing_backwards_holds_every_stamp_until_the_head() {
    let batch: Vec<ExecTransaction> = (1..=3u64)
        .map(|n| {
            let mut b = builder(1, n);
            b.publish_stamp(stamp(1, n as u32));
            b.finish().expect("frozen")
        })
        .collect();
    let run = parallel_with(&batch, |ready| ready.len() - 1);
    assert_eq!(
        run.order(),
        vec![IngressOrdinal(3), IngressOrdinal(2), IngressOrdinal(1)]
    );
    assert_eq!(
        run.trace,
        vec![
            Observation::StampPublished {
                slot: StampSlot(1),
                value: StampValue(1)
            },
            Observation::StampPublished {
                slot: StampSlot(1),
                value: StampValue(2)
            },
            Observation::StampPublished {
                slot: StampSlot(1),
                value: StampValue(3)
            },
        ],
        "the channel's own order, though the head finished last"
    );
    assert_eq!(
        run.blocked,
        vec![(ChannelId(1), 1), (ChannelId(1), 2)],
        "one held after the first completion, two after the second"
    );
    equivalent(&serial(&batch), &run).expect("the same meaning");
}

#[test]
fn performing_and_publishing_are_running() {
    let mut b = builder(1, 1);
    b.declare_access(writes(1, 3, 0, 1));
    b.publish_stamp(stamp(2, 9));
    let tx = b.finish().expect("frozen");
    let mut whole = Interpreter::new();
    assert_eq!(whole.run(&tx), Outcome::Ran);
    let mut parts = Interpreter::new();
    assert_eq!(parts.perform(&tx), Outcome::Ran);
    assert_eq!(parts.stamp(StampSlot(2)), None, "not told yet");
    parts.publish(Some(stamp(2, 9)));
    assert_eq!(parts.stamp(StampSlot(2)), Some(StampValue(9)));
    assert_eq!(whole.into_trace(), parts.into_trace());
}

#[test]
fn a_cycle_is_closed_by_the_wait_the_search_entered_it_with() {
    let node = |ingress: u64, waits: u32, produces: u32| {
        let mut b = builder(1, ingress);
        b.require(Prerequisite::Event {
            event: res(waits),
            value: 1,
        });
        signals(&mut b, produces, 1);
        b.finish().expect("frozen")
    };
    let mut g = WaitGraph::new();
    g.accept(&node(3, 10, 11));
    g.accept(&node(1, 11, 12));
    g.accept(&node(2, 12, 10));
    assert_eq!(
        g.diagnose(),
        vec![Diagnosis::Cycle {
            members: vec![IngressOrdinal(1), IngressOrdinal(2), IngressOrdinal(3)],
            closed_by: WaitPoint::Event {
                event: res(11),
                value: 1
            },
        }],
        "the search starts from the earliest arrival, which waits for event 11"
    );
}

fn waits(b: &mut ExecBuilder, slot: u32, value: u32) {
    b.require(Prerequisite::Stamp(StampWait {
        slot: StampSlot(slot),
        value: StampValue(value),
    }));
}

fn completes(batch: &[ExecTransaction], seed: u64) {
    let run = parallel(batch, seed);
    assert!(run.stalled.is_empty(), "nothing stalls");
    let mut order = run.order();
    order.sort_unstable();
    let want: Vec<IngressOrdinal> = batch.iter().map(|tx| tx.ingress).collect();
    assert_eq!(order, want, "each once");
}

#[test]
fn an_eligible_batch_completes_though_its_versions_are_unordered() {
    let batch: Vec<ExecTransaction> = (1..=4u64)
        .map(|n| {
            let mut b = builder(1, n);
            b.declare_access(writes(1, 7, n * 512, n));
            b.finish().expect("frozen")
        })
        .collect();
    eligible(&batch).expect("the regions do not meet");
    for seed in 0..16u64 {
        completes(&batch, seed);
    }
}

#[test]
fn an_eligible_batch_completes_though_a_slot_stands_still() {
    let mut first = builder(1, 1);
    first.publish_stamp(stamp(1, 5));
    let mut second = builder(2, 2);
    second.publish_stamp(stamp(1, 5));
    let mut third = builder(3, 3);
    waits(&mut third, 1, 5);
    let batch = [
        first.finish().expect("frozen"),
        second.finish().expect("frozen"),
        third.finish().expect("frozen"),
    ];
    eligible(&batch).expect("the wait is answered before it");
    for seed in 0..16u64 {
        completes(&batch, seed);
    }
    let lowest = parallel_with(&batch, |_| 0);
    assert_eq!(lowest.order(), serial(&batch).order());
}

#[test]
fn a_closed_generation_hears_the_words_it_is_refused() {
    let mut first = ExecBuilder::new(
        SessionGeneration(2),
        ChannelId(1),
        ChannelSequence(1),
        IngressOrdinal(1),
    );
    first.publish_stamp(stamp(1, 1));
    let mut second = ExecBuilder::new(
        SessionGeneration(2),
        ChannelId(2),
        ChannelSequence(1),
        IngressOrdinal(2),
    );
    waits(&mut second, 1, 1);
    let batch = [
        first.finish().expect("frozen"),
        second.finish().expect("frozen"),
    ];
    eligible(&batch).expect("one generation, an answered wait");
    for seed in 0..16u64 {
        completes(&batch, seed);
        let run = parallel(&batch, seed);
        assert_eq!(run.order(), serial(&batch).order(), "the wait decides");
        equivalent(&serial(&batch), &run).expect("the same refusals");
    }
}

#[test]
fn a_slot_that_comes_round_past_a_wait_stalls_it() {
    let mut first = builder(1, 1);
    first.publish_stamp(stamp(1, 0x9000_0000));
    let mut second = builder(1, 2);
    second.publish_stamp(stamp(1, 0x6000_0000));
    let mut third = builder(2, 3);
    waits(&mut third, 1, 0);
    let batch = [
        first.finish().expect("frozen"),
        second.finish().expect("frozen"),
        third.finish().expect("frozen"),
    ];
    eligible(&batch).expect("the second stamp answers the wait");
    let run = parallel(&batch, 0);
    assert_eq!(run.stalled, vec![IngressOrdinal(3)]);
    assert_eq!(run.order().len(), 2);
}

#[test]
fn a_serial_run_takes_a_batch_in_the_order_it_is_given() {
    let mut later = builder(1, 2);
    later.publish_stamp(stamp(1, 2));
    let mut earlier = builder(1, 1);
    earlier.publish_stamp(stamp(1, 1));
    let batch = [
        later.finish().expect("frozen"),
        earlier.finish().expect("frozen"),
    ];
    assert!(matches!(
        eligible(&batch),
        Err(Ineligible::OutOfIngressOrder { .. })
    ));
    let run = serial(&batch);
    assert_eq!(run.order(), vec![IngressOrdinal(2), IngressOrdinal(1)]);
}

#[test]
fn a_fence_is_refused_before_a_mixed_generation() {
    let first = builder(1, 1).finish().expect("frozen");
    let mut second = ExecBuilder::new(
        SessionGeneration(2),
        ChannelId(1),
        ChannelSequence(2),
        IngressOrdinal(2),
    );
    second.require(Prerequisite::Fence { fence: res(4) });
    assert_eq!(
        eligible(&[first, second.finish().expect("frozen")]),
        Err(Ineligible::FencePrerequisite {
            waiter: IngressOrdinal(2)
        })
    );
}

#[test]
fn a_forward_wait_is_refused_before_an_unanswered_one() {
    let mut first = builder(1, 1);
    waits(&mut first, 2, 9);
    let mut second = builder(1, 2);
    waits(&mut second, 1, 5);
    let mut third = builder(2, 3);
    third.publish_stamp(stamp(1, 5));
    assert_eq!(
        eligible(&[
            first.finish().expect("frozen"),
            second.finish().expect("frozen"),
            third.finish().expect("frozen"),
        ]),
        Err(Ineligible::ForwardExplicitWait {
            waiter: IngressOrdinal(2),
            point: WaitPoint::Stamp {
                slot: StampSlot(1),
                value: StampValue(5)
            },
            producer: IngressOrdinal(3),
        })
    );
}

#[test]
fn a_version_race_is_refused_before_a_mixed_generation() {
    let mut first = builder(1, 1);
    first.declare_access(writes(1, 7, 0, 1));
    let mut second = ExecBuilder::new(
        SessionGeneration(2),
        ChannelId(2),
        ChannelSequence(2),
        IngressOrdinal(2),
    );
    second.declare_access(writes(2, 7, 0, 2));
    assert_eq!(
        eligible(&[
            first.finish().expect("frozen"),
            second.finish().expect("frozen"),
        ]),
        Err(Ineligible::UnorderedVersionRace {
            backing: BackingId(7),
            first: IngressOrdinal(1),
            second: IngressOrdinal(2),
        })
    );
}

fn awaits(b: &mut ExecBuilder, event: u32, value: u64) {
    b.require(Prerequisite::Event {
        event: res(event),
        value,
    });
}

#[test]
fn two_channels_may_share_a_slot_that_a_wait_orders() {
    let mut first = builder(1, 1);
    first.publish_stamp(stamp(5, 1));
    signals(&mut first, 9, 1);
    let mut second = builder(2, 2);
    awaits(&mut second, 9, 1);
    second.publish_stamp(stamp(5, 2));
    let batch = [
        first.finish().expect("frozen"),
        second.finish().expect("frozen"),
    ];
    eligible(&batch).expect("the event is signalled before it is waited for");
    let reference = serial(&batch);
    for seed in 0..16u64 {
        let run = parallel(&batch, seed);
        assert_eq!(run.order(), reference.order(), "the event wait decides");
        equivalent(&reference, &run).expect("the slot climbs in both");
    }
}

#[test]
fn a_channel_holds_its_stamp_behind_what_it_waits_for() {
    let mut first = builder(1, 1);
    first.publish_stamp(stamp(5, 1));
    signals(&mut first, 9, 1);
    let mut second = builder(2, 2);
    awaits(&mut second, 9, 1);
    let mut third = builder(2, 3);
    third.publish_stamp(stamp(5, 2));
    let batch = [
        first.finish().expect("frozen"),
        second.finish().expect("frozen"),
        third.finish().expect("frozen"),
    ];
    eligible(&batch).expect("the event is signalled before it is waited for");
    let reference = serial(&batch);
    let last_first = parallel_with(&batch, |ready| ready.len() - 1);
    assert_eq!(
        last_first.order(),
        vec![IngressOrdinal(3), IngressOrdinal(1), IngressOrdinal(2)],
        "nothing keeps the third transaction itself back"
    );
    equivalent(&reference, &last_first).expect("its stamp is told last all the same");
    for seed in 0..16u64 {
        equivalent(&reference, &parallel(&batch, seed)).expect("the slot climbs in both");
    }
}

#[test]
fn a_slot_of_two_channels_orders_the_versions_behind_it() {
    let mut first = builder(1, 1);
    first.declare_access(writes(1, 7, 0, 1));
    first.publish_stamp(stamp(5, 1));
    signals(&mut first, 9, 1);
    let mut second = builder(2, 2);
    awaits(&mut second, 9, 1);
    second.publish_stamp(stamp(5, 2));
    let mut third = builder(3, 3);
    third.declare_access(writes(3, 7, 512, 2));
    waits(&mut third, 5, 1);
    let batch = [
        first.finish().expect("frozen"),
        second.finish().expect("frozen"),
        third.finish().expect("frozen"),
    ];
    eligible(&batch).expect("disjoint regions, an answered wait");
    let reference = serial(&batch);
    for seed in 0..16u64 {
        completes(&batch, seed);
        equivalent(&reference, &parallel(&batch, seed)).expect("the history is one");
    }
}

#[test]
fn two_channels_that_nothing_orders_may_diverge_on_a_slot() {
    let mut first = builder(1, 1);
    first.publish_stamp(stamp(5, 1));
    let mut second = builder(2, 2);
    second.publish_stamp(stamp(5, 2));
    let batch = [
        first.finish().expect("frozen"),
        second.finish().expect("frozen"),
    ];
    eligible(&batch).expect("no waits");
    let reference = serial(&batch);
    let backwards = parallel_with(&batch, |ready| ready.len() - 1);
    assert!(backwards.stalled.is_empty(), "it completes");
    equivalent(&reference, &backwards).expect_err("the slot goes back");
}
