use reims_vgpu_core::access::{
    AccessIntent, AccessKey, AccessMode, BackingId, ByteRange, ContentVersion, HeapId,
    Participation, ResourceKey,
};
use reims_vgpu_core::blit::BlitOp;
use reims_vgpu_core::exec::{
    ExecArenas, ExecBuilder, Prerequisite, ResolvedOperation, VersionPublication,
};
use reims_vgpu_core::icb::{CommandRange, IcbOp};
use reims_vgpu_core::identity::{
    ChannelId, ChannelSequence, CompletionStamp, IngressOrdinal, ObjectListRef, ResourceId,
    SessionGeneration, SlotGeneration, StampSlot, StampValue, StampWait,
};
use reims_vgpu_core::operation::OperationClass;
use reims_vgpu_core::pass::{PassDescriptor, VisibilityResultBuffer};
use reims_vgpu_core::render::{PassDescriptorSlot, RenderOp};
use reims_vgpu_core::resource_state::{ContentDirective, ResourceStateOp, ResourceStateTarget};
use reims_vgpu_core::stream::{
    EncoderBoundary, ProtectionOptions, Rail, SegmentKind, SegmentRole, StreamRefusal,
};
use reims_vgpu_core::sync::{
    BarrierOp, BarrierTarget, EventKind, EventOp, FenceKind, FenceOp, ResourceSpan,
};

const KINDS: [SegmentKind; 5] = [
    SegmentKind::Render,
    SegmentKind::Compute,
    SegmentKind::Blit,
    SegmentKind::Event,
    SegmentKind::Info,
];

fn wire(kind: SegmentKind) -> u8 {
    match kind {
        SegmentKind::Render => 0,
        SegmentKind::Compute => 1,
        SegmentKind::Blit => 2,
        SegmentKind::Event => 3,
        SegmentKind::Info => 4,
    }
}

fn encoder(kind: SegmentKind) -> Option<SegmentRole> {
    Some(SegmentRole::Encoder(kind))
}

const CLASSES: [OperationClass; 11] = [
    OperationClass::EncoderBoundary,
    OperationClass::Render,
    OperationClass::Compute,
    OperationClass::Blit,
    OperationClass::Event,
    OperationClass::Fence,
    OperationClass::Barrier,
    OperationClass::ResourceState,
    OperationClass::IndirectCommand,
    OperationClass::InfoQuery,
    OperationClass::CompletionEffect,
];

fn res(slot: u32) -> ResourceId {
    ResourceId {
        slot: ObjectListRef(slot),
        generation: SlotGeneration(1),
    }
}

fn builder() -> ExecBuilder {
    ExecBuilder::new(
        SessionGeneration::first(),
        ChannelId(1),
        ChannelSequence(7),
        IngressOrdinal(42),
    )
}

fn a_blit() -> ResolvedOperation {
    ResolvedOperation::Blit(BlitOp::GenerateMipmaps { texture: res(1) })
}

fn a_barrier() -> ResolvedOperation {
    ResolvedOperation::Barrier(BarrierOp {
        target: BarrierTarget::Resources(ResourceSpan { start: 0, len: 1 }),
        after_stages: None,
        before_stages: None,
    })
}

#[test]
fn a_finished_transaction_carries_its_records_in_order() {
    let mut b = builder();
    b.begin_segment(wire(SegmentKind::Blit), encoder(SegmentKind::Blit), false)
        .expect("open");
    let first = b.record(a_blit()).expect("record");
    let second = b.record(a_blit()).expect("record");
    b.end_segment().expect("end");
    b.begin_segment(wire(SegmentKind::Blit), encoder(SegmentKind::Blit), false)
        .expect("open");
    let third = b.record(a_blit()).expect("record");
    b.end_segment().expect("end");

    let tx = b.finish().expect("frozen");
    assert_eq!(tx.streams.len(), 2);
    assert_eq!(tx.record_count(), 3);
    let positions: Vec<_> = tx.records().iter().map(|r| r.at).collect();
    assert_eq!(positions, vec![first, second, third]);
    assert!(positions.windows(2).all(|w| w[0] < w[1]));
    assert_eq!(tx.ingress, IngressOrdinal(42));
    assert_eq!(tx.domain, ChannelId(1));
}

#[test]
fn the_stream_rules_are_the_cursors_and_are_not_restated() {
    let mut b = builder();
    assert_eq!(b.record(a_blit()), Err(StreamRefusal::RecordOutsideEncoder));

    let mut b = builder();
    b.begin_segment(wire(SegmentKind::Blit), encoder(SegmentKind::Blit), false)
        .expect("open");
    assert_eq!(
        b.record(ResolvedOperation::Render(RenderOp::SetPipeline {
            pipeline: res(1)
        })),
        Err(StreamRefusal::RailMismatch {
            segment: SegmentKind::Blit,
            record: Rail::Render,
        })
    );

    let mut b = builder();
    b.begin_segment(wire(SegmentKind::Compute), encoder(SegmentKind::Compute), false)
        .expect("open");
    assert_eq!(
        b.finish().err(),
        Some(StreamRefusal::EncoderNeverEnded(SegmentKind::Compute))
    );
}

#[test]
fn a_multi_rail_record_is_admitted_only_by_an_encoder_that_carries_it() {
    for kind in [SegmentKind::Render, SegmentKind::Compute] {
        let mut b = builder();
        b.begin_segment(wire(kind), encoder(kind), false).expect("open");
        b.record(a_barrier()).expect("a barrier exists on both");
        b.end_segment().expect("end");
        assert_eq!(b.finish().expect("frozen").record_count(), 1);
    }
    for kind in [SegmentKind::Blit, SegmentKind::Event, SegmentKind::Info] {
        let mut b = builder();
        b.begin_segment(wire(kind), encoder(kind), false).expect("open");
        assert_eq!(
            b.record(a_barrier()),
            Err(StreamRefusal::RailMismatch {
                segment: kind,
                record: kind.rail(),
            }),
            "{kind:?} carries no barrier record"
        );
    }
}


#[test]
fn every_multi_rail_class_that_is_admitted_somewhere_has_a_payload() {
    let samples = [
        ResolvedOperation::Fence(FenceOp {
            kind: FenceKind::Update,
            fence: res(1),
            stages: None,
        }),
        a_barrier(),
        ResolvedOperation::ResourceState(ResourceStateOp {
            directive: ContentDirective::Synchronize,
            target: ResourceStateTarget::Encoder,
        }),
        ResolvedOperation::IndirectCommand(IcbOp::ExecuteRange {
            icb: res(1),
            commands: CommandRange::default(),
        }),
    ];
    for class in CLASSES {
        let admitted = KINDS.iter().any(|&kind| class.admissible_on(kind));
        if !admitted || matches!(class, OperationClass::EncoderBoundary) {
            continue;
        }
        assert!(
            samples.iter().any(|op| op.class() == class),
            "{class:?} is admitted and has no payload to admit"
        );
    }
}

#[test]
fn an_unclaimed_protection_envelope_refuses_the_whole_packet() {
    let mut b = builder();
    b.protection_envelope(ProtectionOptions(0x44))
        .expect("armed");
    assert_eq!(
        b.finish().err(),
        Some(StreamRefusal::ProtectionEnvelopeUnclaimed)
    );
}

#[test]
fn a_pipeline_is_leased_once_however_often_it_is_bound() {
    let mut b = builder();
    b.lease_pipeline(res(3));
    b.lease_pipeline(res(3));
    b.lease_pipeline(res(4));
    let tx = b.finish().expect("frozen");
    assert_eq!(tx.pipeline_leases, vec![res(3), res(4)]);
}

#[test]
fn prerequisites_and_accesses_are_separate_lists() {
    let mut b = builder();
    b.require(Prerequisite::Stamp(StampWait {
        slot: StampSlot(2),
        value: StampValue(9),
    }));
    b.require(Prerequisite::Event {
        event: res(5),
        value: 3,
    });
    b.declare_access(AccessIntent {
        domain: ChannelId(1),
        key: AccessKey::Whole(ResourceKey {
            backing: BackingId(1),
            heap: None,
        }),
        mode: AccessMode::Write,
        api_stages: 0,
        input_content_version: None,
        output_content_version: Some(ContentVersion(2)),
    });
    let tx = b.finish().expect("frozen");
    assert_eq!(tx.prerequisites.len(), 2);
    assert_eq!(tx.accesses.len(), 1);
    assert!(tx.writes_anything());
}

#[test]
fn a_transaction_with_no_accesses_writes_nothing() {
    let tx = builder().finish().expect("frozen");
    assert!(!tx.writes_anything());
    assert_eq!(tx.record_count(), 0);
    assert!(tx.accesses.is_empty());
}

#[test]
fn a_published_version_covers_exactly_the_region_its_access_named() {
    let region = AccessKey::Range(
        ResourceKey {
            backing: BackingId(9),
            heap: None,
        },
        ByteRange {
            offset: 64,
            length: 128,
        },
    );
    let mut b = builder();
    b.publish_stamp(CompletionStamp {
        slot: StampSlot(1),
        value: StampValue(5),
    });
    b.declare_access(AccessIntent {
        domain: ChannelId(1),
        key: region,
        mode: AccessMode::Write,
        api_stages: 0,
        input_content_version: None,
        output_content_version: Some(ContentVersion(2)),
    });
    let tx = b.finish().expect("frozen");
    assert!(tx.publication.stamp.is_some());
    assert_eq!(
        tx.published_versions(),
        vec![VersionPublication {
            backing: BackingId(9),
            region,
            to: ContentVersion(2),
        }]
    );
}

#[test]
fn an_access_that_names_no_memory_publishes_no_version() {
    let mut b = builder();
    for key in [
        AccessKey::Heap(HeapId {
            id: 1,
            membership_generation: 0,
        }),
        AccessKey::DomainOnly,
    ] {
        b.declare_access(AccessIntent {
            domain: ChannelId(1),
            key,
            mode: AccessMode::Write,
            api_stages: 0,
            input_content_version: None,
            output_content_version: Some(ContentVersion(2)),
        });
    }
    let tx = b.finish().expect("frozen");
    assert_eq!(tx.published_versions().len(), 0);
}

#[test]
fn every_class_answers_what_it_touches_and_only_the_pass_reads_the_arena() {
    let mut arenas = ExecArenas::default();
    let mut pass = PassDescriptor::empty();
    pass.visibility_result_buffer =
        Some(VisibilityResultBuffer { buffer: res(11) });
    arenas.pass_descriptors.push(pass);
    arenas.resources.push(res(1));

    let ask = |op: ResolvedOperation, arenas: &ExecArenas| -> Vec<Participation> {
        let mut out = Vec::new();
        op.participations(arenas, &mut out);
        out
    };

    let write_descriptor = ResolvedOperation::Render(RenderOp::WriteDescriptor {
        descriptor: PassDescriptorSlot(0),
    });
    let parts = ask(write_descriptor, &arenas);
    assert_eq!(parts.len(), 1, "the visibility buffer is the pass's write");
    assert_eq!(parts[0].resource, res(11));
    assert_eq!(parts[0].mode, AccessMode::Write);
    assert!(ask(write_descriptor, &ExecArenas::default()).is_empty());

    assert!(ask(a_barrier(), &arenas).is_empty());
    assert!(ask(
        ResolvedOperation::Fence(FenceOp {
            kind: FenceKind::Update,
            fence: res(2),
            stages: None,
        }),
        &arenas
    )
    .is_empty());
    assert!(ask(
        ResolvedOperation::Event(EventOp {
            kind: EventKind::Signal,
            event: res(3),
            value: 9,
        }),
        &arenas
    )
    .is_empty());
    assert!(ask(
        ResolvedOperation::EncoderBoundary(EncoderBoundary::End { records: 0 }),
        &arenas
    )
    .is_empty());

    let blit = ask(a_blit(), &arenas);
    assert_eq!(blit.len(), 1);
    assert_eq!(blit[0].resource, res(1));

    let target = ResourceStateTarget::Resource {
        resource: res(4),
        subresource: None,
    };
    let sync = ask(
        ResolvedOperation::ResourceState(ResourceStateOp {
            directive: ContentDirective::Synchronize,
            target,
        }),
        &arenas,
    );
    assert_eq!(sync.len(), 1);
    assert_eq!(sync[0].resource, res(4));
    assert_eq!(sync[0].mode, AccessMode::Read);
    for directive in [
        ContentDirective::OptimizeForCpu,
        ContentDirective::OptimizeForGpu,
        ContentDirective::InvalidateCompressed,
        ContentDirective::FlushCompressedReinterpretation,
    ] {
        assert!(
            ask(
                ResolvedOperation::ResourceState(ResourceStateOp { directive, target }),
                &arenas
            )
            .is_empty(),
            "{directive:?}"
        );
    }
}
