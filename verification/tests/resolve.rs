use reims_vgpu_core::blit::BlitOp;
use reims_vgpu_core::decode::{
    BarrierRecord, BlitRecord, DecodeRefusal, EventRecord, FenceRecord, RecordTarget,
    ResourceStateRecord, SyncRecord,
};
use reims_vgpu_core::exec::ExecArenas;
use reims_vgpu_core::identity::{ObjectListRef, ResourceId, SlotGeneration};
use reims_vgpu_core::resolve::{
    RefResolver, ResolveRefusal, SyncResolved, barrier, blit, resource_state, sync,
};
use reims_vgpu_core::resource_state::{ContentDirective, ResourceStateTarget};
use reims_vgpu_core::stream::Rail;
use reims_vgpu_core::sync::{
    BarrierScope, BarrierTarget, EventKind, FenceKind, RenderStages, ResourceSpan,
};

const BUFFERS: u32 = 1;


struct Live(Vec<u32>);

impl RefResolver for Live {
    fn names(&self, object_ref: u32) -> Option<ResourceId> {
        self.resource(object_ref)
    }

    fn resource(&self, object_ref: u32) -> Option<ResourceId> {
        self.0.contains(&object_ref).then_some(ResourceId {
            slot: ObjectListRef(object_ref),
            generation: SlotGeneration(7),
        })
    }
}

fn id(object_ref: u32) -> ResourceId {
    ResourceId {
        slot: ObjectListRef(object_ref),
        generation: SlotGeneration(7),
    }
}

#[test]
fn a_transfer_resolves_both_of_its_endpoints() {
    let live = Live(vec![5151, 5252]);
    let record = BlitRecord::BufferToBuffer {
        source_ref: 5151,
        source_offset: 0x10,
        dest_ref: 5252,
        dest_offset: 0x20,
        size: 0x30,
    };
    assert_eq!(
        blit(&record, &live),
        Ok(BlitOp::BufferToBuffer {
            source: id(5151),
            source_offset: 0x10,
            dest: id(5252),
            dest_offset: 0x20,
            size: 0x30,
        })
    );
}

#[test]
fn a_dead_ref_refuses_by_name_rather_than_resolving_to_nothing() {
    let live = Live(vec![5151]);
    let record = BlitRecord::BufferToBuffer {
        source_ref: 5151,
        source_offset: 0,
        dest_ref: 4242,
        dest_offset: 0,
        size: 1,
    };
    assert_eq!(
        blit(&record, &live),
        Err(ResolveRefusal::UnknownRef { object_ref: 4242 })
    );
}

#[test]
fn the_two_content_targets_stay_apart_through_resolution() {
    let live = Live(vec![7]);
    let whole = ResourceStateRecord {
        directive: ContentDirective::Synchronize,
        target: RecordTarget::WholeResource { object_ref: 7 },
    };
    let sliced = ResourceStateRecord {
        directive: ContentDirective::Synchronize,
        target: RecordTarget::SliceLevel {
            texture_ref: 7,
            slice: 0,
            level: 0,
        },
    };
    let whole = resource_state(&whole, &live).expect("resolved");
    let sliced = resource_state(&sliced, &live).expect("resolved");
    assert_eq!(
        whole.target,
        ResourceStateTarget::Resource {
            resource: id(7),
            subresource: None
        }
    );
    assert_ne!(whole.target, sliced.target);
}

#[test]
fn a_barrier_list_goes_to_the_arena_and_the_operation_names_a_window() {
    let live = Live(vec![1, 2, 3]);
    let mut arenas = ExecArenas::default();
    let refs = [1u32, 2, 3];
    let record = BarrierRecord::Resources {
        refs: &refs,
        after_stages: Some(RenderStages(1)),
        before_stages: Some(RenderStages(2)),
    };
    let op = barrier(&record, &live, &mut arenas).expect("resolved");
    let BarrierTarget::Resources(span) = op.target else {
        panic!("not a resource barrier");
    };
    assert_eq!(span, ResourceSpan { start: 0, len: 3 });
    assert_eq!(&arenas.resources[span.start as usize..(span.start + span.len) as usize], &[id(1), id(2), id(3)]);

    let second = barrier(&record, &live, &mut arenas).expect("resolved");
    let BarrierTarget::Resources(span) = second.target else {
        panic!("not a resource barrier");
    };
    assert_eq!(span, ResourceSpan { start: 3, len: 3 });
}

#[test]
fn a_refused_list_leaves_the_arena_as_it_found_it() {
    let live = Live(vec![1, 3]);
    let mut arenas = ExecArenas::default();
    let refs = [1u32, 2, 3];
    let record = BarrierRecord::Resources {
        refs: &refs,
        after_stages: None,
        before_stages: None,
    };
    assert_eq!(
        barrier(&record, &live, &mut arenas),
        Err(ResolveRefusal::UnknownRef { object_ref: 2 })
    );
    assert!(arenas.resources.is_empty());
}

#[test]
fn a_scope_barrier_touches_no_arena() {
    let live = Live(Vec::new());
    let mut arenas = ExecArenas::default();
    let record = BarrierRecord::Scope {
        scope: BarrierScope(BUFFERS),
        after_stages: None,
        before_stages: None,
        unidentified_u8: None,
    };
    let op = barrier(&record, &live, &mut arenas).expect("resolved");
    assert_eq!(
        op.target,
        BarrierTarget::Scope(BarrierScope(BUFFERS))
    );
    assert!(arenas.resources.is_empty());
}

#[test]
fn the_three_ordering_records_stay_three_classes() {
    let live = Live(vec![9]);
    let mut arenas = ExecArenas::default();
    let fence_record = SyncRecord::Fence(FenceRecord {
        kind: FenceKind::Update,
        fence_ref: 9,
        stages: None,
    });
    let event_record = SyncRecord::Event(EventRecord {
        kind: EventKind::Signal,
        event_ref: 9,
        value: 5,
    });
    let barrier_record = SyncRecord::Barrier(BarrierRecord::Texture);
    assert!(matches!(
        sync(&fence_record, &live, &mut arenas),
        Ok(SyncResolved::Fence(_))
    ));
    assert!(matches!(
        sync(&event_record, &live, &mut arenas),
        Ok(SyncResolved::Event(_))
    ));
    assert!(matches!(
        sync(&barrier_record, &live, &mut arenas),
        Ok(SyncResolved::Barrier(_))
    ));
    let _ = Rail::Render;
}

#[test]
fn refusal_reasons_are_distinct_and_a_decode_refusal_keeps_its_own() {
    let decode = DecodeRefusal::UnknownOpcode {
        rail: Rail::Blit,
        opcode: 1,
    };
    assert_eq!(
        ResolveRefusal::from(decode).reason(),
        decode.reason(),
        "a decode refusal must not be renamed on its way through"
    );
    let mine = [
        ResolveRefusal::UnknownRef { object_ref: 1 },
        ResolveRefusal::ArenaOverflow { wanted: 2 },
    ];
    let mut seen: Vec<&str> = mine.iter().map(|r| r.reason()).collect();
    seen.push(ResolveRefusal::from(decode).reason());
    seen.sort_unstable();
    let before = seen.len();
    seen.dedup();
    assert_eq!(seen.len(), before);
}
