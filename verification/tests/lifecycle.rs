use reims_vgpu_core::access::{BackingId, ByteRange};
use reims_vgpu_core::content::Replica;
use reims_vgpu_core::identity::{ObjectListRef, ResourceId, SlotGeneration, TaskId};
use reims_vgpu_core::lifecycle::{
    Declined, Effects, Lifecycle, LifecycleKind, LifecycleOp, Refusal, ResolveRefusal, Storage,
    resource_list,
};
use reims_vgpu_core::namespace::Teardown;
use reims_vgpu_core::transaction::Channel;

const TASK: TaskId = TaskId(1);

fn range(offset: u64, length: u64) -> ByteRange {
    ByteRange { offset, length }
}

fn dedicated(backing: u64, length: u64) -> Storage {
    Storage::Dedicated {
        backing: BackingId(backing),
        extent: range(0, length),
    }
}

fn with_one_resource(length: u64) -> (Lifecycle, ResourceId) {
    let mut l = Lifecycle::new();
    apply_inert(&mut l, &LifecycleOp::DefineTask { task: TASK });
    apply_inert(
        &mut l,
        &LifecycleOp::CreateResource {
            task: TASK,
            slot: ObjectListRef(0),
            storage: dedicated(10, length),
        },
    );
    (l, name(0))
}

fn apply_inert(l: &mut Lifecycle, op: &LifecycleOp) {
    assert_eq!(l.apply(op).expect("resolves"), Effects::default());
}

fn name(slot: u32) -> ResourceId {
    ResourceId {
        slot: ObjectListRef(slot),
        generation: SlotGeneration(0).next(),
    }
}

#[test]
fn every_lifecycle_packet_has_exactly_one_operation() {
    let mut seen: Vec<LifecycleKind> = Vec::new();
    for channel in [Channel::Root, Channel::Child] {
        let mut here: Vec<LifecycleKind> = Vec::new();
        for opcode in 0..=0xffffu16 {
            if let Some(k) = LifecycleKind::of(channel, opcode) {
                assert!(!here.contains(&k), "{} is two packets' kind", k.name());
                here.push(k);
            }
        }
        seen.extend(here);
    }
    seen.sort_unstable();
    seen.dedup();
    assert_eq!(seen.len(), 12, "every kind is some packet's");
}

#[test]
fn a_packet_that_is_not_lifecycle_has_no_kind() {
    assert_eq!(LifecycleKind::of(Channel::Child, 0x37), None, "the EXEC");
    assert_eq!(LifecycleKind::of(Channel::Child, 0x06), None, "a present");
    assert_eq!(LifecycleKind::of(Channel::Root, 0x00), None, "unjudged");
}

#[test]
fn an_invalidate_makes_the_guests_pages_the_current_content() {
    let (mut l, id) = with_one_resource(256);
    let sync = l
        .apply(&LifecycleOp::Synchronize {
            task: TASK,
            resources: vec![id],
        })
        .expect("resolves");
    assert!(sync.transfers.is_empty(), "the guest already holds them");
    let backing = BackingId(10);
    l.record_write(TASK, id, 0, 256, Replica::DeviceOwned)
        .expect("inside the resource");
    assert!(l
        .content()
        .is_fresh(backing, range(0, 256), Replica::DeviceOwned));
    let version_before = l.content().version_of(backing, range(0, 256));
    apply_inert(
        &mut l,
        &LifecycleOp::Invalidate {
            task: TASK,
            resources: vec![id],
        },
    );
    assert!(
        l.content().version_of(backing, range(0, 256)) != version_before,
        "the content changed under us, so the version moved"
    );
    assert!(l
        .content()
        .is_fresh(backing, range(0, 256), Replica::GuestPages));
    assert!(!l
        .content()
        .is_fresh(backing, range(0, 1), Replica::DeviceOwned));
}

#[test]
fn a_synchronise_owes_the_missing_bytes_and_does_not_repeat() {
    let (mut l, id) = with_one_resource(256);
    let backing = BackingId(10);
    l.record_write(TASK, id, 128, 128, Replica::DeviceOwned)
        .expect("inside the resource");
    let _ = backing;
    let effects = l
        .apply(&LifecycleOp::Synchronize {
            task: TASK,
            resources: vec![id],
        })
        .expect("resolves");
    assert_eq!(effects.transfers.len(), 1);
    assert_eq!(effects.transfers[0].bytes.ranges(), &[range(128, 128)]);
    assert_eq!(effects.transfers[0].to, Replica::GuestPages);
    assert!(
        l.complete(&effects).is_empty(),
        "a synchronise declines nothing"
    );
    let again = l
        .apply(&LifecycleOp::Synchronize {
            task: TASK,
            resources: vec![id],
        })
        .expect("resolves");
    assert!(
        again.transfers.is_empty(),
        "no write in between, so nothing moved and nothing is owed"
    );
}

#[test]
fn a_discard_of_content_nothing_else_holds_is_declined_and_named() {
    let (mut l, id) = with_one_resource(256);
    let backing = BackingId(10);
    l.record_write(TASK, id, 0, 256, Replica::DeviceOwned)
        .expect("inside the resource");
    let effects = l
        .apply(&LifecycleOp::Discard {
            task: TASK,
            resources: vec![id],
        })
        .expect("resolves");
    assert!(
        l.content()
            .is_fresh(backing, range(0, 256), Replica::DeviceOwned),
        "admission does not move content authority"
    );
    assert_eq!(
        l.complete(&effects),
        vec![Declined {
            resource: id,
            backing,
            sole_authority_bytes: 256,
        }]
    );
    assert!(
        l.content()
            .is_fresh(backing, range(0, 256), Replica::DeviceOwned),
        "and the declined hint left the copy alone"
    );
}

#[test]
fn a_synchronise_and_discard_is_never_the_declined_kind() {
    let (mut l, id) = with_one_resource(256);
    let backing = BackingId(10);
    l.record_write(TASK, id, 0, 256, Replica::DeviceOwned)
        .expect("inside the resource");
    let effects = l
        .apply(&LifecycleOp::SynchronizeAndDiscard {
            task: TASK,
            resources: vec![id],
        })
        .expect("resolves");
    assert_eq!(
        effects.transfers.len(),
        1,
        "the guest is behind on all of it"
    );
    assert_eq!(
        l.complete(&effects),
        vec![],
        "the transfer this transaction owed is what made the hint lawful"
    );
    assert!(
        !l.content()
            .is_fresh(backing, range(0, 1), Replica::DeviceOwned),
        "so the copy was released"
    );
    assert!(
        l.content()
            .is_fresh(backing, range(0, 256), Replica::GuestPages),
        "and the content survived in the guest's pages"
    );
}

#[test]
fn a_deferred_discard_is_evaluated_against_the_state_its_transfers_left() {
    let (mut l, id) = with_one_resource(256);
    l.record_write(TASK, id, 0, 256, Replica::DeviceOwned)
        .expect("inside the resource");
    let effects = l
        .apply(&LifecycleOp::SynchronizeAndDiscard {
            task: TASK,
            resources: vec![id],
        })
        .expect("resolves");
    let without_transfers = Effects {
        transfers: Vec::new(),
        ..effects
    };
    assert_eq!(
        l.complete(&without_transfers).len(),
        1,
        "the answer is asked at completion and not cached from admission"
    );
}

#[test]
fn a_list_with_one_stale_name_changes_nothing() {
    let (mut l, id) = with_one_resource(256);
    let backing = BackingId(10);
    let version = l.content().version_of(backing, range(0, 256));
    let stale = ResourceId {
        slot: ObjectListRef(9),
        generation: SlotGeneration(0).next(),
    };
    let refusal = l
        .apply(&LifecycleOp::Invalidate {
            task: TASK,
            resources: vec![id, stale],
        })
        .expect_err("the second name never resolved");
    assert_eq!(
        refusal,
        Refusal::Namespace {
            task: TASK,
            refusal: reims_vgpu_core::namespace::Refusal::NotDeclared {
                slot: ObjectListRef(9)
            },
        }
    );
    assert_eq!(
        l.content().version_of(backing, range(0, 256)),
        version,
        "the first resource was not invalidated on the way to the refusal"
    );
}

#[test]
fn a_placed_resource_refuses_a_physical_replacement() {
    let mut l = Lifecycle::new();
    apply_inert(&mut l, &LifecycleOp::DefineTask { task: TASK });
    l.declare_heap(TASK, 3, BackingId(50), 4096).expect("heap");
    apply_inert(
        &mut l,
        &LifecycleOp::CreateResource {
            task: TASK,
            slot: ObjectListRef(0),
            storage: Storage::Placed {
                heap: 3,
                offset: 0,
                length: 256,
            },
        },
    );
    assert_eq!(
        l.apply(&LifecycleOp::ReplacePhysical {
            task: TASK,
            resource: name(0),
            backing: BackingId(60),
            extent: range(0, 256),
        }),
        Err(Refusal::PlacedResourceHasNoPhysical { resource: name(0) })
    );
}

#[test]
fn placing_a_second_resource_leaves_the_first_ones_content_alone() {
    let mut l = Lifecycle::new();
    apply_inert(&mut l, &LifecycleOp::DefineTask { task: TASK });
    l.declare_heap(TASK, 3, BackingId(50), 4096).expect("heap");
    let place = |l: &mut Lifecycle, slot: u32, offset: u64| {
        apply_inert(
            l,
            &LifecycleOp::CreateResource {
                task: TASK,
                slot: ObjectListRef(slot),
                storage: Storage::Placed {
                    heap: 3,
                    offset,
                    length: 256,
                },
            },
        );
    };
    place(&mut l, 0, 0);
    l.record_write(TASK, name(0), 0, 256, Replica::DeviceOwned)
        .expect("inside the resource");
    place(&mut l, 1, 256);
    assert!(
        l.content()
            .is_fresh(BackingId(50), range(0, 256), Replica::DeviceOwned),
        "the neighbour's copy survived"
    );
    assert!(
        l.content()
            .is_fresh(BackingId(50), range(256, 256), Replica::GuestPages),
        "and the new window is the guest's"
    );
}

#[test]
fn deleting_a_task_retires_its_objects_and_frees_its_heap_storage() {
    let mut l = Lifecycle::new();
    apply_inert(&mut l, &LifecycleOp::DefineTask { task: TASK });
    l.declare_heap(TASK, 3, BackingId(50), 4096).expect("heap");
    apply_inert(
        &mut l,
        &LifecycleOp::CreateResource {
            task: TASK,
            slot: ObjectListRef(0),
            storage: Storage::Placed {
                heap: 3,
                offset: 0,
                length: 256,
            },
        },
    );
    apply_inert(
        &mut l,
        &LifecycleOp::CreateResource {
            task: TASK,
            slot: ObjectListRef(1),
            storage: dedicated(10, 128),
        },
    );
    let effects = l
        .apply(&LifecycleOp::DeleteTask { task: TASK })
        .expect("live task");
    assert_eq!(effects.teardowns.len(), 2, "both objects were retired");
    assert_eq!(
        effects.storage_freed,
        vec![BackingId(50)],
        "the heap's last allocation went with the task"
    );
    assert_eq!(
        l.apply(&LifecycleOp::DeleteTask { task: TASK }),
        Err(Refusal::NoSuchTask { task: TASK })
    );
}

#[test]
fn a_live_task_cannot_be_redefined() {
    let (mut l, _) = with_one_resource(256);
    assert_eq!(
        l.apply(&LifecycleOp::DefineTask { task: TASK }),
        Err(Refusal::TaskExists { task: TASK }),
        "silently replacing would orphan every object it owns"
    );
}

#[test]
fn deleting_a_backing_retires_the_resources_that_named_it() {
    let mut l = Lifecycle::new();
    apply_inert(&mut l, &LifecycleOp::DefineTask { task: TASK });
    for slot in 0..2 {
        apply_inert(
            &mut l,
            &LifecycleOp::CreateResource {
                task: TASK,
                slot: ObjectListRef(slot),
                storage: dedicated(10, 128),
            },
        );
    }
    apply_inert(
        &mut l,
        &LifecycleOp::CreateResource {
            task: TASK,
            slot: ObjectListRef(2),
            storage: dedicated(11, 128),
        },
    );
    let effects = l
        .apply(&LifecycleOp::DeleteBacking {
            task: TASK,
            backing: BackingId(10),
        })
        .expect("live task");
    assert_eq!(effects.teardowns.len(), 2, "and only those two");
    assert_eq!(
        l.resolve(TASK, name(2)),
        Ok(range(0, 128)),
        "the resource on the other backing is untouched"
    );
    assert!(matches!(
        l.resolve(TASK, name(0)),
        Err(Refusal::Namespace { .. })
    ));
}

#[test]
fn mapping_is_declared_once_and_taken_away_once() {
    let (mut l, id) = with_one_resource(256);
    let map = LifecycleOp::MapMemory {
        task: TASK,
        resource: id,
    };
    let unmap = LifecycleOp::UnmapMemory {
        task: TASK,
        resource: id,
    };
    apply_inert(&mut l, &map);
    assert!(matches!(l.apply(&map), Err(Refusal::Namespace { .. })));
    apply_inert(&mut l, &unmap);
    assert!(matches!(l.apply(&unmap), Err(Refusal::Namespace { .. })));
}

#[test]
fn a_physical_replacement_moves_the_content_authority_with_the_pages() {
    let (mut l, id) = with_one_resource(256);
    l.record_write(TASK, id, 0, 256, Replica::DeviceOwned)
        .expect("inside the resource");
    let effects = l
        .apply(&LifecycleOp::ReplacePhysical {
            task: TASK,
            resource: id,
            backing: BackingId(20),
            extent: range(0, 256),
        })
        .expect("resolves");
    assert_eq!(
        effects.teardowns,
        vec![Teardown::Now {
            backing: BackingId(10)
        }]
    );
    assert!(
        l.content()
            .is_fresh(BackingId(20), range(0, 256), Replica::GuestPages),
        "the new pages are the guest's"
    );
    assert_eq!(
        l.resolve(TASK, id),
        Ok(range(0, 256)),
        "and the name resolves to them"
    );
}

#[test]
fn lifecycle_every_refusal_has_its_own_slug() {
    let all = [
        Refusal::NoSuchTask { task: TASK },
        Refusal::TaskExists { task: TASK },
        Refusal::Namespace {
            task: TASK,
            refusal: reims_vgpu_core::namespace::Refusal::NotDeclared {
                slot: ObjectListRef(0),
            },
        },
        Refusal::Heap {
            task: TASK,
            refusal: reims_vgpu_core::heap::Refusal::NoSuchHeap { heap: 0 },
        },
        Refusal::PlacedResourceHasNoPhysical { resource: name(0) },
    ];
    let mut slugs: Vec<&str> = all.iter().map(|r| r.slug()).collect();
    slugs.sort_unstable();
    let count = slugs.len();
    slugs.dedup();
    assert_eq!(slugs.len(), count);
}
#[test]
fn a_recorded_write_cannot_leave_its_resource() {
    let mut l = Lifecycle::new();
    apply_inert(&mut l, &LifecycleOp::DefineTask { task: TASK });
    l.declare_heap(TASK, 3, BackingId(50), 4096).expect("heap");
    for (slot, offset) in [(0u32, 0u64), (1, 256)] {
        apply_inert(
            &mut l,
            &LifecycleOp::CreateResource {
                task: TASK,
                slot: ObjectListRef(slot),
                storage: Storage::Placed {
                    heap: 3,
                    offset,
                    length: 256,
                },
            },
        );
    }
    assert_eq!(
        l.record_write(TASK, name(0), 128, 256, Replica::DeviceOwned),
        Err(Refusal::Heap {
            task: TASK,
            refusal: reims_vgpu_core::heap::Refusal::OutOfPlacement {
                offset: 128,
                length: 256,
                placement_length: 256,
            },
        }),
        "a write that ran into the neighbour is refused, not clamped"
    );
    assert!(
        l.content()
            .is_fresh(BackingId(50), range(256, 256), Replica::GuestPages),
        "and the neighbour still holds its own content"
    );
    l.record_write(TASK, name(0), 128, 128, Replica::DeviceOwned)
        .expect("inside the resource");
    assert!(l
        .content()
        .is_fresh(BackingId(50), range(128, 128), Replica::DeviceOwned));
    assert!(
        l.content()
            .is_fresh(BackingId(50), range(256, 256), Replica::GuestPages),
        "and stopped at its own end"
    );
}


struct Everything;

impl reims_vgpu_core::resolve::RefResolver for Everything {
    fn names(&self, object_ref: u32) -> Option<ResourceId> {
        self.resource(object_ref)
    }

    fn resource(&self, object_ref: u32) -> Option<ResourceId> {
        Some(ResourceId {
            slot: ObjectListRef(object_ref),
            generation: SlotGeneration(1),
        })
    }
}

struct Nothing;

impl reims_vgpu_core::resolve::RefResolver for Nothing {
    fn names(&self, object_ref: u32) -> Option<ResourceId> {
        self.resource(object_ref)
    }

    fn resource(&self, _object_ref: u32) -> Option<ResourceId> {
        None
    }
}

fn alloc_short() -> Vec<u8> {
    vec![0u8; 3]
}

fn list_bytes(task: u32, refs: &[u32], record_len: u32) -> Vec<u8> {
    let mut out = Vec::new();
    out.extend_from_slice(&task.to_le_bytes());
    out.extend_from_slice(&u32::try_from(refs.len()).expect("small").to_le_bytes());
    for r in refs {
        out.extend_from_slice(&r.to_le_bytes());
        out.resize(out.len() + record_len as usize - 4, 0);
    }
    out
}

#[test]
fn exactly_the_four_list_commands_have_a_record_length() {
    let with: Vec<LifecycleKind> = (0..=0xffffu16)
        .filter_map(|opcode| LifecycleKind::of(Channel::Child, opcode))
        .filter(|k| k.resource_list_record_len().is_some())
        .collect();
    assert_eq!(
        with,
        vec![
            LifecycleKind::Invalidate,
            LifecycleKind::Synchronize,
            LifecycleKind::SynchronizeAndDiscard,
            LifecycleKind::Discard,
        ]
    );
    assert_eq!(
        LifecycleKind::Invalidate.resource_list_record_len(),
        Some(8)
    );
    for kind in [
        LifecycleKind::Synchronize,
        LifecycleKind::SynchronizeAndDiscard,
        LifecycleKind::Discard,
    ] {
        assert_eq!(kind.resource_list_record_len(), Some(4), "{}", kind.name());
    }
}

#[test]
fn a_resource_list_payload_becomes_the_operation_its_command_names() {
    for kind in [
        LifecycleKind::Invalidate,
        LifecycleKind::Synchronize,
        LifecycleKind::SynchronizeAndDiscard,
        LifecycleKind::Discard,
    ] {
        let stride = kind.resource_list_record_len().expect("a list command");
        let bytes = list_bytes(7, &[11, 12, 13], stride);
        let op = resource_list(kind, &bytes, &Everything).expect("well formed");
        assert_eq!(op.kind(), kind, "the op is the command's own");
        assert_eq!(op.task(), TaskId(7));
        let resources = match &op {
            LifecycleOp::Invalidate { resources, .. }
            | LifecycleOp::Synchronize { resources, .. }
            | LifecycleOp::SynchronizeAndDiscard { resources, .. }
            | LifecycleOp::Discard { resources, .. } => resources.clone(),
            other => panic!("{:?} is not a list operation", other),
        };
        assert_eq!(
            resources.iter().map(|r| r.slot.0).collect::<Vec<_>>(),
            vec![11, 12, 13],
            "{}",
            kind.name()
        );
    }
}

#[test]
fn a_list_read_at_the_other_commands_stride_does_not_agree() {
    let bytes = list_bytes(7, &[11, 12, 13], 8);
    let wide =
        resource_list(LifecycleKind::Invalidate, &bytes, &Everything).expect("its own stride");
    let narrow =
        resource_list(LifecycleKind::Synchronize, &bytes, &Everything).expect("long enough");
    assert_ne!(
        format!("{wide:?}").replace("Invalidate", "X"),
        format!("{narrow:?}").replace("Synchronize", "X"),
        "the two strides must not read the same refs out of one payload"
    );
}

#[test]
fn one_unknown_ref_refuses_the_whole_list() {
    let bytes = list_bytes(7, &[11, 12], 4);
    assert_eq!(
        resource_list(LifecycleKind::Synchronize, &bytes, &Nothing),
        Err(ResolveRefusal::UnknownRef { object_ref: 11 })
    );
    assert_eq!(
        resource_list(LifecycleKind::Synchronize, &bytes, &Nothing)
            .expect_err("refused")
            .slug(),
        "lifecycle_unknown_ref"
    );
}

#[test]
fn a_payload_that_cannot_be_read_forwards_the_decoders_reason() {
    let short = resource_list(LifecycleKind::Synchronize, &[0u8; 3], &Everything)
        .expect_err("no header");
    assert_eq!(
        short,
        ResolveRefusal::Payload(reims_vgpu_core::fifo::ResourceListDecodeError::ShortHeader { plen: 3 })
    );
    assert_eq!(short.slug(), "resource_list_short_header");

    let mut bytes = list_bytes(7, &[11], 4);
    bytes[4..8].copy_from_slice(&9u32.to_le_bytes());
    let truncated = resource_list(LifecycleKind::Synchronize, &bytes, &Everything)
        .expect_err("nine records in one record's worth of bytes");
    assert_eq!(truncated.slug(), "resource_list_truncated");
}

#[test]
fn a_command_with_no_list_refuses_rather_than_reading_an_empty_one() {
    for kind in [
        LifecycleKind::DefineTask,
        LifecycleKind::DeleteTask,
        LifecycleKind::SetObjectList,
        LifecycleKind::DeleteResource,
        LifecycleKind::MapMemory,
        LifecycleKind::UnmapMemory,
        LifecycleKind::ReplacePhysical,
        LifecycleKind::DeleteBacking,
    ] {
        for bytes in [list_bytes(7, &[], 4), alloc_short()] {
            assert_eq!(
                resource_list(kind, &bytes, &Everything),
                Err(ResolveRefusal::NotAResourceList { kind }),
                "{} at {} bytes",
                kind.name(),
                bytes.len()
            );
        }
    }
    let empty = resource_list(LifecycleKind::Discard, &list_bytes(7, &[], 4), &Everything)
        .expect("an empty discard is well formed");
    assert_eq!(
        empty,
        LifecycleOp::Discard {
            task: TaskId(7),
            resources: Vec::new(),
        }
    );
}

#[test]
fn storage_under_two_heaps_of_a_deleted_task_is_freed_once() {
    let mut l = Lifecycle::new();
    apply_inert(&mut l, &LifecycleOp::DefineTask { task: TASK });
    l.declare_heap(TASK, 3, BackingId(50), 4096).expect("heap");
    l.declare_heap(TASK, 4, BackingId(50), 4096).expect("heap");
    l.declare_heap(TASK, 5, BackingId(51), 4096).expect("heap");
    let effects = l
        .apply(&LifecycleOp::DeleteTask { task: TASK })
        .expect("live task");
    assert_eq!(effects.storage_freed, vec![BackingId(50), BackingId(51)]);
}
