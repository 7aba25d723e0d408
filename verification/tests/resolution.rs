use reims_vgpu_core::access::{
    AccessKey, AccessMode, AccessSource, BackingId, ByteRange, Participation,
    ParticipationExtent, ResourceKey,
};
use reims_vgpu_core::control::{self, ChannelTransition, ControlOp, ResolveRefusal as ControlResolveRefusal};
use reims_vgpu_core::decode::{
    DecodeRefusal, EventRecord, FenceRecord, IcbRecord, RecordArguments, RecordCommands,
    ResidencyRecord,
};
use reims_vgpu_core::exec::{ExecArenas, ExecBuilder};
use reims_vgpu_core::icb::{CommandRange, IcbOp};
use reims_vgpu_core::identity::{
    ChannelId, ChannelSequence, IngressOrdinal, ObjectListRef, ResourceId, SessionGeneration,
    SlotGeneration, TaskId,
};
use reims_vgpu_core::lifecycle::{Lifecycle, LifecycleOp, Refusal as LifecycleRefusal, Storage};
use reims_vgpu_core::query::{
    PendingQuery, QueryKind, QueryRequest, ReplyDestination,
};
use reims_vgpu_core::resolve::{event, fence, icb, residency, RefResolver, ResolveRefusal};
use reims_vgpu_core::session::SessionModel;
use reims_vgpu_core::stream::{Rail, SegmentKind, SegmentRole, StreamCursor};
use reims_vgpu_core::sync::{EventKind, EventOp, FenceKind, FenceOp};
use reims_vgpu_core::transaction::{reaches_an_executor, Channel, PayloadClass};

struct Live(Vec<u32>);

impl RefResolver for Live {
    fn names(&self, object_ref: u32) -> Option<ResourceId> {
        self.resource(object_ref)
    }

    fn resource(&self, object_ref: u32) -> Option<ResourceId> {
        self.0.contains(&object_ref).then_some(id(object_ref))
    }
}

fn id(object_ref: u32) -> ResourceId {
    ResourceId {
        slot: ObjectListRef(object_ref),
        generation: SlotGeneration(1),
    }
}

#[test]
fn an_indirect_run_resolves_its_commands_and_its_arguments() {
    let live = Live(vec![1, 2]);
    let commands = RecordCommands {
        location: 4,
        length: 8,
    };
    assert_eq!(
        icb(
            &IcbRecord::ExecuteRange {
                icb_ref: 1,
                commands
            },
            &live
        ),
        Ok(IcbOp::ExecuteRange {
            icb: id(1),
            commands: CommandRange {
                location: 4,
                length: 8
            },
        })
    );
    let missing = IcbRecord::ExecuteIndirect {
        icb_ref: 1,
        arguments: RecordArguments {
            buffer_ref: 3,
            offset: 16,
        },
    };
    assert_eq!(
        icb(&missing, &live),
        Err(ResolveRefusal::UnknownRef { object_ref: 3 })
    );
}

#[test]
fn a_fence_and_an_event_resolve_the_one_ref_they_carry() {
    let live = Live(vec![5]);
    assert_eq!(
        fence(
            &FenceRecord {
                kind: FenceKind::Update,
                fence_ref: 5,
                stages: None
            },
            &live
        ),
        Ok(FenceOp {
            kind: FenceKind::Update,
            fence: id(5),
            stages: None
        })
    );
    assert_eq!(
        event(
            &EventRecord {
                kind: EventKind::Signal,
                event_ref: 5,
                value: 9
            },
            &live
        ),
        Ok(EventOp {
            kind: EventKind::Signal,
            event: id(5),
            value: 9
        })
    );
    assert_eq!(
        event(
            &EventRecord {
                kind: EventKind::Wait,
                event_ref: 6,
                value: 9
            },
            &live
        ),
        Err(ResolveRefusal::UnknownRef { object_ref: 6 })
    );
}

#[test]
fn a_residency_list_is_filed_behind_what_is_already_there() {
    let live = Live(vec![1, 2, 3]);
    let mut arenas = ExecArenas::default();
    let first = residency(&ResidencyRecord { refs: &[3, 1] }, &live, &mut arenas).expect("live");
    assert_eq!((first.start, first.len), (0, 2));
    let second = residency(&ResidencyRecord { refs: &[2] }, &live, &mut arenas).expect("live");
    assert_eq!((second.start, second.len), (2, 1));
    assert_eq!(arenas.resources, vec![id(3), id(1), id(2)]);
    assert_eq!(
        residency(&ResidencyRecord { refs: &[2, 9] }, &live, &mut arenas),
        Err(ResolveRefusal::UnknownRef { object_ref: 9 })
    );
    assert_eq!(arenas.resources.len(), 3, "a refused list files nothing");
}

#[test]
fn a_decode_refusal_is_carried_whole() {
    let inner = DecodeRefusal::UnknownOpcode {
        rail: Rail::Blit,
        opcode: 7,
    };
    assert_eq!(ResolveRefusal::from(inner), ResolveRefusal::Decode(inner));
}

#[test]
fn only_the_root_channel_opens_and_frees_domains() {
    let bytes = 0x0403_0201u32.to_le_bytes();
    assert_eq!(
        control::resolve(Channel::Root, 0x30, &bytes),
        Ok(ControlOp::Channel {
            transition: ChannelTransition::Open,
            domain: ChannelId(0x0403_0201),
        })
    );
    assert_eq!(
        control::resolve(Channel::Root, 0x31, &bytes),
        Ok(ControlOp::Channel {
            transition: ChannelTransition::Free,
            domain: ChannelId(0x0403_0201),
        })
    );
    assert_eq!(
        control::resolve(Channel::Child, 0x30, &bytes),
        Err(ControlResolveRefusal::NotAChannelCommand {
            channel: Channel::Child,
            opcode: 0x30
        })
    );
    assert_eq!(
        control::resolve(Channel::Root, 0x31, &bytes[..3]),
        Err(ControlResolveRefusal::Short { have: 3 })
    );
}

#[test]
fn only_gpu_work_reaches_an_executor() {
    for class in [
        PayloadClass::Exec,
        PayloadClass::ResourceLifecycle,
        PayloadClass::Query,
        PayloadClass::Present,
        PayloadClass::Control,
    ] {
        assert_eq!(reaches_an_executor(class), class == PayloadClass::Exec);
        assert_eq!(SessionModel::executes(class), class == PayloadClass::Exec);
    }
}

#[test]
fn a_pending_query_has_the_capacity_of_its_window() {
    let pending = PendingQuery::new(
        QueryRequest {
            kind: QueryKind::DeviceInfo,
            destination: ReplyDestination {
                backing: BackingId(1),
                bytes: ByteRange {
                    offset: 8,
                    length: 40,
                },
            },
        },
        None,
    );
    assert_eq!(pending.capacity(), 40);
}

#[test]
fn a_cursor_says_which_encoder_is_open() {
    let mut cursor = StreamCursor::new();
    assert_eq!(cursor.open_encoder(), None);
    cursor
        .begin(2, Some(SegmentRole::Encoder(SegmentKind::Blit)), false)
        .expect("opens");
    assert_eq!(cursor.open_encoder(), Some(SegmentKind::Blit));
    cursor.end().expect("closes");
    assert_eq!(cursor.open_encoder(), None);
}

#[test]
fn what_a_builder_files_the_transaction_carries() {
    let mut b = ExecBuilder::new(
        SessionGeneration(1),
        ChannelId(1),
        ChannelSequence(1),
        IngressOrdinal(1),
    );
    b.arenas_mut().resources.push(id(4));
    let tx = b.finish().expect("frozen");
    assert_eq!(tx.arenas.resources, vec![id(4)]);
}

fn task_with(storage: Storage) -> (Lifecycle, ResourceId) {
    let mut l = Lifecycle::new();
    let task = TaskId(1);
    let _ = l.apply(&LifecycleOp::DefineTask { task }).expect("fresh");
    l.declare_heap(task, 3, BackingId(50), 4096).expect("fresh");
    let _ = l
        .apply(&LifecycleOp::CreateResource {
            task,
            slot: ObjectListRef(0),
            storage,
        })
        .expect("vacant");
    let named = ResourceId {
        slot: ObjectListRef(0),
        generation: SlotGeneration(1),
    };
    (l, named)
}

fn part(resource: ResourceId, offset: u64, length: u64, mode: AccessMode) -> Participation {
    Participation {
        resource,
        extent: ParticipationExtent::Range(ByteRange { offset, length }),
        mode,
        api_stages: 5,
    }
}

#[test]
fn a_placed_access_is_moved_to_its_window_and_names_its_heap() {
    let (mut l, named) = task_with(Storage::Placed {
        heap: 3,
        offset: 256,
        length: 128,
    });
    let intent = l
        .access(TaskId(1), ChannelId(9), &part(named, 16, 32, AccessMode::Write))
        .expect("inside the window");
    assert_eq!(intent.domain, ChannelId(9));
    assert_eq!(intent.api_stages, 5);
    match intent.key {
        AccessKey::Range(key, bytes) => {
            assert_eq!(key.backing, BackingId(50));
            assert_eq!(key.heap.expect("placed").id, 3);
            assert_eq!(
                bytes,
                ByteRange {
                    offset: 272,
                    length: 32
                }
            );
        }
        other => panic!("{:?} is not a range", other),
    }
    let again = l
        .access(TaskId(1), ChannelId(9), &part(named, 16, 32, AccessMode::Write))
        .expect("inside the window");
    assert_ne!(
        intent.output_content_version, again.output_content_version,
        "every write reserves a version of its own"
    );
    assert!(matches!(
        l.access(TaskId(1), ChannelId(9), &part(named, 100, 64, AccessMode::Read)),
        Err(LifecycleRefusal::Heap { .. })
    ));
    assert_eq!(
        l.access(TaskId(2), ChannelId(9), &part(named, 0, 1, AccessMode::Read)),
        Err(LifecycleRefusal::NoSuchTask { task: TaskId(2) })
    );
}

#[test]
fn a_read_consumes_a_version_and_produces_none() {
    let (mut l, named) = task_with(Storage::Dedicated {
        backing: BackingId(10),
        extent: ByteRange {
            offset: 0,
            length: 256,
        },
    });
    let intent = l
        .access(TaskId(1), ChannelId(2), &part(named, 0, 16, AccessMode::Read))
        .expect("inside the resource");
    assert_eq!(intent.output_content_version, None);
    assert_eq!(
        intent.input_content_version,
        l.content().version_of(
            BackingId(10),
            ByteRange {
                offset: 0,
                length: 16
            }
        )
    );
    assert_eq!(
        intent.key,
        AccessKey::Range(
            ResourceKey {
                backing: BackingId(10),
                heap: None
            },
            ByteRange {
                offset: 0,
                length: 16
            }
        )
    );
}

#[test]
fn a_tasks_access_source_reports_the_owners_reason() {
    let (mut l, named) = task_with(Storage::Dedicated {
        backing: BackingId(10),
        extent: ByteRange {
            offset: 0,
            length: 256,
        },
    });
    let stale = ResourceId {
        slot: ObjectListRef(8),
        ..named
    };
    let mut source = l.task_access(TaskId(1), ChannelId(2));
    assert!(source.access(&part(named, 0, 16, AccessMode::Read)).is_ok());
    let refused = source
        .access(&part(stale, 0, 16, AccessMode::Read))
        .expect_err("nothing lives in that slot");
    assert_eq!(refused.resource, stale);
    assert_eq!(
        refused.reason,
        LifecycleRefusal::Namespace {
            task: TaskId(1),
            refusal: reims_vgpu_core::namespace::Refusal::NotDeclared {
                slot: ObjectListRef(8)
            },
        }
        .slug()
    );
}
