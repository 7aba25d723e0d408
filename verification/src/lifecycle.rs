//! The resource-lifecycle transaction: what each command in the class does to
//! the owners of names, storage and content.
//!
//! An invalidate says the guest's pages are the current content, which is a
//! write in the guest's replica. A synchronise owes copies before its packet
//! completes. A discard is an offer: one whose bytes exist in no other replica
//! is declined and named, because taking it would destroy content.
//!
//! Both discard forms are evaluated at completion, because submission is not
//! completion. The commands that name a list resolve every name before any of
//! them takes effect, and a refused operation changes nothing.

use vstd::multiset::Multiset;
use vstd::prelude::*;
use crate::access::{
    AccessIntent, AccessRefusal, AccessSource, BackingId, ByteRange, ContentVersion, HeapId,
    Participation, ParticipationExtent, ResourceKey,
};
use crate::content::{BackingContent, Census, ContentLedger, Replica, Transfer, TransferModel};
use crate::fifo;
use crate::heap::{self, HeapModel, HeapPlacement, Heaps, Retirement};
use crate::identity::{ChannelId, ObjectListRef, ResourceId, SlotGeneration, TaskId};
use crate::namespace::{self, Namespace, Slot, Teardown};
use crate::resolve::RefResolver;
use crate::table::{Table, TableKey};
use crate::transaction::Channel;

verus! {

/// Which lifecycle command a packet is.
#[derive(Clone, Copy, Debug, PartialEq, Eq, PartialOrd, Ord, Hash, Structural)]
pub enum LifecycleKind {
    DefineTask,
    DeleteTask,
    SetObjectList,
    DeleteResource,
    MapMemory,
    UnmapMemory,
    ReplacePhysical,
    Invalidate,
    Synchronize,
    SynchronizeAndDiscard,
    Discard,
    DeleteBacking,
}

/// The lifecycle command each opcode is. Root and child are two views of one
/// opcode space; only three of the commands are legal on both.
pub open spec fn lifecycle_kind(channel: Channel, opcode: u16) -> Option<LifecycleKind> {
    if opcode == 0x38 {
        Some(LifecycleKind::DefineTask)
    } else if opcode == 0x20 {
        Some(LifecycleKind::DeleteTask)
    } else if opcode == 0x33 {
        Some(LifecycleKind::SetObjectList)
    } else if channel == Channel::Root {
        None
    } else if opcode == 0x25 {
        Some(LifecycleKind::DeleteResource)
    } else if opcode == 0x39 {
        Some(LifecycleKind::MapMemory)
    } else if opcode == 0x22 {
        Some(LifecycleKind::UnmapMemory)
    } else if opcode == 0x3c {
        Some(LifecycleKind::ReplacePhysical)
    } else if opcode == 0x34 {
        Some(LifecycleKind::Invalidate)
    } else if opcode == 0x35 {
        Some(LifecycleKind::Synchronize)
    } else if opcode == 0x3e {
        Some(LifecycleKind::SynchronizeAndDiscard)
    } else if opcode == 0x3f {
        Some(LifecycleKind::Discard)
    } else if opcode == 0x36 {
        Some(LifecycleKind::DeleteBacking)
    } else {
        None
    }
}

impl LifecycleKind {
    /// The lifecycle command a packet is, or `None` if it is not one.
    #[must_use]
    pub fn of(channel: Channel, opcode: u16) -> (kind: Option<LifecycleKind>)
        ensures
            kind == lifecycle_kind(channel, opcode),
    {
        match (channel, opcode) {
            (_, 0x38) => Some(LifecycleKind::DefineTask),
            (_, 0x20) => Some(LifecycleKind::DeleteTask),
            (_, 0x33) => Some(LifecycleKind::SetObjectList),
            (Channel::Child, 0x25) => Some(LifecycleKind::DeleteResource),
            (Channel::Child, 0x39) => Some(LifecycleKind::MapMemory),
            (Channel::Child, 0x22) => Some(LifecycleKind::UnmapMemory),
            (Channel::Child, 0x3c) => Some(LifecycleKind::ReplacePhysical),
            (Channel::Child, 0x34) => Some(LifecycleKind::Invalidate),
            (Channel::Child, 0x35) => Some(LifecycleKind::Synchronize),
            (Channel::Child, 0x3e) => Some(LifecycleKind::SynchronizeAndDiscard),
            (Channel::Child, 0x3f) => Some(LifecycleKind::Discard),
            (Channel::Child, 0x36) => Some(LifecycleKind::DeleteBacking),
            _ => None,
        }
    }

    /// The record length of this command's counted resource list, if it
    /// carries one.
    pub open spec fn record_len(self) -> Option<u32> {
        match self {
            LifecycleKind::Invalidate => Some(8u32),
            LifecycleKind::Synchronize => Some(4u32),
            LifecycleKind::SynchronizeAndDiscard => Some(4u32),
            LifecycleKind::Discard => Some(4u32),
            _ => None,
        }
    }

    /// The length of one record in this command's counted resource list, or
    /// `None` when the command carries no such list.
    ///
    /// Four commands carry one, at two lengths: an invalidate puts the guest's
    /// validity word beside each object ref.
    #[must_use]
    pub fn resource_list_record_len(self) -> (len: Option<u32>)
        ensures
            len == self.record_len(),
    {
        match self {
            LifecycleKind::Invalidate => Some(fifo::CHILD_INVALIDATE_RECORD_LEN),
            LifecycleKind::Synchronize | LifecycleKind::SynchronizeAndDiscard
            | LifecycleKind::Discard => Some(fifo::CHILD_SYNCHRONIZE_RECORD_LEN),
            _ => None,
        }
    }

    #[must_use]
    pub fn name(self) -> (name: &'static str)
        ensures
            name@ == (match self {
                LifecycleKind::DefineTask => "define_task"@,
                LifecycleKind::DeleteTask => "delete_task"@,
                LifecycleKind::SetObjectList => "set_object_list"@,
                LifecycleKind::DeleteResource => "delete_resource"@,
                LifecycleKind::MapMemory => "map_memory"@,
                LifecycleKind::UnmapMemory => "unmap_memory"@,
                LifecycleKind::ReplacePhysical => "replace_physical"@,
                LifecycleKind::Invalidate => "invalidate"@,
                LifecycleKind::Synchronize => "synchronize"@,
                LifecycleKind::SynchronizeAndDiscard => "synchronize_and_discard"@,
                LifecycleKind::Discard => "discard"@,
                LifecycleKind::DeleteBacking => "delete_backing"@,
            }),
    {
        match self {
            LifecycleKind::DefineTask => "define_task",
            LifecycleKind::DeleteTask => "delete_task",
            LifecycleKind::SetObjectList => "set_object_list",
            LifecycleKind::DeleteResource => "delete_resource",
            LifecycleKind::MapMemory => "map_memory",
            LifecycleKind::UnmapMemory => "unmap_memory",
            LifecycleKind::ReplacePhysical => "replace_physical",
            LifecycleKind::Invalidate => "invalidate",
            LifecycleKind::Synchronize => "synchronize",
            LifecycleKind::SynchronizeAndDiscard => "synchronize_and_discard",
            LifecycleKind::Discard => "discard",
            LifecycleKind::DeleteBacking => "delete_backing",
        }
    }
}

/// Where a resource's bytes live.
#[derive(Clone, Copy, Debug, PartialEq, Eq, Structural)]
pub enum Storage {
    /// Guest pages the resource names by itself.
    Dedicated { backing: BackingId, extent: ByteRange },
    /// A window of a heap, at an offset the guest chose.
    Placed { heap: u64, offset: u64, length: u64 },
}

/// One resolved resource-lifecycle operation.
///
/// Every variant carries the task it acts in: an object name is task-local.
#[derive(Clone, Debug, PartialEq, Eq)]
pub enum LifecycleOp {
    DefineTask { task: TaskId },
    DeleteTask { task: TaskId },
    /// This slot now holds a resource with this storage.
    CreateResource { task: TaskId, slot: ObjectListRef, storage: Storage },
    DeleteResource { task: TaskId, resource: ResourceId },
    MapMemory { task: TaskId, resource: ResourceId },
    UnmapMemory { task: TaskId, resource: ResourceId },
    /// Re-point a resource at different guest pages.
    ReplacePhysical { task: TaskId, resource: ResourceId, backing: BackingId, extent: ByteRange },
    Invalidate { task: TaskId, resources: Vec<ResourceId> },
    Synchronize { task: TaskId, resources: Vec<ResourceId> },
    SynchronizeAndDiscard { task: TaskId, resources: Vec<ResourceId> },
    Discard { task: TaskId, resources: Vec<ResourceId> },
    /// Retire a backing and the resources that named it.
    DeleteBacking { task: TaskId, backing: BackingId },
}

impl LifecycleOp {
    /// The command an operation belongs to.
    pub open spec fn command(self) -> LifecycleKind {
        match self {
            LifecycleOp::DefineTask { .. } => LifecycleKind::DefineTask,
            LifecycleOp::DeleteTask { .. } => LifecycleKind::DeleteTask,
            LifecycleOp::CreateResource { .. } => LifecycleKind::SetObjectList,
            LifecycleOp::DeleteResource { .. } => LifecycleKind::DeleteResource,
            LifecycleOp::MapMemory { .. } => LifecycleKind::MapMemory,
            LifecycleOp::UnmapMemory { .. } => LifecycleKind::UnmapMemory,
            LifecycleOp::ReplacePhysical { .. } => LifecycleKind::ReplacePhysical,
            LifecycleOp::Invalidate { .. } => LifecycleKind::Invalidate,
            LifecycleOp::Synchronize { .. } => LifecycleKind::Synchronize,
            LifecycleOp::SynchronizeAndDiscard { .. } => LifecycleKind::SynchronizeAndDiscard,
            LifecycleOp::Discard { .. } => LifecycleKind::Discard,
            LifecycleOp::DeleteBacking { .. } => LifecycleKind::DeleteBacking,
        }
    }

    #[must_use]
    pub fn kind(&self) -> (kind: LifecycleKind)
        ensures
            kind == self.command(),
    {
        match self {
            LifecycleOp::DefineTask { .. } => LifecycleKind::DefineTask,
            LifecycleOp::DeleteTask { .. } => LifecycleKind::DeleteTask,
            LifecycleOp::CreateResource { .. } => LifecycleKind::SetObjectList,
            LifecycleOp::DeleteResource { .. } => LifecycleKind::DeleteResource,
            LifecycleOp::MapMemory { .. } => LifecycleKind::MapMemory,
            LifecycleOp::UnmapMemory { .. } => LifecycleKind::UnmapMemory,
            LifecycleOp::ReplacePhysical { .. } => LifecycleKind::ReplacePhysical,
            LifecycleOp::Invalidate { .. } => LifecycleKind::Invalidate,
            LifecycleOp::Synchronize { .. } => LifecycleKind::Synchronize,
            LifecycleOp::SynchronizeAndDiscard { .. } => LifecycleKind::SynchronizeAndDiscard,
            LifecycleOp::Discard { .. } => LifecycleKind::Discard,
            LifecycleOp::DeleteBacking { .. } => LifecycleKind::DeleteBacking,
        }
    }

    /// The task an operation acts in.
    pub open spec fn acts_in(self) -> TaskId {
        match self {
            LifecycleOp::DefineTask { task } => task,
            LifecycleOp::DeleteTask { task } => task,
            LifecycleOp::CreateResource { task, .. } => task,
            LifecycleOp::DeleteResource { task, .. } => task,
            LifecycleOp::MapMemory { task, .. } => task,
            LifecycleOp::UnmapMemory { task, .. } => task,
            LifecycleOp::ReplacePhysical { task, .. } => task,
            LifecycleOp::Invalidate { task, .. } => task,
            LifecycleOp::Synchronize { task, .. } => task,
            LifecycleOp::SynchronizeAndDiscard { task, .. } => task,
            LifecycleOp::Discard { task, .. } => task,
            LifecycleOp::DeleteBacking { task, .. } => task,
        }
    }

    #[must_use]
    pub fn task(&self) -> (task: TaskId)
        ensures
            task == self.acts_in(),
    {
        match self {
            LifecycleOp::DefineTask { task } => *task,
            LifecycleOp::DeleteTask { task } => *task,
            LifecycleOp::CreateResource { task, .. } => *task,
            LifecycleOp::DeleteResource { task, .. } => *task,
            LifecycleOp::MapMemory { task, .. } => *task,
            LifecycleOp::UnmapMemory { task, .. } => *task,
            LifecycleOp::ReplacePhysical { task, .. } => *task,
            LifecycleOp::Invalidate { task, .. } => *task,
            LifecycleOp::Synchronize { task, .. } => *task,
            LifecycleOp::SynchronizeAndDiscard { task, .. } => *task,
            LifecycleOp::Discard { task, .. } => *task,
            LifecycleOp::DeleteBacking { task, .. } => *task,
        }
    }
}

/// A copy the device was offered to drop and did not.
#[derive(Clone, Copy, Debug, PartialEq, Eq, Structural)]
pub struct Declined {
    pub resource: ResourceId,
    pub backing: BackingId,
    /// Bytes that exist in no other replica.
    pub sole_authority_bytes: u64,
}

/// A content-authority change owed to a transaction's completion.
#[derive(Clone, Copy, Debug, PartialEq, Eq, Structural)]
pub struct DeferredDiscard {
    pub resource: ResourceId,
    pub backing: BackingId,
    pub bytes: ByteRange,
}

/// What a lifecycle transaction obliges and leaves behind.
#[derive(Debug, PartialEq, Eq)]
#[must_use]
pub struct Effects {
    /// Copies that must have executed before the transaction's completion
    /// stamp may publish.
    pub transfers: Vec<Transfer>,
    /// What the namespace said about each backing detached.
    pub teardowns: Vec<Teardown>,
    /// Heap storage whose last allocation went with this transaction.
    pub storage_freed: Vec<BackingId>,
    /// Copies offered for release, evaluated when the transfers above have
    /// executed.
    pub at_completion: Vec<DeferredDiscard>,
}

/// The effects, mathematically.
#[verifier::ext_equal]
pub struct EffectsModel {
    pub transfers: Seq<TransferModel>,
    pub teardowns: Seq<Teardown>,
    pub storage_freed: Seq<BackingId>,
    pub at_completion: Seq<DeferredDiscard>,
}

impl EffectsModel {
    /// Nothing owed and nothing left.
    pub open spec fn none() -> EffectsModel {
        EffectsModel {
            transfers: Seq::empty(),
            teardowns: Seq::empty(),
            storage_freed: Seq::empty(),
            at_completion: Seq::empty(),
        }
    }
}

/// What a sequence of transfers is, mathematically.
pub open spec fn transfers_of(transfers: Seq<Transfer>) -> Seq<TransferModel> {
    Seq::new(transfers.len(), |i: int| transfers[i]@)
}

impl View for Effects {
    type V = EffectsModel;

    open spec fn view(&self) -> EffectsModel {
        EffectsModel {
            transfers: transfers_of(self.transfers@),
            teardowns: self.teardowns@,
            storage_freed: self.storage_freed@,
            at_completion: self.at_completion@,
        }
    }
}

impl Default for Effects {
    fn default() -> (e: Effects)
        ensures
            e@ == EffectsModel::none(),
    {
        Effects {
            transfers: Vec::new(),
            teardowns: Vec::new(),
            storage_freed: Vec::new(),
            at_completion: Vec::new(),
        }
    }
}

/// Why a lifecycle packet's bytes did not become an operation.
#[derive(Clone, Copy, Debug, PartialEq, Eq, Structural)]
pub enum ResolveRefusal {
    /// The command carries no counted resource list.
    NotAResourceList { kind: LifecycleKind },
    /// The payload is too short for its header, or counts more records than it
    /// carries.
    Payload(fifo::ResourceListDecodeError),
    /// A ref in the list names no live object.
    UnknownRef { object_ref: u32 },
}

impl ResolveRefusal {
    #[must_use]
    pub fn slug(self) -> (slug: &'static str)
        ensures
            slug@ == (match self {
                ResolveRefusal::NotAResourceList { .. } => "lifecycle_not_a_resource_list"@,
                ResolveRefusal::Payload(inner) => inner.slug_text(),
                ResolveRefusal::UnknownRef { .. } => "lifecycle_unknown_ref"@,
            }),
    {
        match self {
            ResolveRefusal::NotAResourceList { .. } => "lifecycle_not_a_resource_list",
            ResolveRefusal::Payload(inner) => inner.slug(),
            ResolveRefusal::UnknownRef { .. } => "lifecycle_unknown_ref",
        }
    }
}

/// The operation is the command's, on that task and those resources.
pub open spec fn is_list_op(
    op: LifecycleOp,
    kind: LifecycleKind,
    task: TaskId,
    resources: Seq<ResourceId>,
) -> bool {
    match op {
        LifecycleOp::Invalidate { task: t, resources: r } => kind is Invalidate && t == task && r@
            == resources,
        LifecycleOp::Synchronize { task: t, resources: r } => kind is Synchronize && t == task && r@
            == resources,
        LifecycleOp::SynchronizeAndDiscard { task: t, resources: r } => kind
            is SynchronizeAndDiscard && t == task && r@ == resources,
        LifecycleOp::Discard { task: t, resources: r } => kind is Discard && t == task && r@
            == resources,
        _ => false,
    }
}

/// What a resource-list packet's payload comes to.
pub open spec fn list_resolved<R: RefResolver>(
    kind: LifecycleKind,
    payload: Seq<u8>,
    resolver: &R,
    r: Result<LifecycleOp, ResolveRefusal>,
) -> bool {
    match kind.record_len() {
        None => r == Err::<LifecycleOp, ResolveRefusal>(ResolveRefusal::NotAResourceList { kind }),
        Some(len) => match fifo::list_error(payload, len) {
            Some(e) => r == Err::<LifecycleOp, ResolveRefusal>(ResolveRefusal::Payload(e)),
            None => match crate::resolve::first_unknown(resolver, fifo::list_refs(payload, len)) {
                Some(object_ref) => r == Err::<LifecycleOp, ResolveRefusal>(
                    ResolveRefusal::UnknownRef { object_ref },
                ),
                None => r matches Ok(op) && is_list_op(
                    op,
                    kind,
                    TaskId(fifo::word_at(payload, 0)),
                    crate::resolve::named_by(resolver, fifo::list_refs(payload, len)),
                ),
            },
        },
    }
}

/// Turn one resource-list packet's payload into the operation it names.
///
/// Every ref resolves or the whole packet refuses: applying an invalidate to
/// the subset that resolved would claim the others are still fresh.
pub fn resource_list<R: RefResolver>(
    kind: LifecycleKind,
    payload: &[u8],
    resolver: &R,
) -> (r: Result<LifecycleOp, ResolveRefusal>)
    ensures
        list_resolved(kind, payload@, resolver, r),
{
    let record_len = match kind.resource_list_record_len() {
        Some(len) => len,
        None => {
            return Err(ResolveRefusal::NotAResourceList { kind });
        },
    };
    let decoded = if record_len == fifo::CHILD_INVALIDATE_RECORD_LEN {
        fifo::decode_invalidate_resources(payload)
    } else {
        fifo::decode_synchronize_resources(payload)
    };
    let list = match decoded {
        Ok(list) => list,
        Err(e) => {
            return Err(ResolveRefusal::Payload(e));
        },
    };
    let ghost refs = fifo::list_refs(payload@, record_len);
    assert(list.object_ids@ == refs);
    let mut resources: Vec<ResourceId> = Vec::new();
    let mut i: usize = 0;
    while i < list.object_ids.len()
        invariant
            i <= list.object_ids@.len(),
            kind.record_len() == Some(record_len),
            fifo::list_error(payload@, record_len) is None,
            refs == fifo::list_refs(payload@, record_len),
            list.object_ids@ == refs,
            crate::resolve::first_unknown(resolver, refs.take(i as int)) is None,
            resources@ == crate::resolve::named_by(resolver, refs.take(i as int)),
        decreases list.object_ids.len() - i,
    {
        let object_ref = list.object_ids[i];
        proof {
            assert(refs.take(i + 1).drop_last() =~= refs.take(i as int));
            assert(refs.take(i + 1).last() == object_ref);
        }
        match resolver.resource(object_ref) {
            Some(id) => {
                resources.push(id);
                assert(resources@ =~= crate::resolve::named_by(resolver, refs.take(i + 1)));
            },
            None => {
                proof {
                    crate::resolve::lemma_first_unknown_extends(resolver, refs, i + 1, object_ref);
                }
                return Err(ResolveRefusal::UnknownRef { object_ref });
            },
        }
        i = i + 1;
    }
    assert(refs.take(i as int) =~= refs);
    let task = TaskId(list.task_id);
    match kind {
        LifecycleKind::Invalidate => Ok(LifecycleOp::Invalidate { task, resources }),
        LifecycleKind::Synchronize => Ok(LifecycleOp::Synchronize { task, resources }),
        LifecycleKind::SynchronizeAndDiscard => Ok(
            LifecycleOp::SynchronizeAndDiscard { task, resources },
        ),
        LifecycleKind::Discard => Ok(LifecycleOp::Discard { task, resources }),
        other => Err(ResolveRefusal::NotAResourceList { kind: other }),
    }
}

/// Why a lifecycle operation did not happen.
#[allow(inconsistent_fields)]
#[derive(Clone, Copy, Debug, PartialEq, Eq, Structural)]
pub enum Refusal {
    NoSuchTask { task: TaskId },
    /// A live task cannot be redefined.
    TaskExists { task: TaskId },
    Namespace { task: TaskId, refusal: namespace::Refusal },
    Heap { task: TaskId, refusal: heap::Refusal },
    /// A heap-placed resource has no pages of its own to re-point.
    PlacedResourceHasNoPhysical { resource: ResourceId },
}

impl Refusal {
    /// The name a log line carries.
    pub open spec fn slug_text(self) -> Seq<char> {
        match self {
            Refusal::NoSuchTask { .. } => "lifecycle_no_such_task"@,
            Refusal::TaskExists { .. } => "lifecycle_task_exists"@,
            Refusal::Namespace { .. } => "lifecycle_namespace"@,
            Refusal::Heap { .. } => "lifecycle_heap"@,
            Refusal::PlacedResourceHasNoPhysical { .. } =>
            "lifecycle_placed_resource_has_no_physical"@,
        }
    }

    #[must_use]
    pub fn slug(self) -> (slug: &'static str)
        ensures
            slug@ == self.slug_text(),
    {
        match self {
            Refusal::NoSuchTask { .. } => "lifecycle_no_such_task",
            Refusal::TaskExists { .. } => "lifecycle_task_exists",
            Refusal::Namespace { .. } => "lifecycle_namespace",
            Refusal::Heap { .. } => "lifecycle_heap",
            Refusal::PlacedResourceHasNoPhysical { .. } =>
            "lifecycle_placed_resource_has_no_physical",
        }
    }
}

/// Where a live resource's bytes are, derived once at creation.
#[derive(Clone, Copy, Debug, PartialEq, Eq, Structural)]
pub enum Resident {
    Dedicated { backing: BackingId, extent: ByteRange },
    Placed(HeapPlacement),
}

impl Resident {
    /// The storage the bytes are in.
    pub open spec fn storage(self) -> BackingId {
        match self {
            Resident::Dedicated { backing, .. } => backing,
            Resident::Placed(p) => p.backing,
        }
    }

    /// The bytes of the storage that are the resource.
    pub open spec fn region(self) -> ByteRange {
        match self {
            Resident::Dedicated { extent, .. } => extent,
            Resident::Placed(p) => p.region,
        }
    }

    fn backing(self) -> (b: BackingId)
        ensures
            b == self.storage(),
    {
        match self {
            Resident::Dedicated { backing, .. } => backing,
            Resident::Placed(p) => p.backing,
        }
    }

    fn extent(self) -> (r: ByteRange)
        ensures
            r == self.region(),
    {
        match self {
            Resident::Dedicated { extent, .. } => extent,
            Resident::Placed(p) => p.whole(),
        }
    }

    /// A window of the resource, in its storage's coordinates. Nothing is
    /// clamped: the next byte past the end is someone else's.
    fn window(self, offset: u64, length: u64) -> (r: Result<ByteRange, heap::Refusal>)
        ensures
            r == crate::heap::window_of(self.region(), offset, length),
    {
        match self {
            Resident::Placed(p) => p.within(offset, length),
            Resident::Dedicated { extent, .. } => heap::window(extent, offset, length),
        }
    }
}

impl TableKey for TaskId {
    fn same(&self, other: &Self) -> (equal: bool) {
        self.0 == other.0
    }
}

/// One task's records, mathematically.
#[verifier::ext_equal]
pub struct TaskModel {
    pub slots: Map<ObjectListRef, Slot>,
    pub heaps: Map<u64, HeapModel>,
    pub resident: Map<ResourceId, Resident>,
}

impl TaskModel {
    /// A task nothing was declared in.
    pub open spec fn empty() -> TaskModel {
        TaskModel { slots: Map::empty(), heaps: Map::empty(), resident: Map::empty() }
    }

    /// The three records agree: the resident resources are the live names, each
    /// name's backing is its resident's, and what a heap holds is what is
    /// placed in it. No accepted use holds a name here.
    pub open spec fn consistent(self) -> bool {
        &&& forall|s: ObjectListRef| #[trigger]
            self.slots.dom().contains(s) ==> self.slots[s].outstanding == 0
        &&& forall|id: ResourceId| #[trigger]
            self.resident.dom().contains(id) == (crate::namespace::resolution(self.slots, id) is Ok)
        &&& forall|id: ResourceId| #[trigger]
            self.resident.dom().contains(id) ==> self.slots[id.slot].backing
                == self.resident[id].storage() && self.placed_where_said(id)
        &&& forall|h: u64, id: ResourceId| #[trigger]
            self.holds(h, id) ==> self.resident.dom().contains(id) && self.resident[id]
                is Placed && self.resident[id]->Placed_0.heap == h
    }

    /// The heap a placed resource names holds it where it says.
    pub open spec fn placed_where_said(self, id: ResourceId) -> bool {
        self.resident[id] matches Resident::Placed(p) ==> crate::heap::names_live(self.heaps, p) && self.holds(
            p.heap,
            id,
        ) && self.heaps[p.heap].placements[id] == p.region
    }

    /// The heap holds the resource.
    pub open spec fn holds(self, h: u64, id: ResourceId) -> bool {
        self.heaps.dom().contains(h) && self.heaps[h].placements.dom().contains(id)
    }

    /// The id a declaration into a slot hands out.
    pub open spec fn next_id(self, slot: ObjectListRef) -> ResourceId {
        ResourceId {
            slot,
            generation: SlotGeneration(
                crate::identity::next_count(
                    if self.slots.dom().contains(slot) {
                        self.slots[slot].generation.0
                    } else {
                        0
                    },
                ),
            ),
        }
    }

    /// A resource was declared into a slot.
    pub open spec fn created(self, slot: ObjectListRef, resident: Resident) -> TaskModel {
        let id = self.next_id(slot);
        TaskModel {
            slots: self.slots.insert(
                slot,
                Slot {
                    generation: id.generation,
                    backing: resident.storage(),
                    deleted: false,
                    mapped: false,
                    outstanding: 0,
                },
            ),
            heaps: match resident {
                Resident::Dedicated { .. } => self.heaps,
                Resident::Placed(p) => self.heaps.insert(
                    p.heap,
                    (HeapModel {
                        membership_generation: crate::identity::next_count(
                            self.heaps[p.heap].membership_generation,
                        ),
                        placements: self.heaps[p.heap].placements.insert(id, p.region),
                        ..self.heaps[p.heap]
                    }),
                ),
            },
            resident: self.resident.insert(id, resident),
        }
    }

    /// A live resource was deleted.
    pub open spec fn deleted(self, id: ResourceId) -> TaskModel {
        TaskModel {
            slots: self.slots.insert(
                id.slot,
                Slot { deleted: true, mapped: false, outstanding: 0, ..self.slots[id.slot] },
            ),
            heaps: match self.resident[id] {
                Resident::Dedicated { .. } => self.heaps,
                Resident::Placed(p) => self.heaps.insert(
                    p.heap,
                    (HeapModel {
                        membership_generation: crate::identity::next_count(
                            self.heaps[p.heap].membership_generation,
                        ),
                        placements: self.heaps[p.heap].placements.remove(id),
                        ..self.heaps[p.heap]
                    }),
                ),
            },
            resident: self.resident.remove(id),
        }
    }

    /// Live resources were deleted, one after the other.
    pub open spec fn all_deleted(self, ids: Seq<ResourceId>) -> TaskModel
        decreases ids.len(),
    {
        if ids.len() == 0 {
            self
        } else {
            self.all_deleted(ids.drop_last()).deleted(ids.last())
        }
    }

    /// A resource with its own pages was re-pointed.
    pub open spec fn repointed(
        self,
        id: ResourceId,
        backing: BackingId,
        extent: ByteRange,
    ) -> TaskModel {
        TaskModel {
            slots: self.slots.insert(
                id.slot,
                Slot { backing, outstanding: 0, ..self.slots[id.slot] },
            ),
            resident: self.resident.insert(id, Resident::Dedicated { backing, extent }),
            ..self
        }
    }

    /// A live name gained or lost its mapping.
    pub open spec fn with_mapping(self, id: ResourceId, mapped: bool) -> TaskModel {
        TaskModel {
            slots: self.slots.insert(id.slot, Slot { mapped, ..self.slots[id.slot] }),
            ..self
        }
    }

    /// What the first unresolvable name of a list is refused for.
    pub open spec fn list_refusal(self, ids: Seq<ResourceId>) -> Option<namespace::Refusal>
        decreases ids.len(),
    {
        if ids.len() == 0 {
            None
        } else {
            match self.list_refusal(ids.drop_last()) {
                Some(e) => Some(e),
                None => match crate::namespace::resolution(self.slots, ids.last()) {
                    Err(e) => Some(e),
                    Ok(_) => None,
                },
            }
        }
    }

    /// The live names, ascending by slot.
    pub open spec fn names(self) -> Seq<ResourceId> {
        choose|names: Seq<ResourceId>| lists_names(self.slots, names)
    }

    /// The live heap numbers, ascending.
    pub open spec fn heap_numbers(self) -> Seq<u64> {
        choose|numbers: Seq<u64>| lists_heaps(self.heaps, numbers)
    }

    /// The live names whose bytes are in a backing, ascending by slot.
    pub open spec fn names_in(self, backing: BackingId) -> Seq<ResourceId> {
        self.names().filter(|id: ResourceId| self.resident[id].storage() == backing)
    }

    /// The teardowns of deleting names.
    pub open spec fn teardowns(self, ids: Seq<ResourceId>) -> Seq<Teardown> {
        Seq::new(ids.len(), |i: int| Teardown::Now { backing: self.resident[ids[i]].storage() })
    }

    /// What the task's heaps are over, by ascending number.
    pub open spec fn heap_backings(self) -> Seq<BackingId> {
        Seq::new(self.heap_numbers().len(), |i: int| self.heaps[self.heap_numbers()[i]].backing)
    }

    /// The storage deleting the task's heaps frees, by ascending number.
    pub open spec fn heap_storage(self) -> Seq<BackingId> {
        freed_by(self.heap_backings(), self.heap_backings().len() as int)
    }
}

/// The storage that deleting the first `n` heaps over these backings frees: a
/// backing goes with the last heap over it.
pub open spec fn freed_by(backings: Seq<BackingId>, n: int) -> Seq<BackingId>
    decreases n,
{
    if n <= 0 {
        Seq::empty()
    } else if backings.skip(n).contains(backings[n - 1]) {
        freed_by(backings, n - 1)
    } else {
        freed_by(backings, n - 1).push(backings[n - 1])
    }
}

/// The sequence is the live names, ascending by slot.
pub open spec fn lists_names(slots: Map<ObjectListRef, Slot>, names: Seq<ResourceId>) -> bool {
    crate::namespace::by_slot(names) && forall|id: ResourceId| #[trigger]
        names.contains(id) == (crate::namespace::resolution(slots, id) is Ok)
}

/// The sequence is the live heap numbers, ascending.
pub open spec fn lists_heaps(heaps: Map<u64, HeapModel>, numbers: Seq<u64>) -> bool {
    (forall|i: int, j: int|
        0 <= i < j < numbers.len() ==> (#[trigger] numbers[i]) < (#[trigger] numbers[j])) && (
    forall|h: u64| #[trigger] numbers.contains(h) == heaps.dom().contains(h))
}

/// The content once backings were forgotten.
pub open spec fn forgotten(
    content: Map<BackingId, BackingContent>,
    backings: Seq<BackingId>,
) -> Map<BackingId, BackingContent>
    decreases backings.len(),
{
    if backings.len() == 0 {
        content
    } else {
        forgotten(content, backings.drop_last()).remove(backings.last())
    }
}

/// The content once resources were deleted: what had its own pages takes its
/// content with it.
pub open spec fn content_without(
    content: Map<BackingId, BackingContent>,
    resident: Map<ResourceId, Resident>,
    ids: Seq<ResourceId>,
) -> Map<BackingId, BackingContent>
    decreases ids.len(),
{
    if ids.len() == 0 {
        content
    } else {
        let before = content_without(content, resident, ids.drop_last());
        match resident[ids.last()] {
            Resident::Dedicated { backing, .. } => before.remove(backing),
            Resident::Placed(_) => before,
        }
    }
}

/// The content after a write.
pub open spec fn content_written(
    content: Map<BackingId, BackingContent>,
    backing: BackingId,
    bytes: ByteRange,
    replica: Replica,
) -> Map<BackingId, BackingContent> {
    content.insert(backing, crate::content::content_at(content, backing).written(bytes.bytes(), replica))
}

/// The content after the guest said its pages are the current content of each
/// resource.
pub open spec fn content_invalidated(
    content: Map<BackingId, BackingContent>,
    resident: Map<ResourceId, Resident>,
    ids: Seq<ResourceId>,
) -> Map<BackingId, BackingContent>
    decreases ids.len(),
{
    if ids.len() == 0 {
        content
    } else {
        content_written(
            content_invalidated(content, resident, ids.drop_last()),
            resident[ids.last()].storage(),
            resident[ids.last()].region(),
            Replica::GuestPages,
        )
    }
}

/// The counts after `n` writes.
pub open spec fn counts_written(counts: Census, n: nat) -> Census
    decreases n,
{
    if n == 0 {
        counts
    } else {
        let before = counts_written(counts, (n - 1) as nat);
        Census { writes: crate::content::counted(before.writes), ..before }
    }
}

/// The counts after the guest asked to read each resource.
pub open spec fn counts_synchronized(
    counts: Census,
    content: Map<BackingId, BackingContent>,
    resident: Map<ResourceId, Resident>,
    ids: Seq<ResourceId>,
) -> Census
    decreases ids.len(),
{
    if ids.len() == 0 {
        counts
    } else {
        crate::content::read_counts(
            counts_synchronized(counts, content, resident, ids.drop_last()),
            content,
            resident[ids.last()].storage(),
            resident[ids.last()].region(),
            Replica::GuestPages,
        )
    }
}

/// The copies that bring the guest's pages up to date for each resource.
pub open spec fn transfers_owed(
    content: Map<BackingId, BackingContent>,
    resident: Map<ResourceId, Resident>,
    ids: Seq<ResourceId>,
) -> Seq<TransferModel>
    decreases ids.len(),
{
    if ids.len() == 0 {
        Seq::empty()
    } else {
        let before = transfers_owed(content, resident, ids.drop_last());
        let backing = resident[ids.last()].storage();
        let bytes = crate::content::content_at(content, backing).movable(
            resident[ids.last()].region(),
            Replica::GuestPages,
        );
        if bytes == Set::<int>::empty() {
            before
        } else {
            before.push(
                TransferModel {
                    backing,
                    from: Replica::DeviceOwned,
                    to: Replica::GuestPages,
                    bytes,
                },
            )
        }
    }
}

/// The discard each resource offers.
pub open spec fn discards_of(
    resident: Map<ResourceId, Resident>,
    ids: Seq<ResourceId>,
) -> Seq<DeferredDiscard> {
    Seq::new(
        ids.len(),
        |i: int|
            DeferredDiscard {
                resource: ids[i],
                backing: resident[ids[i]].storage(),
                bytes: resident[ids[i]].region(),
            },
    )
}

/// The content once transfers executed.
pub open spec fn content_transferred(
    content: Map<BackingId, BackingContent>,
    transfers: Seq<TransferModel>,
) -> Map<BackingId, BackingContent>
    decreases transfers.len(),
{
    if transfers.len() == 0 {
        content
    } else {
        let before = content_transferred(content, transfers.drop_last());
        let t = transfers.last();
        before.insert(t.backing, crate::content::content_at(before, t.backing).transferred(t.bytes, t.to))
    }
}

/// The bytes a discard would destroy.
pub open spec fn destroyed_by(
    content: Map<BackingId, BackingContent>,
    discard: DeferredDiscard,
) -> Set<int> {
    crate::content::content_at(content, discard.backing).only_in(discard.bytes, Replica::DeviceOwned)
}

/// The content once each offer was taken or declined.
pub open spec fn content_discarded(
    content: Map<BackingId, BackingContent>,
    discards: Seq<DeferredDiscard>,
) -> Map<BackingId, BackingContent>
    decreases discards.len(),
{
    if discards.len() == 0 {
        content
    } else {
        let before = content_discarded(content, discards.drop_last());
        let d = discards.last();
        if destroyed_by(before, d) == Set::<int>::empty() && before.dom().contains(d.backing) {
            before.insert(
                d.backing,
                crate::content::content_at(before, d.backing).discarded(d.bytes.bytes(), Replica::DeviceOwned),
            )
        } else {
            before
        }
    }
}

/// The offers declined, in order.
pub open spec fn declined_of(
    content: Map<BackingId, BackingContent>,
    discards: Seq<DeferredDiscard>,
) -> Seq<Declined>
    decreases discards.len(),
{
    if discards.len() == 0 {
        Seq::empty()
    } else {
        let before = declined_of(content, discards.drop_last());
        let d = discards.last();
        let sole = destroyed_by(content_discarded(content, discards.drop_last()), d);
        if sole == Set::<int>::empty() {
            before
        } else {
            before.push(
                Declined {
                    resource: d.resource,
                    backing: d.backing,
                    sole_authority_bytes: sole.len() as u64,
                },
            )
        }
    }
}

/// A participation's extent in its storage's coordinates.
///
/// The whole of a resource with its own pages is its whole backing. The whole
/// of a placed one is exactly its window: naming the heap's storage would alias
/// every neighbour into it. Relating image coordinates to bytes needs a layout,
/// so a subresource travels as the record wrote it.
pub open spec fn translated(resident: Resident, extent: ParticipationExtent) -> Result<
    ParticipationExtent,
    heap::Refusal,
> {
    match extent {
        ParticipationExtent::Range(w) => match crate::heap::window_of(resident.region(), w.offset, w.length) {
            Ok(range) => Ok(ParticipationExtent::Range(range)),
            Err(e) => Err(e),
        },
        ParticipationExtent::Subresource(s) => Ok(ParticipationExtent::Subresource(s)),
        ParticipationExtent::Whole => match resident {
            Resident::Dedicated { .. } => Ok(ParticipationExtent::Whole),
            Resident::Placed(w) => Ok(ParticipationExtent::Range(w.region)),
        },
    }
}

/// The version current over a range; none where nothing wrote it.
pub open spec fn version_over(row: BackingContent, range: ByteRange) -> Option<ContentVersion> {
    if row.produced(range) {
        Some(row.version)
    } else {
        None
    }
}

/// The version an access over an extent consumes.
pub open spec fn consumed_version(row: BackingContent, extent: ParticipationExtent) -> Option<
    ContentVersion,
> {
    let newest = if row.version == ContentVersion(0) {
        None
    } else {
        Some(row.version)
    };
    match extent {
        ParticipationExtent::Range(range) => version_over(row, range),
        ParticipationExtent::Whole => match row.extent {
            Some(declared) => version_over(row, declared),
            None => newest,
        },
        ParticipationExtent::Subresource(_) => newest,
    }
}

/// The lifecycle owner, mathematically.
#[verifier::ext_equal]
pub struct LifecycleModel {
    pub tasks: Map<TaskId, TaskModel>,
    pub content: Map<BackingId, BackingContent>,
    pub counts: Census,
}

impl LifecycleModel {
    /// Every task's records agree.
    pub open spec fn consistent(self) -> bool {
        forall|t: TaskId| #[trigger] self.tasks.dom().contains(t) ==> self.tasks[t].consistent()
    }

    /// The same owner with one task's records and the content replaced.
    pub open spec fn with(
        self,
        task: TaskId,
        records: TaskModel,
        content: Map<BackingId, BackingContent>,
    ) -> LifecycleModel {
        LifecycleModel { tasks: self.tasks.insert(task, records), content, ..self }
    }

    /// What creating a resource comes to.
    pub open spec fn creation(self, task: TaskId, slot: ObjectListRef, storage: Storage) -> Result<
        LifecycleModel,
        Refusal,
    > {
        let t = self.tasks[task];
        let occupied = t.slots.dom().contains(slot) && !t.slots[slot].deleted;
        let slot_refusal = Refusal::Namespace {
            task,
            refusal: namespace::Refusal::SlotOccupied { slot },
        };
        match storage {
            Storage::Dedicated { backing, extent } => if occupied {
                Err(slot_refusal)
            } else {
                Ok(
                    self.with(
                        task,
                        t.created(slot, Resident::Dedicated { backing, extent }),
                        self.content.insert(
                            backing,
                            crate::content::content_at(self.content, backing).declared(
                                extent,
                                Replica::GuestPages,
                            ),
                        ),
                    ),
                )
            },
            Storage::Placed { heap, offset, length } => if !t.heaps.dom().contains(heap) {
                Err(Refusal::Heap { task, refusal: heap::Refusal::NoSuchHeap { heap } })
            } else if occupied {
                Err(slot_refusal)
            } else if !crate::heap::fits(offset, length, t.heaps[heap].length) {
                Err(
                    Refusal::Heap {
                        task,
                        refusal: heap::Refusal::OutOfHeap {
                            heap,
                            offset,
                            length,
                            heap_length: t.heaps[heap].length,
                        },
                    },
                )
            } else {
                let backing = t.heaps[heap].backing;
                let region = ByteRange { offset, length };
                Ok(
                    LifecycleModel {
                        counts: counts_written(self.counts, 1),
                        ..self.with(
                            task,
                            t.created(
                                slot,
                                Resident::Placed(HeapPlacement { heap, backing, region }),
                            ),
                            content_written(self.content, backing, region, Replica::GuestPages),
                        )
                    },
                )
            },
        }
    }

    /// What giving a name a mapping, or taking it away, comes to.
    pub open spec fn mapping(self, task: TaskId, id: ResourceId, mapped: bool) -> Result<
        LifecycleModel,
        Refusal,
    > {
        let t = self.tasks[task];
        match crate::namespace::resolution(t.slots, id) {
            Err(refusal) => Err(Refusal::Namespace { task, refusal }),
            Ok(_) => if t.slots[id.slot].mapped == mapped {
                Err(
                    Refusal::Namespace {
                        task,
                        refusal: if mapped {
                            namespace::Refusal::AlreadyMapped { id }
                        } else {
                            namespace::Refusal::NotMapped { id }
                        },
                    },
                )
            } else {
                Ok(self.with(task, t.with_mapping(id, mapped), self.content))
            },
        }
    }

    /// What an operation comes to: the refusal, or the owner after it and what
    /// it obliges.
    pub open spec fn outcome(self, op: LifecycleOp) -> Result<
        (LifecycleModel, EffectsModel),
        Refusal,
    > {
        let task = op.acts_in();
        let t = self.tasks[task];
        let known = self.tasks.dom().contains(task);
        if op is DefineTask {
            if known {
                Err(Refusal::TaskExists { task })
            } else {
                Ok(
                    (
                        self.with(task, TaskModel::empty(), self.content),
                        EffectsModel::none(),
                    ),
                )
            }
        } else if !known {
            Err(Refusal::NoSuchTask { task })
        } else {
            match op {
                LifecycleOp::DefineTask { .. } => Err(Refusal::TaskExists { task }),
                LifecycleOp::DeleteTask { .. } => Ok(
                    (
                        LifecycleModel {
                            tasks: self.tasks.remove(task),
                            content: forgotten(
                                content_without(self.content, t.resident, t.names()),
                                t.heap_storage(),
                            ),
                            ..self
                        },
                        EffectsModel {
                            teardowns: t.teardowns(t.names()),
                            storage_freed: t.heap_storage(),
                            ..EffectsModel::none()
                        },
                    ),
                ),
                LifecycleOp::CreateResource { slot, storage, .. } => match self.creation(
                    task,
                    slot,
                    storage,
                ) {
                    Err(e) => Err(e),
                    Ok(next) => Ok((next, EffectsModel::none())),
                },
                LifecycleOp::DeleteResource { resource, .. } => match crate::namespace::resolution(
                    t.slots,
                    resource,
                ) {
                    Err(refusal) => Err(Refusal::Namespace { task, refusal }),
                    Ok(_) => Ok(
                        (
                            self.with(
                                task,
                                t.deleted(resource),
                                content_without(self.content, t.resident, seq![resource]),
                            ),
                            EffectsModel {
                                teardowns: t.teardowns(seq![resource]),
                                ..EffectsModel::none()
                            },
                        ),
                    ),
                },
                LifecycleOp::MapMemory { resource, .. } => match self.mapping(
                    task,
                    resource,
                    true,
                ) {
                    Err(e) => Err(e),
                    Ok(next) => Ok((next, EffectsModel::none())),
                },
                LifecycleOp::UnmapMemory { resource, .. } => match self.mapping(
                    task,
                    resource,
                    false,
                ) {
                    Err(e) => Err(e),
                    Ok(next) => Ok((next, EffectsModel::none())),
                },
                LifecycleOp::ReplacePhysical { resource, backing, extent, .. } =>
                match crate::namespace::resolution(t.slots, resource) {
                    Err(refusal) => Err(Refusal::Namespace { task, refusal }),
                    Ok(_) => if t.resident[resource] is Placed {
                        Err(Refusal::PlacedResourceHasNoPhysical { resource })
                    } else {
                        Ok(
                            (
                                self.with(
                                    task,
                                    t.repointed(resource, backing, extent),
                                    self.content.insert(
                                        backing,
                                        crate::content::content_at(self.content, backing).declared(
                                            extent,
                                            Replica::GuestPages,
                                        ),
                                    ).remove(t.resident[resource].storage()),
                                ),
                                EffectsModel {
                                    teardowns: t.teardowns(seq![resource]),
                                    ..EffectsModel::none()
                                },
                            ),
                        )
                    },
                },
                LifecycleOp::Invalidate { resources, .. } => match t.list_refusal(resources@) {
                    Some(refusal) => Err(Refusal::Namespace { task, refusal }),
                    None => Ok(
                        (
                            LifecycleModel {
                                content: content_invalidated(
                                    self.content,
                                    t.resident,
                                    resources@,
                                ),
                                counts: counts_written(self.counts, resources@.len()),
                                ..self
                            },
                            EffectsModel::none(),
                        ),
                    ),
                },
                LifecycleOp::Synchronize { resources, .. } => self.synchronization(
                    task,
                    resources@,
                    false,
                ),
                LifecycleOp::SynchronizeAndDiscard { resources, .. } => self.synchronization(
                    task,
                    resources@,
                    true,
                ),
                LifecycleOp::Discard { resources, .. } => match t.list_refusal(resources@) {
                    Some(refusal) => Err(Refusal::Namespace { task, refusal }),
                    None => Ok(
                        (
                            self,
                            EffectsModel {
                                at_completion: discards_of(t.resident, resources@),
                                ..EffectsModel::none()
                            },
                        ),
                    ),
                },
                LifecycleOp::DeleteBacking { backing, .. } => Ok(
                    (
                        self.with(
                            task,
                            t.all_deleted(t.names_in(backing)),
                            content_without(
                                self.content,
                                t.resident,
                                t.names_in(backing),
                            ).remove(backing),
                        ),
                        EffectsModel {
                            teardowns: t.teardowns(t.names_in(backing)),
                            ..EffectsModel::none()
                        },
                    ),
                ),
            }
        }
    }

    /// Where a task-local name's bytes are, or why it does not resolve.
    pub open spec fn residency(self, task: TaskId, id: ResourceId) -> Result<Resident, Refusal> {
        if !self.tasks.dom().contains(task) {
            Err(Refusal::NoSuchTask { task })
        } else {
            match crate::namespace::resolution(self.tasks[task].slots, id) {
                Err(refusal) => Err(Refusal::Namespace { task, refusal }),
                Ok(_) => Ok(self.tasks[task].resident[id]),
            }
        }
    }

    /// The bytes a task-local name holds, or why it does not resolve.
    pub open spec fn whereabouts(self, task: TaskId, id: ResourceId) -> Result<ByteRange, Refusal> {
        match self.residency(task, id) {
            Ok(resident) => Ok(resident.region()),
            Err(e) => Err(e),
        }
    }

    /// What declaring a heap into a task comes to.
    pub open spec fn heap_declaration(
        self,
        task: TaskId,
        heap: u64,
        backing: BackingId,
        length: u64,
    ) -> Result<LifecycleModel, Refusal> {
        let t = self.tasks[task];
        if !self.tasks.dom().contains(task) {
            Err(Refusal::NoSuchTask { task })
        } else if t.heaps.dom().contains(heap) {
            Err(Refusal::Heap { task, refusal: heap::Refusal::HeapExists { heap } })
        } else {
            Ok(
                self.with(
                    task,
                    (TaskModel {
                        heaps: t.heaps.insert(
                            heap,
                            (HeapModel {
                                backing,
                                length,
                                membership_generation: 0,
                                placements: Map::empty(),
                            }),
                        ),
                        ..t
                    }),
                    self.content,
                ),
            )
        }
    }

    /// What recording a write of a window of a resource comes to.
    pub open spec fn recording(
        self,
        task: TaskId,
        id: ResourceId,
        offset: u64,
        length: u64,
        replica: Replica,
    ) -> Result<LifecycleModel, Refusal> {
        match self.residency(task, id) {
            Err(e) => Err(e),
            Ok(resident) => match crate::heap::window_of(resident.region(), offset, length) {
                Err(refusal) => Err(Refusal::Heap { task, refusal }),
                Ok(bytes) => Ok(
                    LifecycleModel {
                        content: content_written(self.content, resident.storage(), bytes, replica),
                        counts: counts_written(self.counts, 1),
                        ..self
                    },
                ),
            },
        }
    }

    /// What placing a participation comes to: the refusal, or the intent and
    /// the owner once the version it produces is reserved.
    pub open spec fn placing(self, task: TaskId, domain: ChannelId, p: Participation) -> Result<
        (AccessIntent, LifecycleModel),
        Refusal,
    > {
        let t = self.tasks[task];
        if !self.tasks.dom().contains(task) {
            Err(Refusal::NoSuchTask { task })
        } else {
            match crate::namespace::resolution(t.slots, p.resource) {
                Err(refusal) => Err(Refusal::Namespace { task, refusal }),
                Ok(_) => match translated(t.resident[p.resource], p.extent) {
                    Err(refusal) => Err(Refusal::Heap { task, refusal }),
                    Ok(extent) => {
                        let resident = t.resident[p.resource];
                        let backing = resident.storage();
                        let row = crate::content::content_at(self.content, backing);
                        let key = ResourceKey {
                            backing,
                            heap: match resident {
                                Resident::Placed(w) => Some(
                                    HeapId {
                                        id: w.heap,
                                        membership_generation: t.heaps[w.heap].membership_generation,
                                    },
                                ),
                                Resident::Dedicated { .. } => None,
                            },
                        };
                        let output = if p.mode.is_write() {
                            Some(row.next_reservation())
                        } else {
                            None
                        };
                        Ok(
                            (
                                AccessIntent {
                                    domain,
                                    key: (Participation { extent, ..p }).placed_key(key),
                                    mode: p.mode,
                                    api_stages: p.api_stages,
                                    input_content_version: consumed_version(row, extent),
                                    output_content_version: output,
                                },
                                match output {
                                    Some(v) => LifecycleModel {
                                        content: self.content.insert(
                                            backing,
                                            (BackingContent { reserved: v, ..row }),
                                        ),
                                        ..self
                                    },
                                    None => self,
                                },
                            ),
                        )
                    },
                },
            }
        }
    }

    /// What a synchronise comes to.
    pub open spec fn synchronization(
        self,
        task: TaskId,
        ids: Seq<ResourceId>,
        then_discard: bool,
    ) -> Result<(LifecycleModel, EffectsModel), Refusal> {
        let t = self.tasks[task];
        match t.list_refusal(ids) {
            Some(refusal) => Err(Refusal::Namespace { task, refusal }),
            None => Ok(
                (
                    LifecycleModel {
                        counts: counts_synchronized(self.counts, self.content, t.resident, ids),
                        ..self
                    },
                    EffectsModel {
                        transfers: transfers_owed(self.content, t.resident, ids),
                        at_completion: if then_discard {
                            discards_of(t.resident, ids)
                        } else {
                            Seq::empty()
                        },
                        ..EffectsModel::none()
                    },
                ),
            ),
        }
    }
}

/// Two ascending lists of the same names are the same list.
proof fn lemma_names_determined(a: Seq<ResourceId>, b: Seq<ResourceId>)
    requires
        crate::namespace::by_slot(a),
        crate::namespace::by_slot(b),
        forall|id: ResourceId| #[trigger] a.contains(id) == b.contains(id),
    ensures
        a == b,
    decreases a.len(),
{
    if a.len() == 0 {
        if b.len() > 0 {
            assert(b.contains(b[0]));
            assert(a.contains(b[0]));
        }
        assert(a =~= b);
    } else if b.len() == 0 {
        assert(a.contains(a[0]));
    } else {
        let x = a.last();
        let y = b.last();
        assert(a.contains(x));
        assert(a.contains(y)) by {
            assert(b.contains(y));
        }
        let i = choose|i: int| 0 <= i < b.len() && b[i] == x;
        let j = choose|j: int| 0 <= j < a.len() && a[j] == y;
        assert(x == y);
        let ai = a.drop_last();
        let bi = b.drop_last();
        assert forall|id: ResourceId| #[trigger] ai.contains(id) == bi.contains(id) by {
            if ai.contains(id) {
                let k = choose|k: int| 0 <= k < ai.len() && ai[k] == id;
                assert(a[k] == id && id.slot.0 < x.slot.0);
                assert(a.contains(id));
                let m = choose|m: int| 0 <= m < b.len() && b[m] == id;
                assert(bi[m] == id);
            }
            if bi.contains(id) {
                let k = choose|k: int| 0 <= k < bi.len() && bi[k] == id;
                assert(b[k] == id && id.slot.0 < y.slot.0);
                assert(b.contains(id));
                assert(a.contains(id));
                let m = choose|m: int| 0 <= m < a.len() && a[m] == id;
                assert(ai[m] == id);
            }
        }
        lemma_names_determined(ai, bi);
        assert(a =~= ai.push(x));
        assert(b =~= bi.push(y));
    }
}

/// Two ascending lists of the same numbers are the same list.
proof fn lemma_numbers_determined(a: Seq<u64>, b: Seq<u64>)
    requires
        forall|i: int, j: int| 0 <= i < j < a.len() ==> (#[trigger] a[i]) < (#[trigger] a[j]),
        forall|i: int, j: int| 0 <= i < j < b.len() ==> (#[trigger] b[i]) < (#[trigger] b[j]),
        forall|h: u64| #[trigger] a.contains(h) == b.contains(h),
    ensures
        a == b,
    decreases a.len(),
{
    if a.len() == 0 {
        if b.len() > 0 {
            assert(b.contains(b[0]));
            assert(a.contains(b[0]));
        }
        assert(a =~= b);
    } else if b.len() == 0 {
        assert(a.contains(a[0]));
    } else {
        let x = a.last();
        let y = b.last();
        assert(a.contains(x));
        assert(a.contains(y)) by {
            assert(b.contains(y));
        }
        let i = choose|i: int| 0 <= i < b.len() && b[i] == x;
        let j = choose|j: int| 0 <= j < a.len() && a[j] == y;
        assert(x == y);
        let ai = a.drop_last();
        let bi = b.drop_last();
        assert forall|h: u64| #[trigger] ai.contains(h) == bi.contains(h) by {
            if ai.contains(h) {
                let k = choose|k: int| 0 <= k < ai.len() && ai[k] == h;
                assert(a[k] == h && h < x);
                assert(a.contains(h));
                let m = choose|m: int| 0 <= m < b.len() && b[m] == h;
                assert(bi[m] == h);
            }
            if bi.contains(h) {
                let k = choose|k: int| 0 <= k < bi.len() && bi[k] == h;
                assert(b[k] == h && h < y);
                assert(b.contains(h));
                assert(a.contains(h));
                let m = choose|m: int| 0 <= m < a.len() && a[m] == h;
                assert(ai[m] == h);
            }
        }
        lemma_numbers_determined(ai, bi);
        assert(a =~= ai.push(x));
        assert(b =~= bi.push(y));
    }
}

/// A list of the live names is the list of the live names.
proof fn lemma_is_names(t: TaskModel, names: Seq<ResourceId>)
    requires
        lists_names(t.slots, names),
    ensures
        t.names() == names,
        lists_names(t.slots, t.names()),
{
    let chosen = t.names();
    assert(lists_names(t.slots, chosen));
    assert forall|id: ResourceId| #[trigger] chosen.contains(id) == names.contains(id) by {
        assert(names.contains(id) == (crate::namespace::resolution(t.slots, id) is Ok));
    }
    lemma_names_determined(chosen, names);
}

/// A list of the live heaps is the list of the live heaps.
proof fn lemma_is_heap_numbers(t: TaskModel, numbers: Seq<u64>)
    requires
        lists_heaps(t.heaps, numbers),
    ensures
        t.heap_numbers() == numbers,
{
    let chosen = t.heap_numbers();
    assert(lists_heaps(t.heaps, chosen));
    assert forall|h: u64| #[trigger] chosen.contains(h) == numbers.contains(h) by {
        assert(numbers.contains(h) == t.heaps.dom().contains(h));
    }
    lemma_numbers_determined(chosen, numbers);
}

/// Deleting a live resource keeps the records in agreement.
proof fn lemma_deleted_consistent(t: TaskModel, id: ResourceId)
    requires
        t.consistent(),
        t.resident.dom().contains(id),
    ensures
        t.deleted(id).consistent(),
{
    let n = t.deleted(id);
    assert(crate::namespace::resolution(t.slots, id) is Ok);
    assert forall|x: ResourceId| #[trigger]
        n.resident.dom().contains(x) == (crate::namespace::resolution(n.slots, x) is Ok) by {
        assert(t.resident.dom().contains(x) == (crate::namespace::resolution(t.slots, x) is Ok));
    }
    assert forall|x: ResourceId| #[trigger] n.resident.dom().contains(x) implies n.slots[x.slot].backing
        == n.resident[x].storage() && n.placed_where_said(x) by {
        assert(t.resident.dom().contains(x));
        assert(t.placed_where_said(x));
        assert(x.slot != id.slot) by {
            assert(crate::namespace::resolution(t.slots, x) is Ok);
        }
        if let Resident::Placed(p) = n.resident[x] {
            assert(t.holds(p.heap, x));
            assert(n.holds(p.heap, x));
        }
    }
    assert forall|h: u64, x: ResourceId| #[trigger] n.holds(h, x) implies n.resident.dom().contains(
        x,
    ) && n.resident[x] is Placed && n.resident[x]->Placed_0.heap == h by {
        assert(t.holds(h, x));
        assert(t.placed_where_said(id));
    }
}

/// Declaring a resource keeps the records in agreement.
proof fn lemma_created_consistent(t: TaskModel, slot: ObjectListRef, resident: Resident)
    requires
        t.consistent(),
        t.slots.dom().contains(slot) ==> t.slots[slot].deleted,
        resident matches Resident::Placed(p) ==> crate::heap::names_live(t.heaps, p),
    ensures
        t.created(slot, resident).consistent(),
        !t.resident.dom().contains(t.next_id(slot)),
        forall|h: u64| !#[trigger] t.holds(h, t.next_id(slot)),
{
    let n = t.created(slot, resident);
    let id = t.next_id(slot);
    assert(!(crate::namespace::resolution(t.slots, id) is Ok));
    assert(!t.resident.dom().contains(id));
    assert forall|x: ResourceId| #[trigger]
        n.resident.dom().contains(x) == (crate::namespace::resolution(n.slots, x) is Ok) by {
        assert(t.resident.dom().contains(x) == (crate::namespace::resolution(t.slots, x) is Ok));
    }
    assert forall|x: ResourceId| #[trigger] n.resident.dom().contains(x) implies n.slots[x.slot].backing
        == n.resident[x].storage() && n.placed_where_said(x) by {
        if x != id {
            assert(t.resident.dom().contains(x));
            assert(t.placed_where_said(x));
            assert(crate::namespace::resolution(t.slots, x) is Ok);
            if let Resident::Placed(p) = n.resident[x] {
                assert(t.holds(p.heap, x));
                assert(n.holds(p.heap, x));
            }
        } else {
            if let Resident::Placed(p) = resident {
                assert(n.holds(p.heap, id));
            }
        }
    }
    assert forall|h: u64, x: ResourceId| #[trigger] n.holds(h, x) implies n.resident.dom().contains(
        x,
    ) && n.resident[x] is Placed && n.resident[x]->Placed_0.heap == h by {
        if x != id {
            assert(t.holds(h, x));
        } else {
            assert(!t.holds(h, x));
        }
    }
}

/// Re-pointing a resource with its own pages keeps the records in agreement.
proof fn lemma_repointed_consistent(
    t: TaskModel,
    id: ResourceId,
    backing: BackingId,
    extent: ByteRange,
)
    requires
        t.consistent(),
        t.resident.dom().contains(id),
        t.resident[id] is Dedicated,
    ensures
        t.repointed(id, backing, extent).consistent(),
{
    let n = t.repointed(id, backing, extent);
    assert(crate::namespace::resolution(t.slots, id) is Ok);
    assert forall|x: ResourceId| #[trigger]
        n.resident.dom().contains(x) == (crate::namespace::resolution(n.slots, x) is Ok) by {
        assert(t.resident.dom().contains(x) == (crate::namespace::resolution(t.slots, x) is Ok));
    }
    assert forall|x: ResourceId| #[trigger] n.resident.dom().contains(x) implies n.slots[x.slot].backing
        == n.resident[x].storage() && n.placed_where_said(x) by {
        assert(t.resident.dom().contains(x));
        assert(t.placed_where_said(x));
        assert(crate::namespace::resolution(t.slots, x) is Ok);
        if let Resident::Placed(p) = n.resident[x] {
            assert(t.holds(p.heap, x));
            assert(n.holds(p.heap, x));
        }
    }
    assert forall|h: u64, x: ResourceId| #[trigger] n.holds(h, x) implies n.resident.dom().contains(
        x,
    ) && n.resident[x] is Placed && n.resident[x]->Placed_0.heap == h by {
        assert(t.holds(h, x));
    }
}

/// Mapping a live name keeps the records in agreement.
proof fn lemma_mapping_consistent(t: TaskModel, id: ResourceId, mapped: bool)
    requires
        t.consistent(),
        crate::namespace::resolution(t.slots, id) is Ok,
    ensures
        t.with_mapping(id, mapped).consistent(),
{
    let n = t.with_mapping(id, mapped);
    assert forall|x: ResourceId| #[trigger]
        n.resident.dom().contains(x) == (crate::namespace::resolution(n.slots, x) is Ok) by {
        assert(t.resident.dom().contains(x) == (crate::namespace::resolution(t.slots, x) is Ok));
    }
    assert forall|x: ResourceId| #[trigger] n.resident.dom().contains(x) implies n.slots[x.slot].backing
        == n.resident[x].storage() && n.placed_where_said(x) by {
        assert(t.resident.dom().contains(x));
        assert(t.placed_where_said(x));
        if let Resident::Placed(p) = n.resident[x] {
            assert(t.holds(p.heap, x));
            assert(n.holds(p.heap, x));
        }
    }
    assert forall|h: u64, x: ResourceId| #[trigger] n.holds(h, x) implies n.resident.dom().contains(
        x,
    ) && n.resident[x] is Placed && n.resident[x]->Placed_0.heap == h by {
        assert(t.holds(h, x));
    }
}

#[derive(Debug)]
struct Task {
    namespace: Namespace,
    heaps: Heaps,
    resident: Table<ResourceId, Resident>,
}

impl View for Task {
    type V = TaskModel;

    closed spec fn view(&self) -> TaskModel {
        TaskModel {
            slots: self.namespace.slots(),
            heaps: self.heaps.heaps(),
            resident: self.resident@,
        }
    }
}

impl Task {
    spec fn rows_wf(&self) -> bool {
        &&& self.namespace.wf()
        &&& self.heaps.wf()
        &&& self.resident.wf()
        &&& self.heaps.retiring() == Map::<BackingId, Multiset<ResourceId>>::empty()
    }

    spec fn wf(&self) -> bool {
        self.rows_wf() && self@.consistent()
    }

    fn new() -> (t: Task)
        ensures
            t.wf(),
            t@ == TaskModel::empty(),
            t.heaps.retiring() == Map::<BackingId, Multiset<ResourceId>>::empty(),
            t.namespace.retiring() == Seq::<namespace::Retiring>::empty(),
            t.namespace.counts() == (0usize, 0usize),
    {
        let t = Task { namespace: Namespace::new(), heaps: Heaps::new(), resident: Table::new() };
        assert(t@ =~= TaskModel::empty());
        t
    }

    /// Delete a live resource: its name, its row, and its place in a heap.
    fn delete(&mut self, resource: ResourceId) -> (r: Result<
        (Teardown, Resident),
        namespace::Refusal,
    >)
        requires
            old(self).wf(),
        ensures
            final(self).wf(),
            match crate::namespace::resolution(old(self)@.slots, resource) {
                Err(e) => r == Err::<(Teardown, Resident), namespace::Refusal>(e) && final(self)@
                    == old(self)@,
                Ok(_) => r == Ok::<(Teardown, Resident), namespace::Refusal>(
                    (
                        Teardown::Now { backing: old(self)@.resident[resource].storage() },
                        old(self)@.resident[resource],
                    ),
                ) && final(self)@ == old(self)@.deleted(resource),
            },
    {
        assert(self@.resident.dom().contains(resource) == (crate::namespace::resolution(self@.slots, resource)
            is Ok));
        let teardown = match self.namespace.delete(resource) {
            Ok(teardown) => teardown,
            Err(e) => {
                return Err(e);
            },
        };
        assert(old(self)@.placed_where_said(resource));
        match self.resident.remove(resource) {
            Some(resident) => {
                match resident {
                    Resident::Placed(placement) => {
                        let _ = self.heaps.remove(placement, resource);
                    },
                    Resident::Dedicated { .. } => {},
                }
                proof {
                    assert(self@ =~= old(self)@.deleted(resource));
                    lemma_deleted_consistent(old(self)@, resource);
                }
                Ok((teardown, resident))
            },
            None => Err(namespace::Refusal::NotDeclared { slot: resource.slot }),
        }
    }

    /// Resolve every name in a list before any of them takes effect.
    fn resolve_all(&mut self, resources: &Vec<ResourceId>) -> (r: Result<
        Vec<Resident>,
        namespace::Refusal,
    >)
        requires
            old(self).wf(),
        ensures
            final(self).wf(),
            final(self)@ == old(self)@,
            match old(self)@.list_refusal(resources@) {
                Some(e) => r == Err::<Vec<Resident>, namespace::Refusal>(e),
                None => r matches Ok(found) && found@ == residents_of(
                    old(self)@.resident,
                    resources@,
                ),
            },
    {
        let mut found: Vec<Resident> = Vec::new();
        let mut i: usize = 0;
        let ghost model = self@;
        while i < resources.len()
            invariant
                self.wf(),
                self@ == model,
                model == old(self)@,
                i <= resources@.len(),
                model.list_refusal(resources@.take(i as int)) is None,
                found@ == residents_of(model.resident, resources@.take(i as int)),
            decreases resources.len() - i,
        {
            let resource = resources[i];
            proof {
                assert(resources@.take(i + 1).drop_last() =~= resources@.take(i as int));
                assert(resources@.take(i + 1).last() == resource);
                assert(model.resident.dom().contains(resource) == (crate::namespace::resolution(
                    model.slots,
                    resource,
                ) is Ok));
            }
            match self.namespace.resolve(resource) {
                Ok(_) => {},
                Err(e) => {
                    proof {
                        lemma_list_refusal_extends(model, resources@, i + 1, e);
                        assert(self@ =~= model);
                    }
                    return Err(e);
                },
            }
            assert(self@ =~= model);
            match self.resident.get(resource) {
                Some(resident) => {
                    found.push(*resident);
                },
                None => {},
            }
            assert(found@ =~= residents_of(model.resident, resources@.take(i + 1)));
            i = i + 1;
        }
        assert(resources@.take(i as int) =~= resources@);
        Ok(found)
    }
}

/// Where each resource's bytes are.
pub open spec fn residents_of(
    resident: Map<ResourceId, Resident>,
    ids: Seq<ResourceId>,
) -> Seq<Resident> {
    Seq::new(ids.len(), |i: int| resident[ids[i]])
}

proof fn lemma_list_refusal_extends(
    t: TaskModel,
    ids: Seq<ResourceId>,
    n: int,
    e: namespace::Refusal,
)
    requires
        0 <= n <= ids.len(),
        t.list_refusal(ids.take(n)) == Some(e),
    ensures
        t.list_refusal(ids) == Some(e),
    decreases ids.len(),
{
    if n == ids.len() {
        assert(ids.take(n) =~= ids);
    } else {
        assert(ids.drop_last().take(n) =~= ids.take(n));
        lemma_list_refusal_extends(t, ids.drop_last(), n, e);
    }
}

/// The resource-lifecycle owner for one session generation.
///
/// Holds the per-task name and heap owners, and the one session-wide content
/// authority: a backing is reachable from more than one task, so a per-task
/// ledger would have two answers to where the current bytes are.
#[derive(Debug)]
pub struct Lifecycle {
    tasks: Table<TaskId, Task>,
    content: ContentLedger,
}

impl View for Lifecycle {
    type V = LifecycleModel;

    closed spec fn view(&self) -> LifecycleModel {
        LifecycleModel {
            tasks: Map::new(
                |t: TaskId| self.tasks@.dom().contains(t),
                |t: TaskId| self.tasks@[t]@,
            ),
            content: self.content@,
            counts: self.content.counts(),
        }
    }
}

impl Default for Lifecycle {
    fn default() -> (l: Lifecycle)
        ensures
            l.wf(),
            l@.tasks == Map::<TaskId, TaskModel>::empty(),
            l@.content == Map::<BackingId, BackingContent>::empty(),
            l@.counts == (Census {
                writes: 0,
                transfers_planned: 0,
                transfer_bytes: 0,
                reads_already_fresh: 0,
            }),
    {
        let l = Lifecycle { tasks: Table::new(), content: ContentLedger::new() };
        assert(l@.tasks =~= Map::<TaskId, TaskModel>::empty());
        l
    }
}

impl Lifecycle {
    pub closed spec fn rows_wf(&self) -> bool {
        &&& self.tasks.wf()
        &&& self.content.wf()
        &&& forall|t: TaskId| #[trigger]
            self.tasks@.dom().contains(t) ==> self.tasks@[t].rows_wf()
    }

    /// Every task's name, heap and residency records agree.
    pub open spec fn wf(&self) -> bool {
        self.rows_wf() && self@.consistent()
    }

    #[must_use]
    pub fn new() -> (l: Self)
        ensures
            l.wf(),
            l@.tasks == Map::<TaskId, TaskModel>::empty(),
            l@.content == Map::<BackingId, BackingContent>::empty(),
            l@.counts == (Census {
                writes: 0,
                transfers_planned: 0,
                transfer_bytes: 0,
                reads_already_fresh: 0,
            }),
    {
        Lifecycle::default()
    }

    /// The session's content authority.
    #[must_use]
    pub fn content(&self) -> (ledger: &ContentLedger)
        requires
            self.wf(),
        ensures
            ledger.wf(),
            ledger@ == self@.content,
            ledger.counts() == self@.counts,
    {
        &self.content
    }

    /// One row changed and the others did not.
    proof fn lemma_row(self, before: Lifecycle, task: TaskId, row: Task)
        requires
            before.wf(),
            self.tasks.wf(),
            self.content.wf(),
            self.tasks@ == before.tasks@.insert(task, row),
            row.wf(),
        ensures
            self.wf(),
            self@.tasks == before@.tasks.insert(task, row@),
    {
        assert(self@.tasks =~= before@.tasks.insert(task, row@));
        assert forall|t: TaskId| #[trigger] self@.tasks.dom().contains(t) implies self@.tasks[t].consistent() by {
            if t != task {
                assert(before@.tasks.dom().contains(t));
            }
        }
        assert forall|t: TaskId| #[trigger]
            self.tasks@.dom().contains(t) implies self.tasks@[t].rows_wf() by {
            if t != task {
                assert(before.tasks@.dom().contains(t));
            }
        }
    }

    /// Only the content changed.
    proof fn lemma_content_only(self, before: Lifecycle)
        requires
            before.wf(),
            self.content.wf(),
            self.tasks == before.tasks,
        ensures
            self.wf(),
            self@.tasks == before@.tasks,
    {
        assert(self@.tasks =~= before@.tasks);
    }

    /// A task's row is in order.
    proof fn lemma_task_wf(self, task: TaskId)
        requires
            self.wf(),
            self.tasks@.dom().contains(task),
        ensures
            self.tasks@[task].wf(),
            self@.tasks.dom().contains(task),
            self@.tasks[task] == self.tasks@[task]@,
    {
        assert(self@.tasks.dom().contains(task));
    }

    /// Declare a heap into a task.
    pub fn declare_heap(&mut self, task: TaskId, heap: u64, backing: BackingId, length: u64) -> (r:
        Result<(), Refusal>)
        requires
            old(self).wf(),
        ensures
            final(self).wf(),
            match old(self)@.heap_declaration(task, heap, backing, length) {
                Err(e) => r == Err::<(), Refusal>(e) && final(self)@ == old(self)@,
                Ok(next) => r is Ok && final(self)@ == next,
            },
    {
        let i = match self.tasks.find(task) {
            Some(i) => i,
            None => {
                return Err(Refusal::NoSuchTask { task });
            },
        };
        proof {
            old(self).lemma_task_wf(task);
        }
        let t = self.tasks.value_mut(i);
        let outcome = t.heaps.create(heap, backing, length);
        proof {
            let row = self.tasks@[task];
            let was = old(self).tasks@[task]@;
            let fresh = HeapModel {
                backing,
                length,
                membership_generation: 0,
                placements: Map::empty(),
            };
            if outcome is Ok {
                lemma_heap_declared_consistent(was, heap, fresh);
                assert(row@ =~= (TaskModel { heaps: was.heaps.insert(heap, fresh), ..was }));
            } else {
                assert(row@ =~= was);
                assert(old(self)@.tasks.insert(task, was) =~= old(self)@.tasks);
            }
            self.lemma_row(*old(self), task, row);
        }
        match outcome {
            Ok(()) => Ok(()),
            Err(refusal) => Err(Refusal::Heap { task, refusal }),
        }
    }
}

impl Lifecycle {
    /// Define a task.
    fn define_task(&mut self, task: TaskId) -> (r: Result<Effects, Refusal>)
        requires
            old(self).wf(),
        ensures
            final(self).wf(),
            old(self)@.tasks.dom().contains(task) ==> r == Err::<Effects, Refusal>(
                Refusal::TaskExists { task },
            ) && final(self)@ == old(self)@,
            !old(self)@.tasks.dom().contains(task) ==> (r matches Ok(e) && e@
                == EffectsModel::none()) && final(self)@ == old(self)@.with(
                task,
                TaskModel::empty(),
                old(self)@.content,
            ),
    {
        if self.tasks.contains(task) {
            return Err(Refusal::TaskExists { task });
        }
        let fresh = Task::new();
        let ghost row = fresh;
        self.tasks.insert(task, fresh);
        proof {
            self.lemma_row(*old(self), task, row);
        }
        Ok(Effects::default())
    }

    /// Delete one live resource and the content that goes with its own pages.
    fn delete_resource(&mut self, task: TaskId, resource: ResourceId) -> (r: Result<
        Effects,
        Refusal,
    >)
        requires
            old(self).wf(),
            old(self)@.tasks.dom().contains(task),
        ensures
            final(self).wf(),
            match crate::namespace::resolution(old(self)@.tasks[task].slots, resource) {
                Err(refusal) => r == Err::<Effects, Refusal>(Refusal::Namespace { task, refusal })
                    && final(self)@ == old(self)@,
                Ok(_) => (r matches Ok(e) && e@ == (EffectsModel {
                    teardowns: old(self)@.tasks[task].teardowns(seq![resource]),
                    ..EffectsModel::none()
                })) && final(self)@ == old(self)@.with(
                    task,
                    old(self)@.tasks[task].deleted(resource),
                    content_without(
                        old(self)@.content,
                        old(self)@.tasks[task].resident,
                        seq![resource],
                    ),
                ),
            },
    {
        let i = match self.tasks.find(task) {
            Some(i) => i,
            None => {
                return Err(Refusal::NoSuchTask { task });
            },
        };
        let ghost model = self@.tasks[task];
        proof {
            old(self).lemma_task_wf(task);
        }
        let t = self.tasks.value_mut(i);
        let outcome = t.delete(resource);
        proof {
            self.lemma_row(*old(self), task, self.tasks@[task]);
        }
        match outcome {
            Err(refusal) => {
                assert(old(self)@.tasks.insert(task, model) =~= old(self)@.tasks);
                Err(Refusal::Namespace { task, refusal })
            },
            Ok((teardown, resident)) => {
                let mut effects = Effects::default();
                effects.teardowns.push(teardown);
                proof {
                    let one = seq![resource];
                    assert(one.drop_last() =~= Seq::<ResourceId>::empty());
                    assert(content_without(
                        old(self)@.content,
                        model.resident,
                        one.drop_last(),
                    ) == old(self)@.content);
                    assert(effects@ =~= (EffectsModel {
                        teardowns: model.teardowns(one),
                        ..EffectsModel::none()
                    }));
                }
                match resident {
                    // Nothing else names a resource's own pages, so the content
                    // goes with the backing.
                    Resident::Dedicated { backing, .. } => {
                        self.content.forget(backing);
                    },
                    Resident::Placed(_) => {},
                }
                proof {
                    self.lemma_row(*old(self), task, self.tasks@[task]);
                }
                Ok(effects)
            },
        }
    }

    /// Delete a task: every live name ascending, then every heap ascending.
    fn delete_task(&mut self, task: TaskId) -> (r: Result<Effects, Refusal>)
        requires
            old(self).wf(),
            old(self)@.tasks.dom().contains(task),
        ensures
            final(self).wf(),
            r is Ok,
            r->Ok_0@ == (EffectsModel {
                teardowns: old(self)@.tasks[task].teardowns(old(self)@.tasks[task].names()),
                storage_freed: old(self)@.tasks[task].heap_storage(),
                ..EffectsModel::none()
            }),
            final(self)@ == (LifecycleModel {
                tasks: old(self)@.tasks.remove(task),
                content: forgotten(
                    content_without(
                        old(self)@.content,
                        old(self)@.tasks[task].resident,
                        old(self)@.tasks[task].names(),
                    ),
                    old(self)@.tasks[task].heap_storage(),
                ),
                ..old(self)@
            }),
    {
        let mut effects = Effects::default();
        proof {
            old(self).lemma_task_wf(task);
        }
        let ghost model = self@.tasks[task];
        let mut t = match self.tasks.remove(task) {
            Some(t) => t,
            None => {
                return Err(Refusal::NoSuchTask { task });
            },
        };
        proof {
            assert(self@.tasks =~= old(self)@.tasks.remove(task));
            assert forall|x: TaskId| #[trigger] self@.tasks.dom().contains(x) implies self@.tasks[x].consistent() by {
                assert(old(self)@.tasks.dom().contains(x));
            }
            assert forall|x: TaskId| #[trigger]
                self.tasks@.dom().contains(x) implies self.tasks@[x].rows_wf() by {
                assert(old(self).tasks@.dom().contains(x));
            }
        }
        let names = t.namespace.live_names();
        proof {
            lemma_is_names(model, names@);
        }
        let ghost content = self.content@;
        let ghost tasks = self@.tasks;
        let ghost counts = self@.counts;
        let mut i: usize = 0;
        while i < names.len()
            invariant
                i <= names@.len(),
                lists_names(model.slots, names@),
                model.consistent(),
                t.wf(),
                t@ == model.all_deleted(names@.take(i as int)),
                self.wf(),
                self@.tasks == tasks,
                self@.counts == counts,
                self@.content == content_without(content, model.resident, names@.take(i as int)),
                effects@ =~= (EffectsModel {
                    teardowns: model.teardowns(names@.take(i as int)),
                    ..EffectsModel::none()
                }),
            decreases names.len() - i,
        {
            let name = names[i];
            proof {
                assert(names@.take(i + 1).drop_last() =~= names@.take(i as int));
                assert(names@.take(i + 1).last() == name);
                lemma_listed_resident(model, names@);
                lemma_still_there(model, names@, i as int);
            }
            match t.delete(name) {
                Ok((teardown, resident)) => {
                    effects.teardowns.push(teardown);
                    match resident {
                        Resident::Dedicated { backing, .. } => {
                            self.content.forget(backing);
                        },
                        Resident::Placed(_) => {},
                    }
                },
                Err(_) => {},
            }
            assert(effects@ =~= (EffectsModel {
                teardowns: model.teardowns(names@.take(i + 1)),
                ..EffectsModel::none()
            }));
            i = i + 1;
        }
        assert(names@.take(i as int) =~= names@);
        let heaps = t.heaps.live_heaps();
        proof {
            lemma_emptied(model, names@);
            lemma_is_heap_numbers(t@, heaps@);
            lemma_listed_resident(model, names@);
            lemma_same_heaps(model, names@);
            assert(lists_heaps(model.heaps, heaps@)) by {
                assert forall|h: u64| #[trigger]
                    heaps@.contains(h) == model.heaps.dom().contains(h) by {
                    assert(heaps@.contains(h) == t@.heaps.dom().contains(h));
                }
            }
            lemma_is_heap_numbers(model, heaps@);
        }
        let ghost remaining = t@.heaps;
        let ghost content2 = self@.content;
        let mut j: usize = 0;
        while j < heaps.len()
            invariant
                j <= heaps@.len(),
                lists_heaps(remaining, heaps@),
                forall|h: u64| #[trigger]
                    remaining.dom().contains(h) ==> remaining[h].placements.dom() =~= Set::<
                        ResourceId,
                    >::empty() && model.heaps.dom().contains(h) && model.heaps[h].backing
                        == remaining[h].backing,
                model.heap_numbers() == heaps@,
                t.heaps.wf(),
                t.heaps.retiring() == Map::<BackingId, Multiset<ResourceId>>::empty(),
                forall|h: u64| #[trigger]
                    t.heaps.heaps().dom().contains(h) == (remaining.dom().contains(h)
                        && !heaps@.take(j as int).contains(h)),
                forall|h: u64| #[trigger]
                    t.heaps.heaps().dom().contains(h) ==> t.heaps.heaps()[h] == remaining[h],
                self.wf(),
                self@.tasks == tasks,
                self@.counts == counts,
                self@.content == forgotten(content2, freed_by(model.heap_backings(), j as int)),
                effects@ =~= (EffectsModel {
                    teardowns: model.teardowns(names@),
                    storage_freed: freed_by(model.heap_backings(), j as int),
                    ..EffectsModel::none()
                }),
            decreases heaps.len() - j,
        {
            let heap = heaps[j];
            proof {
                assert(heaps@.contains(heap));
                assert(remaining.dom().contains(heap));
                assert(!heaps@.take(j as int).contains(heap)) by {
                    if heaps@.take(j as int).contains(heap) {
                        let k = choose|k: int|
                            0 <= k < heaps@.take(j as int).len() && heaps@.take(j as int)[k]
                                == heap;
                        assert(heaps@[k] < heaps@[j as int]);
                    }
                }
                assert(t.heaps.heaps().dom().contains(heap));
                assert(remaining[heap].placements.dom().len() == 0);
            }
            let ghost before = t.heaps.heaps();
            proof {
                broadcast use vstd::multiset::group_multiset_axioms;

                t.heaps.placements_are_counted(heap);
                assert(crate::heap::left_in(t.heaps.retiring(), before[heap].backing).add(
                    Multiset::from_set(before[heap].placements.dom()),
                ) =~= Multiset::empty()) by {
                    assert forall|r: ResourceId|
                        #[trigger] Multiset::from_set(before[heap].placements.dom()).count(r)
                            == 0 by {
                        crate::heap::lemma_once(before[heap].placements.dom(), r);
                    }
                }
                lemma_last_over(model, remaining, before, heaps@, j as int);
            }
            let outcome = t.heaps.delete(heap);
            proof {
                assert(t.heaps.retiring() =~= Map::<BackingId, Multiset<ResourceId>>::empty());
                let backings = model.heap_backings();
                let freed = freed_by(backings, j as int);
                assert(backings[j as int] == before[heap].backing);
                assert(freed.push(before[heap].backing).drop_last() =~= freed);
            }
            match outcome {
                Ok(Retirement::StorageFree { backing }) => {
                    effects.storage_freed.push(backing);
                    self.content.forget(backing);
                },
                _ => {},
            }
            proof {
                assert(effects@.storage_freed =~= freed_by(model.heap_backings(), j + 1));
                assert forall|h: u64| #[trigger]
                    t.heaps.heaps().dom().contains(h) == (remaining.dom().contains(h)
                        && !heaps@.take(j + 1).contains(h)) by {
                    assert(before.dom().contains(h) == (remaining.dom().contains(h)
                        && !heaps@.take(j as int).contains(h)));
                    lemma_take_contains(heaps@, j as int, h);
                }
                assert forall|h: u64| #[trigger]
                    t.heaps.heaps().dom().contains(h) implies t.heaps.heaps()[h] == remaining[h] by {
                    assert(before.dom().contains(h));
                }
            }
            j = j + 1;
        }
        Ok(effects)
    }
}

/// Once the first `j` heaps and the next are gone, another is over the next
/// one's backing exactly when a later one is.
proof fn lemma_last_over(
    model: TaskModel,
    remaining: Map<u64, HeapModel>,
    live: Map<u64, HeapModel>,
    numbers: Seq<u64>,
    j: int,
)
    requires
        0 <= j < numbers.len(),
        lists_heaps(remaining, numbers),
        model.heap_numbers() == numbers,
        forall|h: u64| #[trigger]
            remaining.dom().contains(h) ==> model.heaps.dom().contains(h)
                && model.heaps[h].backing == remaining[h].backing,
        forall|h: u64| #[trigger]
            live.dom().contains(h) == (remaining.dom().contains(h) && !numbers.take(j).contains(
                h,
            )),
        forall|h: u64| #[trigger] live.dom().contains(h) ==> live[h] == remaining[h],
        live.dom().contains(numbers[j]),
    ensures
        crate::heap::backs_live(live.remove(numbers[j]), live[numbers[j]].backing)
            == model.heap_backings().skip(j + 1).contains(live[numbers[j]].backing),
        model.heap_backings()[j] == live[numbers[j]].backing,
{
    let backing = live[numbers[j]].backing;
    let rest = live.remove(numbers[j]);
    let later = model.heap_backings().skip(j + 1);
    assert(numbers.contains(numbers[j]));
    if crate::heap::backs_live(rest, backing) {
        let h = choose|h: u64| #[trigger] rest.dom().contains(h) && rest[h].backing == backing;
        assert(live.dom().contains(h));
        assert(numbers.contains(h));
        let k = choose|k: int| 0 <= k < numbers.len() && numbers[k] == h;
        if k < j {
            assert(numbers.take(j)[k] == h);
        }
        assert(later[k - (j + 1)] == backing);
    }
    if later.contains(backing) {
        let x = choose|x: int| 0 <= x < later.len() && later[x] == backing;
        let k = x + j + 1;
        let h = numbers[k];
        assert(numbers.contains(h));
        assert(remaining.dom().contains(h));
        if numbers.take(j).contains(h) {
            let y = choose|y: int| 0 <= y < numbers.take(j).len() && numbers.take(j)[y] == h;
            assert(numbers[y] < numbers[k]);
        }
        assert(numbers[j] < numbers[k]);
        assert(live.dom().contains(h));
        assert(rest.dom().contains(h));
        assert(rest[h].backing == backing);
    }
}

proof fn lemma_take_contains(s: Seq<u64>, n: int, x: u64)
    requires
        0 <= n < s.len(),
    ensures
        s.take(n + 1).contains(x) == (s.take(n).contains(x) || s[n] == x),
{
    if s.take(n).contains(x) {
        let k = choose|k: int| 0 <= k < s.take(n).len() && s.take(n)[k] == x;
        assert(s.take(n + 1)[k] == x);
    }
    if s[n] == x {
        assert(s.take(n + 1)[n] == x);
    }
    if s.take(n + 1).contains(x) {
        let w = s.take(n + 1);
        let k = choose|k: int| 0 <= k < w.len() && w[k] == x;
        if k < n {
            assert(s.take(n)[k] == x);
        }
    }
}

/// Deleting some of the live names leaves a later one as it was.
proof fn lemma_still_there(t: TaskModel, names: Seq<ResourceId>, n: int)
    requires
        t.consistent(),
        crate::namespace::by_slot(names),
        forall|i: int| 0 <= i < names.len() ==> t.resident.dom().contains(#[trigger] names[i]),
        0 <= n < names.len(),
    ensures
        crate::namespace::resolution(t.all_deleted(names.take(n)).slots, names[n]) is Ok,
        t.all_deleted(names.take(n)).resident.dom().contains(names[n]),
        t.all_deleted(names.take(n)).resident[names[n]] == t.resident[names[n]],
{
    lemma_left_alone(t, names.take(n), names[n]);
    assert(t.resident.dom().contains(names[n]));
}

/// Deleting resources leaves one in another slot as it was.
proof fn lemma_left_alone(t: TaskModel, ids: Seq<ResourceId>, id: ResourceId)
    requires
        forall|i: int| 0 <= i < ids.len() ==> (#[trigger] ids[i]).slot != id.slot,
    ensures
        crate::namespace::resolution(t.all_deleted(ids).slots, id) == crate::namespace::resolution(t.slots, id),
        t.all_deleted(ids).resident.dom().contains(id) == t.resident.dom().contains(id),
        t.all_deleted(ids).resident[id] == t.resident[id],
    decreases ids.len(),
{
    if ids.len() > 0 {
        lemma_left_alone(t, ids.drop_last(), id);
        assert(ids.last().slot != id.slot);
    }
}

/// Deleting resources keeps the heaps' numbers and storage, and the records in
/// agreement.
proof fn lemma_same_heaps(t: TaskModel, ids: Seq<ResourceId>)
    requires
        t.consistent(),
        crate::namespace::by_slot(ids),
        forall|i: int| 0 <= i < ids.len() ==> t.resident.dom().contains(#[trigger] ids[i]),
    ensures
        t.all_deleted(ids).consistent(),
        t.all_deleted(ids).heaps.dom() == t.heaps.dom(),
        forall|h: u64| #[trigger]
            t.heaps.dom().contains(h) ==> t.all_deleted(ids).heaps[h].backing
                == t.heaps[h].backing,
    decreases ids.len(),
{
    if ids.len() > 0 {
        let rest = ids.drop_last();
        lemma_same_heaps(t, rest);
        lemma_left_alone(t, rest, ids.last());
        let before = t.all_deleted(rest);
        assert(t.resident.dom().contains(ids[ids.len() - 1]));
        lemma_deleted_consistent(before, ids.last());
        assert(before.placed_where_said(ids.last()));
        assert(before.deleted(ids.last()).heaps.dom() =~= t.heaps.dom());
    }
}

/// Deleting every live name empties every heap.
proof fn lemma_emptied(t: TaskModel, names: Seq<ResourceId>)
    requires
        t.consistent(),
        lists_names(t.slots, names),
    ensures
        forall|h: u64| #[trigger]
            t.all_deleted(names).heaps.dom().contains(h) ==> t.all_deleted(names).heaps[h].placements.dom()
                =~= Set::<ResourceId>::empty() && t.heaps.dom().contains(h) && t.heaps[h].backing
                == t.all_deleted(names).heaps[h].backing,
{
    let n = t.all_deleted(names);
    lemma_listed_resident(t, names);
    lemma_same_heaps(t, names);
    assert forall|h: u64| #[trigger]
        n.heaps.dom().contains(h) implies n.heaps[h].placements.dom() =~= Set::<
        ResourceId,
    >::empty() && t.heaps.dom().contains(h) && t.heaps[h].backing == n.heaps[h].backing by {
        assert forall|x: ResourceId| !n.heaps[h].placements.dom().contains(x) by {
            if n.heaps[h].placements.dom().contains(x) {
                assert(n.holds(h, x));
                assert(n.resident.dom().contains(x));
                lemma_only_shrinks(t, names, x);
                assert(t.resident.dom().contains(x) == (crate::namespace::resolution(t.slots, x) is Ok));
                assert(names.contains(x));
                let k = choose|k: int| 0 <= k < names.len() && names[k] == x;
                lemma_gone(t, names, k);
            }
        }
    }
}

/// Every listed name is resident.
proof fn lemma_listed_resident(t: TaskModel, names: Seq<ResourceId>)
    requires
        t.consistent(),
        lists_names(t.slots, names),
    ensures
        forall|i: int| 0 <= i < names.len() ==> t.resident.dom().contains(#[trigger] names[i]),
{
    assert forall|i: int| 0 <= i < names.len() implies t.resident.dom().contains(
        #[trigger] names[i],
    ) by {
        assert(names.contains(names[i]));
    }
}

/// Deleting resources adds none.
proof fn lemma_only_shrinks(t: TaskModel, ids: Seq<ResourceId>, id: ResourceId)
    requires
        t.all_deleted(ids).resident.dom().contains(id),
    ensures
        t.resident.dom().contains(id),
    decreases ids.len(),
{
    if ids.len() > 0 {
        lemma_only_shrinks(t, ids.drop_last(), id);
    }
}

/// A deleted resource is gone.
proof fn lemma_gone(t: TaskModel, ids: Seq<ResourceId>, k: int)
    requires
        0 <= k < ids.len(),
    ensures
        !t.all_deleted(ids).resident.dom().contains(ids[k]),
    decreases ids.len(),
{
    if k < ids.len() - 1 {
        assert(ids.drop_last()[k] == ids[k]);
        lemma_gone(t, ids.drop_last(), k);
    }
}

impl Lifecycle {
    /// Declare a resource into a slot.
    ///
    /// The heap window is checked before a name is published, so a refused
    /// placement leaves nothing behind.
    fn create_resource(&mut self, task: TaskId, slot: ObjectListRef, storage: Storage) -> (r:
        Result<Effects, Refusal>)
        requires
            old(self).wf(),
            old(self)@.tasks.dom().contains(task),
        ensures
            final(self).wf(),
            match old(self)@.creation(task, slot, storage) {
                Err(e) => r == Err::<Effects, Refusal>(e) && final(self)@ == old(self)@,
                Ok(next) => (r matches Ok(e) && e@ == EffectsModel::none()) && final(self)@ == next,
            },
    {
        let i = match self.tasks.find(task) {
            Some(i) => i,
            None => {
                return Err(Refusal::NoSuchTask { task });
            },
        };
        let ghost model = self@.tasks[task];
        proof {
            old(self).lemma_task_wf(task);
        }
        match storage {
            Storage::Dedicated { backing, extent } => {
                let resident = Resident::Dedicated { backing, extent };
                let t = self.tasks.value_mut(i);
                let id = match t.namespace.declare(slot, backing) {
                    Ok(id) => id,
                    Err(refusal) => {
                        proof {
                            assert(self.tasks@ =~= old(self).tasks@);
                        }
                        return Err(Refusal::Namespace { task, refusal });
                    },
                };
                t.resident.insert(id, resident);
                // The guest supplied the pages and holds all of the content, so
                // this is a declaration and not a write.
                self.content.declare(backing, extent, Replica::GuestPages);
                proof {
                    lemma_created_consistent(model, slot, resident);
                    assert(id == model.next_id(slot));
                    assert(self.tasks@[task]@ =~= model.created(slot, resident));
                    self.lemma_row(*old(self), task, self.tasks@[task]);
                }
                Ok(Effects::default())
            },
            Storage::Placed { heap, offset, length } => {
                let backing = match self.tasks.value(i).heaps.backing_of(heap) {
                    Ok(backing) => backing,
                    Err(refusal) => {
                        return Err(Refusal::Heap { task, refusal });
                    },
                };
                let id = match self.tasks.value(i).namespace.vacancy(slot) {
                    Ok(id) => id,
                    Err(refusal) => {
                        return Err(Refusal::Namespace { task, refusal });
                    },
                };
                let region = ByteRange { offset, length };
                let ghost resident = Resident::Placed(HeapPlacement { heap, backing, region });
                proof {
                    lemma_created_consistent(model, slot, resident);
                    assert(id == model.next_id(slot));
                    assert(!model.holds(heap, id));
                }
                let t = self.tasks.value_mut(i);
                let placement = match t.heaps.place(heap, id, offset, length) {
                    Ok(placement) => placement,
                    Err(refusal) => {
                        proof {
                            assert(self.tasks@ =~= old(self).tasks@);
                        }
                        return Err(Refusal::Heap { task, refusal });
                    },
                };
                let _ = t.namespace.declare(slot, backing);
                t.resident.insert(id, Resident::Placed(placement));
                // A window of a heap, so the authority is about those bytes
                // alone: declaring the whole backing would discard the
                // neighbours' content.
                self.content.write(placement.backing, placement.region, Replica::GuestPages);
                proof {
                    assert(self.tasks@[task]@ =~= model.created(slot, resident));
                    self.lemma_row(*old(self), task, self.tasks@[task]);
                    reveal_with_fuel(counts_written, 2);
                }
                Ok(Effects::default())
            },
        }
    }

    /// Give a name a mapping, or take it away.
    fn set_mapping(&mut self, task: TaskId, resource: ResourceId, mapped: bool) -> (r: Result<
        Effects,
        Refusal,
    >)
        requires
            old(self).wf(),
            old(self)@.tasks.dom().contains(task),
        ensures
            final(self).wf(),
            match old(self)@.mapping(task, resource, mapped) {
                Err(e) => r == Err::<Effects, Refusal>(e) && final(self)@ == old(self)@,
                Ok(next) => (r matches Ok(e) && e@ == EffectsModel::none()) && final(self)@ == next,
            },
    {
        let i = match self.tasks.find(task) {
            Some(i) => i,
            None => {
                return Err(Refusal::NoSuchTask { task });
            },
        };
        let ghost model = self@.tasks[task];
        proof {
            old(self).lemma_task_wf(task);
        }
        let t = self.tasks.value_mut(i);
        let outcome = if mapped {
            t.namespace.map(resource)
        } else {
            t.namespace.unmap(resource)
        };
        proof {
            if outcome is Ok {
                lemma_mapping_consistent(model, resource, mapped);
                assert(self.tasks@[task]@ =~= model.with_mapping(resource, mapped));
            } else {
                assert(self.tasks@[task]@ =~= model);
                assert(old(self)@.tasks.insert(task, model) =~= old(self)@.tasks);
            }
            self.lemma_row(*old(self), task, self.tasks@[task]);
        }
        match outcome {
            Ok(()) => Ok(Effects::default()),
            Err(refusal) => Err(Refusal::Namespace { task, refusal }),
        }
    }

    /// Re-point a resource at different pages.
    fn replace_physical(
        &mut self,
        task: TaskId,
        resource: ResourceId,
        backing: BackingId,
        extent: ByteRange,
    ) -> (r: Result<Effects, Refusal>)
        requires
            old(self).wf(),
            old(self)@.tasks.dom().contains(task),
        ensures
            final(self).wf(),
            ({
                let t = old(self)@.tasks[task];
                match crate::namespace::resolution(t.slots, resource) {
                    Err(refusal) => r == Err::<Effects, Refusal>(
                        Refusal::Namespace { task, refusal },
                    ) && final(self)@ == old(self)@,
                    Ok(_) => if t.resident[resource] is Placed {
                        r == Err::<Effects, Refusal>(
                            Refusal::PlacedResourceHasNoPhysical { resource },
                        ) && final(self)@ == old(self)@
                    } else {
                        (r matches Ok(e) && e@ == (EffectsModel {
                            teardowns: t.teardowns(seq![resource]),
                            ..EffectsModel::none()
                        })) && final(self)@ == old(self)@.with(
                            task,
                            t.repointed(resource, backing, extent),
                            old(self)@.content.insert(
                                backing,
                                crate::content::content_at(old(self)@.content, backing).declared(
                                    extent,
                                    Replica::GuestPages,
                                ),
                            ).remove(t.resident[resource].storage()),
                        )
                    },
                }
            }),
    {
        let i = match self.tasks.find(task) {
            Some(i) => i,
            None => {
                return Err(Refusal::NoSuchTask { task });
            },
        };
        let ghost model = self@.tasks[task];
        proof {
            old(self).lemma_task_wf(task);
            assert(model.resident.dom().contains(resource) == (crate::namespace::resolution(model.slots, resource)
                is Ok));
        }
        match self.tasks.value(i).resident.get(resource) {
            Some(Resident::Placed(_)) => {
                return Err(Refusal::PlacedResourceHasNoPhysical { resource });
            },
            _ => {},
        }
        let t = self.tasks.value_mut(i);
        let teardown = match t.namespace.replace_physical(resource, backing) {
            Ok(teardown) => teardown,
            Err(refusal) => {
                proof {
                    assert(self.tasks@[task]@ =~= model);
                    assert(old(self)@.tasks.insert(task, model) =~= old(self)@.tasks);
                    self.lemma_row(*old(self), task, self.tasks@[task]);
                }
                return Err(Refusal::Namespace { task, refusal });
            },
        };
        t.resident.insert(resource, Resident::Dedicated { backing, extent });
        // The new pages are the guest's, and every copy of the old ones is of
        // memory this resource no longer names.
        self.content.declare(backing, extent, Replica::GuestPages);
        match teardown {
            Teardown::Now { backing: old_backing } => {
                self.content.forget(old_backing);
            },
            Teardown::WhenUsesRetire { .. } => {},
        }
        let mut effects = Effects::default();
        effects.teardowns.push(teardown);
        proof {
            lemma_repointed_consistent(model, resource, backing, extent);
            assert(self.tasks@[task]@ =~= model.repointed(resource, backing, extent));
            self.lemma_row(*old(self), task, self.tasks@[task]);
            assert(effects@ =~= (EffectsModel {
                teardowns: model.teardowns(seq![resource]),
                ..EffectsModel::none()
            }));
        }
        Ok(effects)
    }

    /// Resolve a list against one task.
    fn resolve_all(&mut self, task: TaskId, resources: &Vec<ResourceId>) -> (r: Result<
        Vec<Resident>,
        Refusal,
    >)
        requires
            old(self).wf(),
            old(self)@.tasks.dom().contains(task),
        ensures
            final(self).wf(),
            final(self)@ == old(self)@,
            match old(self)@.tasks[task].list_refusal(resources@) {
                Some(refusal) => r == Err::<Vec<Resident>, Refusal>(
                    Refusal::Namespace { task, refusal },
                ),
                None => r matches Ok(found) && found@ == residents_of(
                    old(self)@.tasks[task].resident,
                    resources@,
                ),
            },
    {
        let i = match self.tasks.find(task) {
            Some(i) => i,
            None => {
                return Err(Refusal::NoSuchTask { task });
            },
        };
        let ghost model = self@.tasks[task];
        proof {
            old(self).lemma_task_wf(task);
        }
        let t = self.tasks.value_mut(i);
        let outcome = t.resolve_all(resources);
        proof {
            self.lemma_row(*old(self), task, self.tasks@[task]);
            assert(old(self)@.tasks.insert(task, model) =~= old(self)@.tasks);
        }
        match outcome {
            Ok(found) => Ok(found),
            Err(refusal) => Err(Refusal::Namespace { task, refusal }),
        }
    }

    /// The guest's pages are the current content of each resource.
    fn invalidate(&mut self, task: TaskId, resources: &Vec<ResourceId>) -> (r: Result<
        Effects,
        Refusal,
    >)
        requires
            old(self).wf(),
            old(self)@.tasks.dom().contains(task),
        ensures
            final(self).wf(),
            match old(self)@.tasks[task].list_refusal(resources@) {
                Some(refusal) => r == Err::<Effects, Refusal>(Refusal::Namespace { task, refusal })
                    && final(self)@ == old(self)@,
                None => (r matches Ok(e) && e@ == EffectsModel::none()) && final(self)@ == (
                LifecycleModel {
                    content: content_invalidated(
                        old(self)@.content,
                        old(self)@.tasks[task].resident,
                        resources@,
                    ),
                    counts: counts_written(old(self)@.counts, resources@.len()),
                    ..old(self)@
                }),
            },
    {
        let found = match self.resolve_all(task, resources) {
            Ok(found) => found,
            Err(e) => {
                return Err(e);
            },
        };
        let ghost before = self@;
        let ghost resident = self@.tasks[task].resident;
        let mut i: usize = 0;
        while i < found.len()
            invariant
                i <= found@.len(),
                found@ == residents_of(resident, resources@),
                self.wf(),
                self@ == (LifecycleModel {
                    content: content_invalidated(
                        before.content,
                        resident,
                        resources@.take(i as int),
                    ),
                    counts: counts_written(before.counts, i as nat),
                    ..before
                }),
            decreases found.len() - i,
        {
            proof {
                assert(resources@.take(i + 1).drop_last() =~= resources@.take(i as int));
                assert(resources@.take(i + 1).last() == resources@[i as int]);
            }
            let row = found[i];
            let ghost previous = *self;
            self.content.write(row.backing(), row.extent(), Replica::GuestPages);
            proof {
                self.lemma_content_only(previous);
            }
            i = i + 1;
        }
        assert(resources@.take(i as int) =~= resources@);
        Ok(Effects::default())
    }

    /// The guest is about to read each resource's pages: owe the copies.
    fn synchronize(&mut self, task: TaskId, resources: &Vec<ResourceId>, then_discard: bool) -> (r:
        Result<Effects, Refusal>)
        requires
            old(self).wf(),
            old(self)@.tasks.dom().contains(task),
        ensures
            final(self).wf(),
            match old(self)@.synchronization(task, resources@, then_discard) {
                Err(e) => r == Err::<Effects, Refusal>(e) && final(self)@ == old(self)@,
                Ok((next, fx)) => (r matches Ok(e) && e@ == fx) && final(self)@ == next,
            },
    {
        let found = match self.resolve_all(task, resources) {
            Ok(found) => found,
            Err(e) => {
                return Err(e);
            },
        };
        let ghost before = self@;
        let ghost resident = self@.tasks[task].resident;
        let mut effects = Effects::default();
        let mut i: usize = 0;
        while i < found.len()
            invariant
                i <= found@.len(),
                found@ == residents_of(resident, resources@),
                self.wf(),
                self@ == (LifecycleModel {
                    counts: counts_synchronized(
                        before.counts,
                        before.content,
                        resident,
                        resources@.take(i as int),
                    ),
                    ..before
                }),
                effects@ =~= (EffectsModel {
                    transfers: transfers_owed(before.content, resident, resources@.take(i as int)),
                    at_completion: if then_discard {
                        discards_of(resident, resources@.take(i as int))
                    } else {
                        Seq::empty()
                    },
                    ..EffectsModel::none()
                }),
            decreases found.len() - i,
        {
            let ghost so_far = resources@.take(i as int);
            let ghost next = resources@.take(i + 1);
            proof {
                assert(next.drop_last() =~= so_far);
                assert(next.last() == resources@[i as int]);
            }
            let row = found[i];
            let backing = row.backing();
            let extent = row.extent();
            let ghost transfers = effects.transfers@;
            let ghost previous = *self;
            match self.content.transfer_for_read(backing, extent, Replica::GuestPages) {
                Some(transfer) => {
                    effects.transfers.push(transfer);
                    assert(transfers_of(effects.transfers@) =~= transfers_of(transfers).push(
                        transfer@,
                    ));
                },
                None => {},
            }
            if then_discard {
                effects.at_completion.push(
                    DeferredDiscard { resource: resources[i], backing, bytes: extent },
                );
            }
            proof {
                self.lemma_content_only(previous);
                assert(discards_of(resident, next) =~= discards_of(resident, so_far).push(
                    DeferredDiscard {
                        resource: resources@[i as int],
                        backing,
                        bytes: extent,
                    },
                ));
            }
            i = i + 1;
        }
        assert(resources@.take(i as int) =~= resources@);
        Ok(effects)
    }

    /// Offer each resource's device copy for release.
    fn discard(&mut self, task: TaskId, resources: &Vec<ResourceId>) -> (r: Result<
        Effects,
        Refusal,
    >)
        requires
            old(self).wf(),
            old(self)@.tasks.dom().contains(task),
        ensures
            final(self).wf(),
            final(self)@ == old(self)@,
            match old(self)@.tasks[task].list_refusal(resources@) {
                Some(refusal) => r == Err::<Effects, Refusal>(Refusal::Namespace { task, refusal }),
                None => r matches Ok(e) && e@ == (EffectsModel {
                    at_completion: discards_of(old(self)@.tasks[task].resident, resources@),
                    ..EffectsModel::none()
                }),
            },
    {
        let found = match self.resolve_all(task, resources) {
            Ok(found) => found,
            Err(e) => {
                return Err(e);
            },
        };
        let ghost resident = self@.tasks[task].resident;
        let mut effects = Effects::default();
        let mut i: usize = 0;
        while i < found.len()
            invariant
                i <= found@.len(),
                found@ == residents_of(resident, resources@),
                effects@ =~= (EffectsModel {
                    at_completion: discards_of(resident, resources@.take(i as int)),
                    ..EffectsModel::none()
                }),
            decreases found.len() - i,
        {
            let row = found[i];
            effects.at_completion.push(
                DeferredDiscard {
                    resource: resources[i],
                    backing: row.backing(),
                    bytes: row.extent(),
                },
            );
            assert(effects@.at_completion =~= discards_of(resident, resources@.take(i + 1)));
            i = i + 1;
        }
        assert(resources@.take(i as int) =~= resources@);
        Ok(effects)
    }
}

impl Lifecycle {
    /// Retire a backing: delete every live name whose bytes are in it.
    fn delete_backing(&mut self, task: TaskId, backing: BackingId) -> (r: Result<Effects, Refusal>)
        requires
            old(self).wf(),
            old(self)@.tasks.dom().contains(task),
        ensures
            final(self).wf(),
            ({
                let t = old(self)@.tasks[task];
                &&& r is Ok
                &&& r->Ok_0@ == (EffectsModel {
                    teardowns: t.teardowns(t.names_in(backing)),
                    ..EffectsModel::none()
                })
                &&& final(self)@ == old(self)@.with(
                    task,
                    t.all_deleted(t.names_in(backing)),
                    content_without(
                        old(self)@.content,
                        t.resident,
                        t.names_in(backing),
                    ).remove(backing),
                )
            }),
    {
        let i = match self.tasks.find(task) {
            Some(i) => i,
            None => {
                return Err(Refusal::NoSuchTask { task });
            },
        };
        proof {
            old(self).lemma_task_wf(task);
        }
        let ghost model = self@.tasks[task];
        let t = self.tasks.value(i);
        let names = t.namespace.live_names();
        let ghost inside = |id: ResourceId| model.resident[id].storage() == backing;
        proof {
            lemma_is_names(model, names@);
            lemma_listed_resident(model, names@);
        }
        let mut naming: Vec<ResourceId> = Vec::new();
        let mut n: usize = 0;
        while n < names.len()
            invariant
                n <= names@.len(),
                t.resident.wf(),
                t.resident@ == model.resident,
                forall|k: int|
                    0 <= k < names@.len() ==> model.resident.dom().contains(#[trigger] names@[k]),
                inside == (|id: ResourceId| model.resident[id].storage() == backing),
                naming@ == names@.take(n as int).filter(inside),
            decreases names.len() - n,
        {
            let name = names[n];
            proof {
                reveal(Seq::filter);
                assert(names@.take(n + 1).drop_last() =~= names@.take(n as int));
                assert(names@.take(n + 1).last() == name);
                assert(model.resident.dom().contains(names@[n as int]));
            }
            match t.resident.get(name) {
                Some(resident) => {
                    if resident.backing().0 == backing.0 {
                        naming.push(name);
                    }
                },
                None => {},
            }
            n = n + 1;
        }
        proof {
            assert(names@.take(n as int) =~= names@);
            assert(naming@ == model.names_in(backing));
            lemma_filter_keeps_order(names@, inside);
            assert forall|k: int| 0 <= k < naming@.len() implies model.resident.dom().contains(
                #[trigger] naming@[k],
            ) by {
                assert(names@.contains(naming@[k]));
            }
        }
        let ghost before = self@;
        let mut effects = Effects::default();
        let mut j: usize = 0;
        proof {
            assert(naming@.take(0) =~= Seq::<ResourceId>::empty());
            assert(before.tasks.insert(task, model) =~= before.tasks);
        }
        while j < naming.len()
            invariant
                j <= naming@.len(),
                crate::namespace::by_slot(naming@),
                model.consistent(),
                model == before.tasks[task],
                forall|k: int|
                    0 <= k < naming@.len() ==> model.resident.dom().contains(#[trigger] naming@[k]),
                self.wf(),
                self@ == before.with(
                    task,
                    model.all_deleted(naming@.take(j as int)),
                    content_without(before.content, model.resident, naming@.take(j as int)),
                ),
                effects@ =~= (EffectsModel {
                    teardowns: model.teardowns(naming@.take(j as int)),
                    ..EffectsModel::none()
                }),
            decreases naming.len() - j,
        {
            let resource = naming[j];
            let ghost so_far = naming@.take(j as int);
            proof {
                assert(naming@.take(j + 1).drop_last() =~= so_far);
                assert(naming@.take(j + 1).last() == resource);
                lemma_still_there(model, naming@, j as int);
                let one = seq![resource];
                assert(one.drop_last() =~= Seq::<ResourceId>::empty());
                assert(content_without(
                    self@.content,
                    self@.tasks[task].resident,
                    one.drop_last(),
                ) == self@.content);
            }
            let ghost current = self@;
            match self.delete_resource(task, resource) {
                Ok(one) => {
                    let mut torn = one.teardowns;
                    effects.teardowns.append(&mut torn);
                },
                Err(_) => {},
            }
            proof {
                assert(current.tasks[task] == model.all_deleted(so_far));
                assert(self@.tasks =~= before.tasks.insert(
                    task,
                    model.all_deleted(naming@.take(j + 1)),
                ));
                assert(self@ =~= before.with(
                    task,
                    model.all_deleted(naming@.take(j + 1)),
                    content_without(before.content, model.resident, naming@.take(j + 1)),
                ));
                assert(effects@ =~= (EffectsModel {
                    teardowns: model.teardowns(naming@.take(j + 1)),
                    ..EffectsModel::none()
                }));
            }
            j = j + 1;
        }
        assert(naming@.take(j as int) =~= naming@);
        let ghost previous = *self;
        self.content.forget(backing);
        proof {
            self.lemma_content_only(previous);
        }
        Ok(effects)
    }

    /// Apply one lifecycle operation.
    ///
    /// A refused operation changes nothing, including a multi-resource one that
    /// refuses on its last name.
    pub fn apply(&mut self, op: &LifecycleOp) -> (r: Result<Effects, Refusal>)
        requires
            old(self).wf(),
        ensures
            final(self).wf(),
            match old(self)@.outcome(*op) {
                Err(e) => r == Err::<Effects, Refusal>(e) && final(self)@ == old(self)@,
                Ok((next, effects)) => (r matches Ok(e) && e@ == effects) && final(self)@ == next,
            },
    {
        let task = op.task();
        match op {
            LifecycleOp::DefineTask { .. } => {
                return self.define_task(task);
            },
            _ => {},
        }
        if !self.tasks.contains(task) {
            return Err(Refusal::NoSuchTask { task });
        }
        match op {
            LifecycleOp::DefineTask { .. } => Err(Refusal::TaskExists { task }),
            LifecycleOp::DeleteTask { .. } => self.delete_task(task),
            LifecycleOp::CreateResource { slot, storage, .. } => self.create_resource(
                task,
                *slot,
                *storage,
            ),
            LifecycleOp::DeleteResource { resource, .. } => self.delete_resource(task, *resource),
            LifecycleOp::MapMemory { resource, .. } => self.set_mapping(task, *resource, true),
            LifecycleOp::UnmapMemory { resource, .. } => self.set_mapping(task, *resource, false),
            LifecycleOp::ReplacePhysical { resource, backing, extent, .. } => self.replace_physical(
                task,
                *resource,
                *backing,
                *extent,
            ),
            LifecycleOp::Invalidate { resources, .. } => self.invalidate(task, resources),
            LifecycleOp::Synchronize { resources, .. } => self.synchronize(task, resources, false),
            LifecycleOp::SynchronizeAndDiscard { resources, .. } => self.synchronize(
                task,
                resources,
                true,
            ),
            LifecycleOp::Discard { resources, .. } => self.discard(task, resources),
            LifecycleOp::DeleteBacking { backing, .. } => self.delete_backing(task, *backing),
        }
    }

    /// Record that a transaction's transfers have executed, and take the
    /// content-authority changes it deferred to that point.
    ///
    /// Returns the offers that were not taken. Whether bytes exist nowhere else
    /// is asked here, because the transfers owed are exactly what may have
    /// changed the answer.
    pub fn complete(&mut self, effects: &Effects) -> (declined: Vec<Declined>)
        requires
            old(self).wf(),
        ensures
            final(self).wf(),
            final(self)@ == (LifecycleModel {
                content: content_discarded(
                    content_transferred(old(self)@.content, effects@.transfers),
                    effects@.at_completion,
                ),
                ..old(self)@
            }),
            declined@ == declined_of(
                content_transferred(old(self)@.content, effects@.transfers),
                effects@.at_completion,
            ),
    {
        let ghost before = self@;
        let ghost transfers = effects@.transfers;
        let mut i: usize = 0;
        while i < effects.transfers.len()
            invariant
                i <= effects.transfers@.len(),
                transfers == transfers_of(effects.transfers@),
                self.wf(),
                self@ == (LifecycleModel {
                    content: content_transferred(before.content, transfers.take(i as int)),
                    ..before
                }),
            decreases effects.transfers.len() - i,
        {
            proof {
                assert(transfers.take(i + 1).drop_last() =~= transfers.take(i as int));
                assert(transfers.take(i + 1).last() == effects.transfers@[i as int]@);
            }
            let ghost previous = *self;
            self.content.record_transfer(&effects.transfers[i]);
            proof {
                self.lemma_content_only(previous);
            }
            i = i + 1;
        }
        assert(transfers.take(i as int) =~= transfers);
        let ghost moved = self@.content;
        let ghost discards = effects.at_completion@;
        let mut declined: Vec<Declined> = Vec::new();
        let mut j: usize = 0;
        while j < effects.at_completion.len()
            invariant
                j <= effects.at_completion@.len(),
                discards == effects.at_completion@,
                self.wf(),
                self@ == (LifecycleModel {
                    content: content_discarded(moved, discards.take(j as int)),
                    ..before
                }),
                declined@ == declined_of(moved, discards.take(j as int)),
            decreases effects.at_completion.len() - j,
        {
            proof {
                assert(discards.take(j + 1).drop_last() =~= discards.take(j as int));
                assert(discards.take(j + 1).last() == discards[j as int]);
            }
            let d = effects.at_completion[j];
            let ghost previous = *self;
            let sole = self.content.sole_authority(d.backing, d.bytes, Replica::DeviceOwned);
            if sole.is_empty() {
                self.content.discard(d.backing, d.bytes, Replica::DeviceOwned);
            } else {
                declined.push(
                    Declined {
                        resource: d.resource,
                        backing: d.backing,
                        sole_authority_bytes: sole.len(),
                    },
                );
            }
            proof {
                self.lemma_content_only(previous);
            }
            j = j + 1;
        }
        assert(discards.take(j as int) =~= discards);
        declined
    }

    /// A task-local name's residency, if it resolves.
    fn lookup(&mut self, task: TaskId, resource: ResourceId) -> (r: Result<Resident, Refusal>)
        requires
            old(self).wf(),
        ensures
            final(self).wf(),
            final(self)@ == old(self)@,
            r == old(self)@.residency(task, resource),
            final(self).content == old(self).content,
    {
        let i = match self.tasks.find(task) {
            Some(i) => i,
            None => {
                return Err(Refusal::NoSuchTask { task });
            },
        };
        let ghost model = self@.tasks[task];
        proof {
            old(self).lemma_task_wf(task);
            assert(model.resident.dom().contains(resource) == (crate::namespace::resolution(model.slots, resource)
                is Ok));
        }
        let t = self.tasks.value_mut(i);
        let outcome = t.namespace.resolve(resource);
        proof {
            assert(self.tasks@[task]@ =~= model);
            self.lemma_row(*old(self), task, self.tasks@[task]);
            assert(old(self)@.tasks.insert(task, model) =~= old(self)@.tasks);
        }
        match outcome {
            Err(refusal) => Err(Refusal::Namespace { task, refusal }),
            Ok(_) => match self.tasks.value(i).resident.get(resource) {
                Some(resident) => Ok(*resident),
                None => Err(
                    Refusal::Namespace {
                        task,
                        refusal: namespace::Refusal::NotDeclared { slot: resource.slot },
                    },
                ),
            },
        }
    }

    /// Resolve a task-local name to the extent it currently holds.
    pub fn resolve(&mut self, task: TaskId, resource: ResourceId) -> (r: Result<ByteRange, Refusal>)
        requires
            old(self).wf(),
        ensures
            final(self).wf(),
            final(self)@ == old(self)@,
            r == old(self)@.whereabouts(task, resource),
    {
        match self.lookup(task, resource) {
            Ok(resident) => Ok(resident.extent()),
            Err(e) => Err(e),
        }
    }

    /// Record that work wrote a window of a resource in one replica.
    ///
    /// A window that leaves the resource is refused: a heap-placed resource's
    /// neighbour begins one byte past its end.
    pub fn record_write(
        &mut self,
        task: TaskId,
        resource: ResourceId,
        offset: u64,
        length: u64,
        replica: Replica,
    ) -> (r: Result<(), Refusal>)
        requires
            old(self).wf(),
        ensures
            final(self).wf(),
            match old(self)@.recording(task, resource, offset, length, replica) {
                Err(e) => r == Err::<(), Refusal>(e) && final(self)@ == old(self)@,
                Ok(next) => r is Ok && final(self)@ == next,
            },
    {
        let resident = match self.lookup(task, resource) {
            Ok(resident) => resident,
            Err(e) => {
                return Err(e);
            },
        };
        let bytes = match resident.window(offset, length) {
            Ok(bytes) => bytes,
            Err(refusal) => {
                return Err(Refusal::Heap { task, refusal });
            },
        };
        let ghost previous = *self;
        self.content.write(resident.backing(), bytes, replica);
        proof {
            self.lemma_content_only(previous);
            reveal_with_fuel(counts_written, 2);
        }
        Ok(())
    }

    /// Place one participation: which backing it names, where in that backing's
    /// coordinates, and which content versions it consumes and produces.
    ///
    /// A write reserves the next version now and commits it at completion.
    /// Nothing is reserved on a refusal.
    pub fn access(&mut self, task: TaskId, domain: ChannelId, participation: &Participation) -> (r:
        Result<AccessIntent, Refusal>)
        requires
            old(self).wf(),
        ensures
            final(self).wf(),
            match old(self)@.placing(task, domain, *participation) {
                Err(e) => r == Err::<AccessIntent, Refusal>(e) && final(self)@ == old(self)@,
                Ok((intent, next)) => r == Ok::<AccessIntent, Refusal>(intent) && final(self)@
                    == next,
            },
    {
        let resident = match self.lookup(task, participation.resource) {
            Ok(resident) => resident,
            Err(e) => {
                return Err(e);
            },
        };
        let backing = resident.backing();
        let heap = match resident {
            Resident::Placed(p) => match self.membership(task, participation.resource, p) {
                Ok(id) => Some(id),
                Err(e) => {
                    return Err(e);
                },
            },
            Resident::Dedicated { .. } => None,
        };
        let key = ResourceKey { backing, heap };
        let extent = match participation.extent {
            ParticipationExtent::Range(range) => match resident.window(range.offset, range.length) {
                Ok(window) => ParticipationExtent::Range(window),
                Err(refusal) => {
                    return Err(Refusal::Heap { task, refusal });
                },
            },
            ParticipationExtent::Subresource(range) => ParticipationExtent::Subresource(range),
            ParticipationExtent::Whole => match resident {
                Resident::Dedicated { .. } => ParticipationExtent::Whole,
                Resident::Placed(p) => ParticipationExtent::Range(p.region),
            },
        };
        let bytes = match extent {
            ParticipationExtent::Range(range) => Some(range),
            // The whole of a resource with its own pages is the extent it was
            // declared with, which the content authority knows.
            ParticipationExtent::Whole => self.content.extent(backing),
            ParticipationExtent::Subresource(_) => None,
        };
        let input = match bytes {
            Some(range) => self.content.version_of(backing, range),
            None => self.content.newest_version(backing),
        };
        let ghost previous = *self;
        let output = if participation.mode.writes() {
            Some(self.content.reserve(backing))
        } else {
            None
        };
        proof {
            self.lemma_content_only(previous);
        }
        let placed = Participation { extent, ..*participation };
        Ok(placed.resolve(domain, key, input, output))
    }

    /// The heap identity a placed resource is recorded against.
    fn membership(&self, task: TaskId, resource: ResourceId, p: HeapPlacement) -> (r: Result<
        HeapId,
        Refusal,
    >)
        requires
            self.wf(),
            self@.residency(task, resource) == Ok::<Resident, Refusal>(Resident::Placed(p)),
        ensures
            r == Ok::<HeapId, Refusal>(
                HeapId {
                    id: p.heap,
                    membership_generation: self@.tasks[task].heaps[p.heap].membership_generation,
                },
            ),
    {
        match self.tasks.get(task) {
            Some(t) => {
                proof {
                    self.lemma_task_wf(task);
                    let model = self@.tasks[task];
                    assert(model.resident.dom().contains(resource) == (crate::namespace::resolution(
                        model.slots,
                        resource,
                    ) is Ok));
                    assert(model.placed_where_said(resource));
                }
                match t.heaps.membership(p.heap) {
                    Ok(id) => Ok(id),
                    Err(refusal) => Err(Refusal::Heap { task, refusal }),
                }
            },
            None => Err(Refusal::NoSuchTask { task }),
        }
    }

    /// This owner as an [`AccessSource`] for one task's records, in one
    /// submission domain.
    pub fn task_access(&mut self, task: TaskId, domain: ChannelId) -> (source: TaskAccess<'_>)
        requires
            old(self).wf(),
        ensures
            source.in_order(),
            *source.lifecycle == *old(self),
            *final(source.lifecycle) == *final(self),
            source.task == task,
            source.domain == domain,
    {
        TaskAccess { lifecycle: self, task, domain }
    }
}

/// One task's records, in one submission domain, as an [`AccessSource`].
///
/// A borrow of the owner and not a copy out of it: a snapshot would hand two
/// records of one packet the same reservation.
pub struct TaskAccess<'a> {
    pub lifecycle: &'a mut Lifecycle,
    pub task: TaskId,
    pub domain: ChannelId,
}

impl<'a> AccessSource for TaskAccess<'a> {
    open spec fn in_order(&self) -> bool {
        self.lifecycle.wf()
    }

    fn access(&mut self, participation: &Participation) -> (r: Result<AccessIntent, AccessRefusal>)
        ensures
            final(self).task == old(self).task,
            final(self).domain == old(self).domain,
            match old(self).lifecycle@.placing(old(self).task, old(self).domain, *participation) {
                Err(e) => (r matches Err(refused) && refused.resource == participation.resource
                    && refused.reason@ == e.slug_text()) && final(self).lifecycle@ == old(self).lifecycle@,
                Ok((intent, next)) => r == Ok::<AccessIntent, AccessRefusal>(intent) && final(self).lifecycle@ == next,
            },
    {
        match self.lifecycle.access(self.task, self.domain, participation) {
            Ok(intent) => Ok(intent),
            Err(refusal) => Err(
                AccessRefusal { resource: participation.resource, reason: refusal.slug() },
            ),
        }
    }
}

/// Filtering an ascending list keeps it ascending and adds nothing.
proof fn lemma_filter_keeps_order(names: Seq<ResourceId>, keep: spec_fn(ResourceId) -> bool)
    requires
        crate::namespace::by_slot(names),
    ensures
        crate::namespace::by_slot(names.filter(keep)),
        forall|k: int|
            0 <= k < names.filter(keep).len() ==> names.contains(#[trigger] names.filter(keep)[k]),
    decreases names.len(),
{
    reveal(Seq::filter);
    if names.len() > 0 {
        let rest = names.drop_last();
        lemma_filter_keeps_order(rest, keep);
        let kept = rest.filter(keep);
        assert forall|k: int| 0 <= k < kept.len() implies names.contains(#[trigger] kept[k])
            && kept[k].slot.0 < names.last().slot.0 by {
            assert(rest.contains(kept[k]));
            let m = choose|m: int| 0 <= m < rest.len() && rest[m] == kept[k];
            assert(names[m] == kept[k]);
        }
        assert(names.contains(names[names.len() - 1]));
    }
}

/// Declaring a heap keeps the records in agreement.
proof fn lemma_heap_declared_consistent(t: TaskModel, heap: u64, fresh: HeapModel)
    requires
        t.consistent(),
        !t.heaps.dom().contains(heap),
        fresh.placements == Map::<ResourceId, ByteRange>::empty(),
    ensures
        (TaskModel { heaps: t.heaps.insert(heap, fresh), ..t }).consistent(),
{
    let n = TaskModel { heaps: t.heaps.insert(heap, fresh), ..t };
    assert forall|x: ResourceId| #[trigger] n.resident.dom().contains(x) implies n.slots[x.slot].backing
        == n.resident[x].storage() && n.placed_where_said(x) by {
        assert(t.resident.dom().contains(x));
        assert(t.placed_where_said(x));
        if let Resident::Placed(p) = n.resident[x] {
            assert(t.holds(p.heap, x));
            assert(n.holds(p.heap, x));
        }
    }
    assert forall|h: u64, x: ResourceId| #[trigger] n.holds(h, x) implies n.resident.dom().contains(
        x,
    ) && n.resident[x] is Placed && n.resident[x]->Placed_0.heap == h by {
        assert(t.holds(h, x));
    }
    assert forall|x: ResourceId| #[trigger]
        n.resident.dom().contains(x) == (crate::namespace::resolution(n.slots, x) is Ok) by {
        assert(t.resident.dom().contains(x) == (crate::namespace::resolution(t.slots, x) is Ok));
    }
}

/// Copies into the guest's pages only ever add to what the guest holds, and
/// take nothing from the device.
proof fn lemma_transferred(
    content: Map<BackingId, BackingContent>,
    transfers: Seq<TransferModel>,
    backing: BackingId,
)
    requires
        forall|i: int| 0 <= i < transfers.len() ==> (#[trigger] transfers[i]).to
            == Replica::GuestPages,
    ensures
        ({
            let after = crate::content::content_at(content_transferred(content, transfers), backing);
            let before = crate::content::content_at(content, backing);
            &&& after.device == before.device
            &&& before.guest.subset_of(after.guest)
            &&& forall|i: int| #![trigger transfers[i]]
                0 <= i < transfers.len() && transfers[i].backing == backing
                    ==> transfers[i].bytes.subset_of(after.guest)
        }),
    decreases transfers.len(),
{
    if transfers.len() > 0 {
        let rest = transfers.drop_last();
        assert forall|i: int| 0 <= i < rest.len() implies (#[trigger] rest[i]).to
            == Replica::GuestPages by {
            assert(rest[i] == transfers[i]);
        }
        lemma_transferred(content, rest, backing);
        let t = transfers.last();
        assert(t == transfers[transfers.len() - 1]);
        let middle = crate::content::content_at(content_transferred(content, rest), backing);
        let after = crate::content::content_at(content_transferred(content, transfers), backing);
        assert forall|i: int| #![trigger transfers[i]]
            0 <= i < transfers.len() && transfers[i].backing == backing implies transfers[i].bytes.subset_of(
            after.guest,
        ) by {
            if i < rest.len() {
                assert(rest[i] == transfers[i]);
                assert(rest[i].bytes.subset_of(middle.guest));
            }
        }
    }
}

/// What a synchronise owes for each resource is among what it owes.
proof fn lemma_owed_listed(
    content: Map<BackingId, BackingContent>,
    resident: Map<ResourceId, Resident>,
    ids: Seq<ResourceId>,
    k: int,
)
    requires
        0 <= k < ids.len(),
    ensures
        ({
            let owed = transfers_owed(content, resident, ids);
            let backing = resident[ids[k]].storage();
            let bytes = crate::content::content_at(content, backing).movable(
                resident[ids[k]].region(),
                Replica::GuestPages,
            );
            &&& forall|i: int| 0 <= i < owed.len() ==> (#[trigger] owed[i]).to
                == Replica::GuestPages
            &&& bytes != Set::<int>::empty() ==> exists|i: int|
                0 <= i < owed.len() && (#[trigger] owed[i]).backing == backing && owed[i].bytes
                    == bytes
        }),
    decreases ids.len(),
{
    let owed = transfers_owed(content, resident, ids);
    let rest = ids.drop_last();
    let before = transfers_owed(content, resident, rest);
    let backing = resident[ids[k]].storage();
    let bytes = crate::content::content_at(content, backing).movable(
        resident[ids[k]].region(),
        Replica::GuestPages,
    );
    lemma_owed_to_guest(content, resident, ids);
    if k < rest.len() {
        lemma_owed_listed(content, resident, rest, k);
        assert(rest[k] == ids[k]);
        if bytes != Set::<int>::empty() {
            let i = choose|i: int|
                0 <= i < before.len() && (#[trigger] before[i]).backing == backing && before[i].bytes
                    == bytes;
            assert(owed[i] == before[i]);
        }
    } else {
        assert(ids.last() == ids[k]);
        if bytes != Set::<int>::empty() {
            assert(owed[before.len() as int].bytes == bytes);
        }
    }
}

proof fn lemma_owed_to_guest(
    content: Map<BackingId, BackingContent>,
    resident: Map<ResourceId, Resident>,
    ids: Seq<ResourceId>,
)
    ensures
        forall|i: int|
            0 <= i < transfers_owed(content, resident, ids).len() ==> (#[trigger] transfers_owed(
                content,
                resident,
                ids,
            )[i]).to == Replica::GuestPages,
    decreases ids.len(),
{
    if ids.len() > 0 {
        lemma_owed_to_guest(content, resident, ids.drop_last());
    }
}

/// Once a synchronise's copies executed, the device holds nothing of its
/// resources that the guest does not.
proof fn lemma_synchronized(
    content: Map<BackingId, BackingContent>,
    resident: Map<ResourceId, Resident>,
    ids: Seq<ResourceId>,
    k: int,
)
    requires
        0 <= k < ids.len(),
    ensures
        ({
            let after = crate::content::content_at(
                content_transferred(content, transfers_owed(content, resident, ids)),
                resident[ids[k]].storage(),
            );
            let region = resident[ids[k]].region();
            &&& after.movable(region, Replica::GuestPages) == Set::<int>::empty()
            &&& after.only_in(region, Replica::DeviceOwned) == Set::<int>::empty()
        }),
{
    let owed = transfers_owed(content, resident, ids);
    let backing = resident[ids[k]].storage();
    let region = resident[ids[k]].region();
    let before = crate::content::content_at(content, backing);
    let after = crate::content::content_at(content_transferred(content, owed), backing);
    lemma_owed_listed(content, resident, ids, k);
    lemma_transferred(content, owed, backing);
    let bytes = before.movable(region, Replica::GuestPages);
    assert forall|b: int| region.has(b) && after.device.contains(b) implies after.guest.contains(
        b,
    ) by {
        if !before.guest.contains(b) {
            assert(region.bytes().contains(b));
            assert(bytes.contains(b));
            assert(bytes != Set::<int>::empty());
            let i = choose|i: int|
                0 <= i < owed.len() && (#[trigger] owed[i]).backing == backing && owed[i].bytes
                    == bytes;
            assert(owed[i].bytes.subset_of(after.guest));
        }
    }
    assert(after.movable(region, Replica::GuestPages) =~= Set::<int>::empty());
    assert(after.only_in(region, Replica::DeviceOwned) =~= Set::<int>::empty());
}

/// A synchronise does not repeat itself: once the copies it owed have executed,
/// asking again with no write in between owes nothing.
pub proof fn a_synchronise_does_not_repeat(
    content: Map<BackingId, BackingContent>,
    resident: Map<ResourceId, Resident>,
    ids: Seq<ResourceId>,
)
    ensures
        transfers_owed(
            content_transferred(content, transfers_owed(content, resident, ids)),
            resident,
            ids,
        ) == Seq::<TransferModel>::empty(),
{
    let after = content_transferred(content, transfers_owed(content, resident, ids));
    assert forall|k: int| 0 <= k < ids.len() implies crate::content::content_at(
        after,
        resident[#[trigger] ids[k]].storage(),
    ).movable(resident[ids[k]].region(), Replica::GuestPages) == Set::<int>::empty() by {
        lemma_synchronized(content, resident, ids, k);
    }
    lemma_nothing_owed(after, resident, ids);
}

proof fn lemma_nothing_owed(
    content: Map<BackingId, BackingContent>,
    resident: Map<ResourceId, Resident>,
    ids: Seq<ResourceId>,
)
    requires
        forall|k: int|
            0 <= k < ids.len() ==> crate::content::content_at(
                content,
                resident[#[trigger] ids[k]].storage(),
            ).movable(resident[ids[k]].region(), Replica::GuestPages) == Set::<int>::empty(),
    ensures
        transfers_owed(content, resident, ids) == Seq::<TransferModel>::empty(),
    decreases ids.len(),
{
    if ids.len() > 0 {
        let rest = ids.drop_last();
        assert forall|k: int| 0 <= k < rest.len() implies crate::content::content_at(
            content,
            resident[#[trigger] rest[k]].storage(),
        ).movable(resident[rest[k]].region(), Replica::GuestPages) == Set::<int>::empty() by {
            assert(rest[k] == ids[k]);
        }
        lemma_nothing_owed(content, resident, rest);
        assert(ids.last() == ids[ids.len() - 1]);
    }
}

/// Evaluating offers leaves the guest's copies alone and adds nothing to the
/// device's.
proof fn lemma_discarded(
    content: Map<BackingId, BackingContent>,
    discards: Seq<DeferredDiscard>,
    backing: BackingId,
)
    ensures
        ({
            let after = crate::content::content_at(content_discarded(content, discards), backing);
            let before = crate::content::content_at(content, backing);
            &&& after.guest == before.guest
            &&& after.device.subset_of(before.device)
            &&& forall|b: int| #[trigger]
                before.device.contains(b) && !before.guest.contains(b)
                    ==> after.device.contains(b)
        }),
    decreases discards.len(),
{
    if discards.len() > 0 {
        let rest = discards.drop_last();
        lemma_discarded(content, rest, backing);
        let d = discards.last();
        let middle = content_discarded(content, rest);
        let before = crate::content::content_at(content, backing);
        let at = crate::content::content_at(middle, backing);
        let after = crate::content::content_at(content_discarded(content, discards), backing);
        if destroyed_by(middle, d) == Set::<int>::empty() && middle.dom().contains(d.backing)
            && d.backing == backing {
            assert forall|b: int| #[trigger]
                before.device.contains(b) && !before.guest.contains(b) implies after.device.contains(
                b,
            ) by {
                assert(at.device.contains(b));
                if d.bytes.bytes().contains(b) {
                    assert(destroyed_by(middle, d).contains(b));
                }
            }
        }
    }
}

/// Completing offered discards never destroys content: a byte some replica held
/// before is held by some replica after.
pub proof fn a_discard_never_destroys_content(
    content: Map<BackingId, BackingContent>,
    discards: Seq<DeferredDiscard>,
    backing: BackingId,
    b: int,
)
    requires
        crate::content::content_at(content, backing).guest.contains(b) || crate::content::content_at(
            content,
            backing,
        ).device.contains(b),
    ensures
        ({
            let after = crate::content::content_at(content_discarded(content, discards), backing);
            after.guest.contains(b) || after.device.contains(b)
        }),
{
    lemma_discarded(content, discards, backing);
}

/// A discard of bytes nothing else holds is declined, named with how many they
/// are, and leaves the content alone.
pub proof fn a_destroying_discard_is_declined(
    content: Map<BackingId, BackingContent>,
    d: DeferredDiscard,
)
    requires
        destroyed_by(content, d) != Set::<int>::empty(),
    ensures
        content_discarded(content, seq![d]) == content,
        declined_of(content, seq![d]) == seq![
            Declined {
                resource: d.resource,
                backing: d.backing,
                sole_authority_bytes: destroyed_by(content, d).len() as u64,
            },
        ],
{
    let one = seq![d];
    assert(one.drop_last() =~= Seq::<DeferredDiscard>::empty());
    assert(content_discarded(content, one.drop_last()) == content);
    assert(declined_of(content, one.drop_last()) == Seq::<Declined>::empty());
    assert(declined_of(content, one) =~= seq![
        Declined {
            resource: d.resource,
            backing: d.backing,
            sole_authority_bytes: destroyed_by(content, d).len() as u64,
        },
    ]);
}

/// A synchronise-and-discard is never declined: the copies it owes give every
/// byte a second holder before the offers are evaluated.
pub proof fn a_synchronise_and_discard_is_never_declined(
    content: Map<BackingId, BackingContent>,
    resident: Map<ResourceId, Resident>,
    ids: Seq<ResourceId>,
)
    ensures
        declined_of(
            content_transferred(content, transfers_owed(content, resident, ids)),
            discards_of(resident, ids),
        ) == Seq::<Declined>::empty(),
{
    let after = content_transferred(content, transfers_owed(content, resident, ids));
    let discards = discards_of(resident, ids);
    assert forall|k: int| 0 <= k < discards.len() implies destroyed_by(
        after,
        #[trigger] discards[k],
    ) == Set::<int>::empty() by {
        lemma_synchronized(content, resident, ids, k);
    }
    lemma_none_declined(after, discards);
}

proof fn lemma_none_declined(
    content: Map<BackingId, BackingContent>,
    discards: Seq<DeferredDiscard>,
)
    requires
        forall|k: int|
            0 <= k < discards.len() ==> destroyed_by(content, #[trigger] discards[k]) == Set::<
                int,
            >::empty(),
    ensures
        declined_of(content, discards) == Seq::<Declined>::empty(),
    decreases discards.len(),
{
    if discards.len() > 0 {
        let rest = discards.drop_last();
        assert forall|k: int| 0 <= k < rest.len() implies destroyed_by(content, #[trigger] rest[k])
            == Set::<int>::empty() by {
            assert(rest[k] == discards[k]);
        }
        lemma_none_declined(content, rest);
        let d = discards[discards.len() - 1];
        lemma_discarded(content, rest, d.backing);
        let middle = content_discarded(content, rest);
        assert(destroyed_by(middle, d) =~= Set::<int>::empty()) by {
            assert forall|b: int| !destroyed_by(middle, d).contains(b) by {
                if destroyed_by(middle, d).contains(b) {
                    assert(destroyed_by(content, d).contains(b));
                }
            }
        }
    }
}

/// An operation in one task leaves every other task's records as they were.
pub proof fn an_operation_stays_in_its_task(l: LifecycleModel, op: LifecycleOp, other: TaskId)
    requires
        other != op.acts_in(),
        l.outcome(op) is Ok,
    ensures
        l.outcome(op)->Ok_0.0.tasks.dom().contains(other) == l.tasks.dom().contains(other),
        l.outcome(op)->Ok_0.0.tasks[other] == l.tasks[other],
{
}

/// Placing a resource in a heap leaves its neighbours' content alone: a byte
/// outside the window is held by exactly who held it.
pub proof fn placing_a_resource_leaves_its_neighbours_alone(
    l: LifecycleModel,
    task: TaskId,
    slot: ObjectListRef,
    heap: u64,
    offset: u64,
    length: u64,
    backing: BackingId,
    b: int,
)
    requires
        l.creation(task, slot, Storage::Placed { heap, offset, length }) is Ok,
        backing != l.tasks[task].heaps[heap].backing || !(ByteRange { offset, length }).has(b),
    ensures
        ({
            let next = l.creation(task, slot, Storage::Placed { heap, offset, length })->Ok_0;
            let before = crate::content::content_at(l.content, backing);
            let after = crate::content::content_at(next.content, backing);
            &&& after.guest.contains(b) == before.guest.contains(b)
            &&& after.device.contains(b) == before.device.contains(b)
        }),
{
}

/// Deleting a backing retires exactly the names whose bytes are in it, and
/// every other name resolves to what it did.
pub proof fn deleting_a_backing_retires_exactly_its_names(
    t: TaskModel,
    names: Seq<ResourceId>,
    backing: BackingId,
    id: ResourceId,
)
    requires
        t.consistent(),
        lists_names(t.slots, names),
        t.resident.dom().contains(id),
    ensures
        ({
            let after = t.all_deleted(t.names_in(backing));
            if t.resident[id].storage() == backing {
                crate::namespace::resolution(after.slots, id) is Err
            } else {
                crate::namespace::resolution(after.slots, id) == crate::namespace::resolution(t.slots, id) && after.resident[id]
                    == t.resident[id]
            }
        }),
{
    let inside = |x: ResourceId| t.resident[x].storage() == backing;
    let ids = t.names_in(backing);
    lemma_is_names(t, names);
    lemma_filter_keeps_order(names, inside);
    lemma_filter_members(names, inside);
    lemma_listed_resident(t, names);
    assert(crate::namespace::resolution(t.slots, id) is Ok);
    assert(names.contains(id));
    assert forall|i: int| 0 <= i < ids.len() implies t.resident.dom().contains(
        #[trigger] ids[i],
    ) by {
        assert(names.contains(ids[i]));
    }
    lemma_same_heaps(t, ids);
    let after = t.all_deleted(ids);
    if t.resident[id].storage() == backing {
        assert(ids.contains(id));
        let k = choose|k: int| 0 <= k < ids.len() && ids[k] == id;
        lemma_gone(t, ids, k);
        assert(after.resident.dom().contains(id) == (crate::namespace::resolution(after.slots, id) is Ok));
    } else {
        assert forall|i: int| 0 <= i < ids.len() implies (#[trigger] ids[i]).slot != id.slot by {
            assert(names.contains(ids[i]));
            assert(ids.contains(ids[i]));
            assert(crate::namespace::resolution(t.slots, ids[i]) is Ok);
        }
        lemma_left_alone(t, ids, id);
    }
}

/// What a filter keeps.
proof fn lemma_filter_members(names: Seq<ResourceId>, keep: spec_fn(ResourceId) -> bool)
    ensures
        forall|x: ResourceId| #[trigger]
            names.filter(keep).contains(x) == (names.contains(x) && keep(x)),
    decreases names.len(),
{
    reveal(Seq::filter);
    if names.len() > 0 {
        let rest = names.drop_last();
        lemma_filter_members(rest, keep);
        let kept = rest.filter(keep);
        let all = names.filter(keep);
        assert forall|x: ResourceId| #[trigger]
            all.contains(x) == (names.contains(x) && keep(x)) by {
            assert(kept.contains(x) == (rest.contains(x) && keep(x)));
            if names.contains(x) {
                let k = choose|k: int| 0 <= k < names.len() && names[k] == x;
                if k < rest.len() {
                    assert(rest[k] == x);
                }
            }
            if rest.contains(x) {
                let k = choose|k: int| 0 <= k < rest.len() && rest[k] == x;
                assert(names[k] == x);
            }
            if kept.contains(x) {
                let k = choose|k: int| 0 <= k < kept.len() && kept[k] == x;
                assert(all[k] == x);
            }
            if all.contains(x) && !kept.contains(x) {
                let k = choose|k: int| 0 <= k < all.len() && all[k] == x;
                if k < kept.len() {
                    assert(kept[k] == x);
                }
                assert(names[names.len() - 1] == x);
            }
            if names.last() == x && keep(x) {
                assert(all[kept.len() as int] == x);
            }
        }
    }
}

/// Each lifecycle command has one opcode, and a root channel knows no command
/// that a child channel does not.
pub proof fn a_lifecycle_command_has_one_opcode(channel: Channel, other: Channel, a: u16, b: u16)
    ensures
        lifecycle_kind(channel, a) is Some && lifecycle_kind(channel, a) == lifecycle_kind(other, b)
            ==> a == b,
        lifecycle_kind(Channel::Root, a) is Some ==> lifecycle_kind(Channel::Child, a)
            == lifecycle_kind(Channel::Root, a),
        lifecycle_kind(Channel::Root, a) matches Some(kind) ==> kind is DefineTask || kind
            is DeleteTask || kind is SetObjectList,
        lifecycle_kind(Channel::Child, a) matches Some(kind) ==> (kind is DefineTask || kind
            is DeleteTask || kind is SetObjectList) ==> lifecycle_kind(Channel::Root, a) == Some(
            kind,
        ),
{
}

/// Four commands carry a list of resources, each record starting with a name.
/// Only an invalidate's records have room for a second word.
pub proof fn a_list_record_holds_a_name(kind: LifecycleKind)
    ensures
        kind.record_len() is Some <==> kind is Invalidate || kind is Synchronize || kind
            is SynchronizeAndDiscard || kind is Discard,
        kind.record_len() matches Some(len) ==> len >= 4 && (len >= 8 <==> kind is Invalidate),
{
}

/// An operation is of the command it is named after; creating a resource is
/// setting its slot of the object list.
pub proof fn an_operation_is_of_its_own_command(op: LifecycleOp)
    ensures
        op is DefineTask <==> op.command() is DefineTask,
        op is DeleteTask <==> op.command() is DeleteTask,
        op is CreateResource <==> op.command() is SetObjectList,
        op is DeleteResource <==> op.command() is DeleteResource,
        op is MapMemory <==> op.command() is MapMemory,
        op is UnmapMemory <==> op.command() is UnmapMemory,
        op is ReplacePhysical <==> op.command() is ReplacePhysical,
        op is Invalidate <==> op.command() is Invalidate,
        op is Synchronize <==> op.command() is Synchronize,
        op is SynchronizeAndDiscard <==> op.command() is SynchronizeAndDiscard,
        op is Discard <==> op.command() is Discard,
        op is DeleteBacking <==> op.command() is DeleteBacking,
{
}

/// A list packet becomes its own command, in the task it spells and on the
/// resources its records spell, in order.
pub proof fn a_list_packet_names_what_it_spells<R: RefResolver>(
    kind: LifecycleKind,
    payload: Seq<u8>,
    resolver: &R,
    r: Result<LifecycleOp, ResolveRefusal>,
    task: u32,
    objects: Seq<u32>,
)
    requires
        list_resolved(kind, payload, resolver, r),
        kind.record_len() is Some,
        objects.len() <= u32::MAX,
        fifo::spells(payload, 0, task),
        fifo::spells(payload, 4, objects.len() as u32),
        8 + objects.len() * kind.record_len()->0 <= payload.len(),
        forall|i: int|
            0 <= i < objects.len() ==> fifo::spells(
                payload,
                8 + i * kind.record_len()->0,
                #[trigger] objects[i],
            ),
        forall|i: int| 0 <= i < objects.len() ==> resolver.names(#[trigger] objects[i]) is Some,
    ensures
        r matches Ok(op) && op.command() == kind && op.acts_in().0 == task && {
            let named = match op {
                LifecycleOp::Invalidate { resources, .. } => resources@,
                LifecycleOp::Synchronize { resources, .. } => resources@,
                LifecycleOp::SynchronizeAndDiscard { resources, .. } => resources@,
                LifecycleOp::Discard { resources, .. } => resources@,
                _ => Seq::<ResourceId>::empty(),
            };
            &&& named.len() == objects.len()
            &&& forall|i: int|
                0 <= i < objects.len() ==> resolver.names(objects[i]) == Some(#[trigger] named[i])
        },
{
    let len = kind.record_len()->0;
    fifo::a_list_reads_as_it_was_written(payload, len, task, objects);
    crate::resolve::lemma_none_unknown(resolver, objects);
}

/// A list packet with a ref that names nothing is refused whole, for the first
/// such ref.
pub proof fn a_list_packet_is_refused_for_its_first_unknown_ref<R: RefResolver>(
    kind: LifecycleKind,
    payload: Seq<u8>,
    resolver: &R,
    r: Result<LifecycleOp, ResolveRefusal>,
    k: int,
)
    requires
        list_resolved(kind, payload, resolver, r),
        kind.record_len() matches Some(len) && fifo::list_error(payload, len) is None && 0 <= k
            < fifo::list_refs(payload, len).len(),
        resolver.names(fifo::list_refs(payload, kind.record_len()->0)[k]) is None,
        forall|i: int|
            0 <= i < k ==> resolver.names(
                #[trigger] fifo::list_refs(payload, kind.record_len()->0)[i],
            ) is Some,
    ensures
        r == Err::<LifecycleOp, ResolveRefusal>(
            ResolveRefusal::UnknownRef {
                object_ref: fifo::list_refs(payload, kind.record_len()->0)[k],
            },
        ),
{
    let refs = fifo::list_refs(payload, kind.record_len()->0);
    let front = refs.take(k);
    assert forall|i: int| 0 <= i < front.len() implies resolver.names(#[trigger] front[i]) is Some by {
        assert(front[i] == refs[i]);
    }
    crate::resolve::lemma_none_unknown(resolver, front);
    assert(refs.take(k + 1).drop_last() =~= front);
    assert(refs.take(k + 1).last() == refs[k]);
    crate::resolve::lemma_first_unknown_extends(resolver, refs, k + 1, refs[k]);
}

} // verus!
