//! Where a task's resources live, and what an access through one of them names.
//!
//! The statements are over the bytes themselves: which byte of which backing an
//! access names, who holds a byte before and after an operation, and which
//! names are live.

use vstd::prelude::*;
use crate::access::{
    AccessKey, BackingId, ByteRange, HeapId, Participation, ParticipationExtent,
    ResourceKey,
};
use crate::content::{BackingContent, Census, Replica, TransferModel};
use crate::heap::HeapPlacement;
use crate::identity::{ChannelId, ObjectListRef, ResourceId, TaskId};
use crate::lifecycle::{
    DeferredDiscard, EffectsModel, LifecycleModel, LifecycleOp, Refusal, Resident, Storage,
};
use crate::namespace::Teardown;

verus! {

/// A name is live in its task: its slot was declared, is at the generation the
/// name carries and was not deleted.
pub open spec fn lives(l: LifecycleModel, task: TaskId, id: ResourceId) -> bool {
    &&& l.tasks.dom().contains(task)
    &&& l.tasks[task].slots.dom().contains(id.slot)
    &&& l.tasks[task].slots[id.slot].generation == id.generation
    &&& !l.tasks[task].slots[id.slot].deleted
}

/// The one byte at `at`.
pub open spec fn one_byte(at: u64) -> ByteRange {
    ByteRange { offset: at, length: 1 }
}

/// The byte at `at` is one of the `length` bytes from `offset` on.
pub open spec fn inside(offset: int, length: int, at: int) -> bool {
    offset <= at < offset + length
}

/// An access is placed exactly when its name is live and the bytes it names lie
/// inside its resource. Nothing is clamped, and nothing is refused beyond that.
pub proof fn an_access_is_placed_when_it_stays_inside_a_live_resource(
    l: LifecycleModel,
    task: TaskId,
    domain: ChannelId,
    p: Participation,
)
    ensures
        l.placing(task, domain, p) is Ok <==> lives(l, task, p.resource) && (
        p.extent matches ParticipationExtent::Range(x) ==> match l.tasks[task].resident[p.resource] {
            Resident::Dedicated { extent, .. } => x.offset + x.length <= extent.length,
            Resident::Placed(w) => x.offset + x.length <= w.region.length,
        }),
        l.placing(task, domain, p) matches Err(Refusal::NoSuchTask { .. }) <==> !l.tasks.dom().contains(task),
{
}

/// An access to the whole of a placed resource names exactly the bytes of its
/// placement.
pub proof fn the_whole_of_a_placed_resource_is_its_placement(
    l: LifecycleModel,
    task: TaskId,
    domain: ChannelId,
    p: Participation,
    w: HeapPlacement,
    probe: ResourceKey,
    at: u64,
)
    requires
        lives(l, task, p.resource),
        l.tasks[task].resident[p.resource] == Resident::Placed(w),
        p.extent is Whole,
        probe.backing == w.backing,
        at < u64::MAX,
    ensures
        l.placing(task, domain, p) matches Ok(placed) && placed.0.key.meets(
            AccessKey::Range(probe, one_byte(at)),
        ) == inside(w.region.offset as int, w.region.length as int, at as int),
{
    let byte = one_byte(at);
    if inside(w.region.offset as int, w.region.length as int, at as int) {
        assert(w.region.has(at as int) && byte.has(at as int));
    }
}

/// An access to a window of a placed resource names exactly the bytes of the
/// window, counted from the placement's first.
pub proof fn a_window_of_a_placed_resource_starts_from_its_placement(
    l: LifecycleModel,
    task: TaskId,
    domain: ChannelId,
    p: Participation,
    w: HeapPlacement,
    x: ByteRange,
    probe: ResourceKey,
    at: u64,
)
    requires
        lives(l, task, p.resource),
        l.tasks[task].resident[p.resource] == Resident::Placed(w),
        p.extent == ParticipationExtent::Range(x),
        x.offset + x.length <= w.region.length,
        probe.backing == w.backing,
        at < u64::MAX,
    ensures
        l.placing(task, domain, p) matches Ok(placed) && placed.0.key.meets(
            AccessKey::Range(probe, one_byte(at)),
        ) == inside(w.region.offset + x.offset, x.length as int, at as int),
{
    let byte = one_byte(at);
    let named = l.placing(task, domain, p)->Ok_0.0.key->Range_1;
    if inside(w.region.offset + x.offset, x.length as int, at as int) {
        assert(named.has(at as int) && byte.has(at as int));
    }
}

/// An access to a window of a resource with its own pages names exactly the
/// bytes of the window, counted from the resource's first.
pub proof fn a_window_of_dedicated_pages_starts_from_their_extent(
    l: LifecycleModel,
    task: TaskId,
    domain: ChannelId,
    p: Participation,
    backing: BackingId,
    extent: ByteRange,
    x: ByteRange,
    probe: ResourceKey,
    at: u64,
)
    requires
        lives(l, task, p.resource),
        l.tasks[task].resident[p.resource] == (Resident::Dedicated { backing, extent }),
        p.extent == ParticipationExtent::Range(x),
        x.offset + x.length <= extent.length,
        probe.backing == backing,
        at < u64::MAX,
    ensures
        l.placing(task, domain, p) matches Ok(placed) && placed.0.key.meets(
            AccessKey::Range(probe, one_byte(at)),
        ) == inside(extent.offset + x.offset, x.length as int, at as int),
{
    let byte = one_byte(at);
    let named = l.placing(task, domain, p)->Ok_0.0.key->Range_1;
    if inside(extent.offset + x.offset, x.length as int, at as int) {
        assert(named.has(at as int) && byte.has(at as int));
    }
}

/// An access to the whole of a resource with its own pages meets every access
/// to its backing, however narrow, and none to another.
pub proof fn the_whole_of_dedicated_pages_is_their_backing(
    l: LifecycleModel,
    task: TaskId,
    domain: ChannelId,
    p: Participation,
    backing: BackingId,
    extent: ByteRange,
    other: ResourceKey,
    bytes: ByteRange,
    window: crate::access::SubresourceRange,
)
    requires
        lives(l, task, p.resource),
        l.tasks[task].resident[p.resource] == (Resident::Dedicated { backing, extent }),
        p.extent is Whole,
    ensures
        l.placing(task, domain, p) matches Ok(placed) && {
            let key = placed.0.key;
            &&& key.meets(AccessKey::Whole(other)) == (other.backing == backing)
            &&& key.meets(AccessKey::Range(other, bytes)) == (other.backing == backing)
            &&& key.meets(AccessKey::Subresource(other, window)) == (other.backing == backing)
        },
{
}

/// The whole of a placed resource meets every window of it that names a byte.
pub proof fn the_whole_of_a_placed_resource_meets_its_windows(
    l: LifecycleModel,
    task: TaskId,
    domain: ChannelId,
    p: Participation,
    q: Participation,
    other_domain: ChannelId,
    w: HeapPlacement,
    x: ByteRange,
)
    requires
        lives(l, task, p.resource),
        l.tasks[task].resident[p.resource] == Resident::Placed(w),
        p.extent is Whole,
        q.resource == p.resource,
        q.extent == ParticipationExtent::Range(x),
        x.length > 0,
        x.offset + x.length <= w.region.length,
        w.region.offset + x.offset < u64::MAX,
    ensures
        l.placing(task, domain, p) matches Ok(whole) && l.placing(task, other_domain, q) matches Ok(
            window,
        ) && whole.0.key.meets(window.0.key) && window.0.key.meets(whole.0.key),
{
    let at = w.region.offset + x.offset;
    let whole = l.placing(task, domain, p)->Ok_0.0.key->Range_1;
    let window = l.placing(task, other_domain, q)->Ok_0.0.key->Range_1;
    assert(whole.has(at) && window.has(at));
}

/// Accesses through two placements that share no byte never meet, whether they
/// name the whole of a resource or a window of it.
pub proof fn placements_that_share_no_byte_never_meet(
    l: LifecycleModel,
    task: TaskId,
    domain: ChannelId,
    p: Participation,
    w: HeapPlacement,
    other_task: TaskId,
    other_domain: ChannelId,
    q: Participation,
    v: HeapPlacement,
)
    requires
        lives(l, task, p.resource),
        lives(l, other_task, q.resource),
        l.tasks[task].resident[p.resource] == Resident::Placed(w),
        l.tasks[other_task].resident[q.resource] == Resident::Placed(v),
        w.backing != v.backing || (!(p.extent is Subresource) && !(q.extent is Subresource) && (
        w.region.offset + w.region.length <= v.region.offset || v.region.offset + v.region.length
            <= w.region.offset)),
    ensures
        l.placing(task, domain, p) matches Ok(first) ==> l.placing(
            other_task,
            other_domain,
            q,
        ) matches Ok(second) ==> !first.0.key.meets(second.0.key) && !second.0.key.meets(
            first.0.key,
        ),
{
}

/// An access through a placed resource meets a declaration of its own heap and
/// of no other; one through dedicated pages meets no heap's.
pub proof fn an_access_is_in_the_heap_its_resource_is_placed_in(
    l: LifecycleModel,
    task: TaskId,
    domain: ChannelId,
    p: Participation,
    heap: HeapId,
)
    requires
        l.placing(task, domain, p) is Ok,
    ensures
        l.placing(task, domain, p)->Ok_0.0.key.meets(AccessKey::Heap(heap)) <==> (
        l.tasks[task].resident[p.resource] matches Resident::Placed(w) && w.heap == heap.id),
        l.placing(task, domain, p)->Ok_0.0.key.resource_key() matches Some(key)
            && match l.tasks[task].resident[p.resource] {
            Resident::Placed(w) => key.backing == w.backing && (key.heap matches Some(h) && h.id
                == w.heap && h.membership_generation
                == l.tasks[task].heaps[w.heap].membership_generation),
            Resident::Dedicated { backing, .. } => key.backing == backing && key.heap is None,
        },
{
}

/// A subresource travels as it was written, and the domain, the direction and
/// the stages are the participation's own.
pub proof fn an_access_keeps_what_it_declared(
    l: LifecycleModel,
    task: TaskId,
    domain: ChannelId,
    p: Participation,
)
    requires
        l.placing(task, domain, p) is Ok,
    ensures
        ({
            let intent = l.placing(task, domain, p)->Ok_0.0;
            &&& intent.domain == domain
            &&& intent.mode == p.mode
            &&& intent.api_stages == p.api_stages
            &&& p.extent matches ParticipationExtent::Subresource(s) ==> intent.key
                matches AccessKey::Subresource(_, kept) && kept == s
            &&& intent.key is Subresource ==> p.extent is Subresource
            &&& !(intent.key is Heap) && !(intent.key is DomainOnly)
        }),
{
}

/// A write is promised a version above every one its backing has reached or
/// handed out; a read is promised none and changes nothing.
pub proof fn a_write_reserves_a_version_of_its_own(
    l: LifecycleModel,
    task: TaskId,
    domain: ChannelId,
    p: Participation,
    backing: BackingId,
)
    requires
        l.placing(task, domain, p) is Ok,
        match l.tasks[task].resident[p.resource] {
            Resident::Placed(w) => w.backing == backing,
            Resident::Dedicated { backing: own, .. } => own == backing,
        },
        l.content.dom().contains(backing),
        l.content[backing].version.0 < u64::MAX,
        l.content[backing].reserved.0 < u64::MAX,
    ensures
        ({
            let intent = l.placing(task, domain, p)->Ok_0.0;
            let next = l.placing(task, domain, p)->Ok_0.1;
            &&& intent.output_content_version is None <==> p.mode is Read
            &&& p.mode is Read ==> next == l
            &&& next.tasks == l.tasks && next.counts == l.counts
            &&& intent.output_content_version matches Some(v) ==> {
                &&& v.0 > l.content[backing].version.0
                &&& v.0 > l.content[backing].reserved.0
                &&& v.0 == l.content[backing].version.0 + 1 || v.0 == l.content[backing].reserved.0
                    + 1
                &&& next.content.dom() == l.content.dom()
                &&& next.content[backing].reserved == v
                &&& next.content[backing].version == l.content[backing].version
                &&& next.content[backing].extent == l.content[backing].extent
                &&& next.content[backing].guest == l.content[backing].guest
                &&& next.content[backing].device == l.content[backing].device
                &&& forall|other: BackingId|
                    other != backing ==> #[trigger] next.content[other] == l.content[other]
            }
        }),
{
    let next = l.placing(task, domain, p)->Ok_0.1;
    assert(next.content.dom() =~= l.content.dom());
}

/// Two writes of one backing, whatever they name of it and whoever submits
/// them, are promised two versions, the later the higher.
pub proof fn two_writes_of_one_backing_are_promised_two_versions(
    l: LifecycleModel,
    task: TaskId,
    domain: ChannelId,
    p: Participation,
    other_task: TaskId,
    other_domain: ChannelId,
    q: Participation,
)
    requires
        l.placing(task, domain, p) is Ok,
        ({
            let next = l.placing(task, domain, p)->Ok_0.1;
            let backing = l.placing(task, domain, p)->Ok_0.0.key.resource_key()->0.backing;
            let row = crate::content::content_at(l.content, backing);
            &&& next.placing(other_task, other_domain, q) is Ok
            &&& next.placing(other_task, other_domain, q)->Ok_0.0.key.resource_key()->0.backing
                == backing
            &&& row.version.0 < u64::MAX - 1
            &&& row.reserved.0 < u64::MAX - 1
        }),
        !(p.mode is Read),
        !(q.mode is Read),
    ensures
        ({
            let next = l.placing(task, domain, p)->Ok_0.1;
            l.placing(task, domain, p)->Ok_0.0.output_content_version matches Some(first)
                && next.placing(other_task, other_domain, q)->Ok_0.0.output_content_version matches Some(
                second,
            ) && first.0 < second.0
        }),
{
}

/// An access to bytes consumes the version its backing is at when some replica
/// holds one of them, and no version when none does.
pub proof fn an_access_consumes_the_version_its_bytes_are_at(
    l: LifecycleModel,
    task: TaskId,
    domain: ChannelId,
    p: Participation,
    backing: BackingId,
    at: u64,
)
    requires
        l.placing(task, domain, p) is Ok,
        l.content.dom().contains(backing),
        l.placing(task, domain, p)->Ok_0.0.key matches AccessKey::Range(key, _) && key.backing
            == backing,
    ensures
        ({
            let intent = l.placing(task, domain, p)->Ok_0.0;
            let row = l.content[backing];
            let named = intent.key->Range_1;
            &&& intent.input_content_version matches Some(v) ==> v == row.version
            &&& named.offset <= at < named.offset + named.length && at < u64::MAX && (
            row.guest.contains(at as int) || row.device.contains(at as int))
                ==> intent.input_content_version is Some
            &&& (forall|b: int|
                #![auto]
                named.offset <= b < named.offset + named.length ==> !row.guest.contains(b)
                    && !row.device.contains(b)) ==> intent.input_content_version is None
        }),
{
    let row = l.content[backing];
    let named = l.placing(task, domain, p)->Ok_0.0.key->Range_1;
    if named.offset <= at < named.offset + named.length && at < u64::MAX && (row.guest.contains(
        at as int,
    ) || row.device.contains(at as int)) {
        assert(named.has(at as int));
        assert(row.produced(named));
    }
    if row.produced(named) {
        let b = choose|b: int|
            named.has(b) && (row.guest.contains(b) || row.device.contains(b));
        assert(row.guest.contains(b) || row.device.contains(b));
    }
}

/// The byte at `at` of a backing is one of the resource's.
pub open spec fn is_of(resident: Resident, backing: BackingId, at: int) -> bool {
    match resident {
        Resident::Dedicated { backing: own, extent } => own == backing && inside(
            extent.offset as int,
            extent.length as int,
            at,
        ),
        Resident::Placed(w) => w.backing == backing && inside(
            w.region.offset as int,
            w.region.length as int,
            at,
        ),
    }
}

/// A replica holds the byte at `at` of a backing.
pub open spec fn holds_byte(
    content: Map<BackingId, BackingContent>,
    backing: BackingId,
    replica: Replica,
    at: int,
) -> bool {
    content.dom().contains(backing) && match replica {
        Replica::GuestPages => content[backing].guest.contains(at),
        Replica::DeviceOwned => content[backing].device.contains(at),
    }
}

/// A task is defined exactly when it is new, and every other operation is
/// refused exactly when its task is not there.
pub proof fn an_operation_needs_its_task(l: LifecycleModel, op: LifecycleOp)
    ensures
        op matches LifecycleOp::DefineTask { task } ==> {
            &&& l.outcome(op) is Ok <==> !l.tasks.dom().contains(task)
            &&& l.outcome(op) matches Ok(done) ==> {
                &&& done.0.tasks.dom() == l.tasks.dom().insert(task)
                &&& forall|id: ResourceId| !lives(done.0, task, id)
                &&& done.0.content == l.content
            }
        },
        !(op is DefineTask) ==> (l.outcome(op) matches Err(Refusal::NoSuchTask { .. })
            <==> !l.tasks.dom().contains(op.acts_in())),
        op matches LifecycleOp::DeleteTask { task } ==> {
            &&& l.outcome(op) is Ok <==> l.tasks.dom().contains(task)
            &&& l.outcome(op) matches Ok(done) ==> done.0.tasks.dom() == l.tasks.dom().remove(task)
        },
{
    if let LifecycleOp::DefineTask { task } = op {
        if let Ok(done) = l.outcome(op) {
            assert(done.0.tasks.dom() =~= l.tasks.dom().insert(task));
        }
    }
    if let LifecycleOp::DeleteTask { task } = op {
        if let Ok(done) = l.outcome(op) {
            assert(done.0.tasks.dom() =~= l.tasks.dom().remove(task));
        }
    }
}

/// A resource is created exactly when its slot is free and, in a heap, its
/// window lies inside the heap.
pub proof fn a_resource_is_created_when_there_is_room(
    l: LifecycleModel,
    task: TaskId,
    slot: ObjectListRef,
    storage: Storage,
)
    ensures
        l.outcome(LifecycleOp::CreateResource { task, slot, storage }) is Ok <==> {
            let t = l.tasks[task];
            &&& l.tasks.dom().contains(task)
            &&& t.slots.dom().contains(slot) ==> t.slots[slot].deleted
            &&& storage matches Storage::Placed { heap, offset, length } ==> t.heaps.dom().contains(
                heap,
            ) && offset + length <= t.heaps[heap].length
        },
{
}

/// A created resource is live under a name its slot never gave out before,
/// where its storage says, and no other name moves.
pub proof fn a_created_resource_lives_where_it_was_put(
    l: LifecycleModel,
    task: TaskId,
    slot: ObjectListRef,
    storage: Storage,
    other_task: TaskId,
    other: ResourceId,
)
    requires
        l.outcome(LifecycleOp::CreateResource { task, slot, storage }) is Ok,
        l.tasks[task].slots.dom().contains(slot) ==> l.tasks[task].slots[slot].generation.0
            < u64::MAX,
        storage is Dedicated || l.tasks[task].heaps[storage->heap].membership_generation < u64::MAX,
    ensures
        ({
            let done = l.outcome(LifecycleOp::CreateResource { task, slot, storage })->Ok_0;
            let before = l.tasks[task];
            let after = done.0.tasks[task];
            let id = ResourceId { slot, generation: after.slots[slot].generation };
            &&& lives(done.0, task, id) && !lives(l, task, id)
            &&& !after.slots[slot].mapped
            &&& id.generation.0 == if before.slots.dom().contains(slot) {
                before.slots[slot].generation.0 + 1
            } else {
                1
            }
            &&& match storage {
                Storage::Dedicated { backing, extent } => after.resident[id]
                    == (Resident::Dedicated { backing, extent }) && after.heaps == before.heaps,
                Storage::Placed { heap, offset, length } => {
                    &&& after.resident[id] matches Resident::Placed(w) && w.heap == heap
                        && w.backing == before.heaps[heap].backing && w.region.offset == offset
                        && w.region.length == length
                    &&& after.heaps[heap].placements.dom().contains(id)
                    &&& after.heaps[heap].membership_generation
                        == before.heaps[heap].membership_generation + 1
                    &&& after.heaps[heap].length == before.heaps[heap].length
                },
            }
            &&& other_task != task || other.slot != slot ==> {
                &&& lives(done.0, other_task, other) == lives(l, other_task, other)
                &&& lives(l, other_task, other) ==> done.0.tasks[other_task].resident[other]
                    == l.tasks[other_task].resident[other]
            }
            &&& done.1.transfers.len() == 0 && done.1.teardowns.len() == 0
                && done.1.storage_freed.len() == 0 && done.1.at_completion.len() == 0
        }),
{
}

/// Creating a resource makes the guest's pages the only holder of exactly its
/// bytes; a resource with its own pages starts its backing over, one in a heap
/// leaves its neighbours' bytes with whoever held them.
pub proof fn a_created_resource_is_held_by_the_guest(
    l: LifecycleModel,
    task: TaskId,
    slot: ObjectListRef,
    storage: Storage,
    backing: BackingId,
    at: u64,
)
    requires
        l.outcome(LifecycleOp::CreateResource { task, slot, storage }) is Ok,
        at < u64::MAX,
    ensures
        ({
            let next = l.outcome(LifecycleOp::CreateResource { task, slot, storage })->Ok_0.0;
            let guest = holds_byte(next.content, backing, Replica::GuestPages, at as int);
            let device = holds_byte(next.content, backing, Replica::DeviceOwned, at as int);
            let unmoved = guest == holds_byte(
                l.content,
                backing,
                Replica::GuestPages,
                at as int,
            ) && device == holds_byte(l.content, backing, Replica::DeviceOwned, at as int);
            match storage {
                Storage::Dedicated { backing: own, extent } => if own != backing {
                    unmoved
                } else {
                    !device && guest == inside(extent.offset as int, extent.length as int, at as int)
                },
                Storage::Placed { heap, offset, length } => if l.tasks[task].heaps[heap].backing
                    == backing && inside(offset as int, length as int, at as int) {
                    guest && !device
                } else {
                    unmoved
                },
            }
        }),
{
}

/// Every name of a created resource's backing sees a later version than before.
pub proof fn a_created_resource_advances_its_backing(
    l: LifecycleModel,
    task: TaskId,
    slot: ObjectListRef,
    storage: Storage,
    backing: BackingId,
)
    requires
        l.outcome(LifecycleOp::CreateResource { task, slot, storage }) is Ok,
        match storage {
            Storage::Dedicated { backing: own, .. } => own == backing,
            Storage::Placed { heap, .. } => l.tasks[task].heaps[heap].backing == backing,
        },
        l.content.dom().contains(backing) ==> l.content[backing].version.0 < u64::MAX,
    ensures
        ({
            let next = l.outcome(LifecycleOp::CreateResource { task, slot, storage })->Ok_0.0;
            let version = next.content[backing].version;
            &&& next.content.dom().contains(backing)
            &&& l.content.dom().contains(backing) ==> version.0 == l.content[backing].version.0 + 1
            &&& !l.content.dom().contains(backing) ==> version.0 == 1
        }),
{
}

/// A live resource can be deleted, and nothing else can. Its name stops being
/// live, its backing is torn down once, and no other name moves.
pub proof fn a_deleted_resource_lives_no_more(
    l: LifecycleModel,
    task: TaskId,
    id: ResourceId,
    other_task: TaskId,
    other: ResourceId,
)
    ensures
        ({
            let op = LifecycleOp::DeleteResource { task, resource: id };
            &&& l.outcome(op) is Ok <==> lives(l, task, id)
            &&& l.outcome(op) matches Ok(done) ==> {
                let resident = l.tasks[task].resident[id];
                &&& !lives(done.0, task, id)
                &&& !done.0.tasks[task].resident.dom().contains(id)
                &&& other_task != task || other.slot != id.slot ==> {
                    &&& lives(done.0, other_task, other) == lives(l, other_task, other)
                    &&& done.0.tasks[other_task].resident[other]
                        == l.tasks[other_task].resident[other]
                }
                &&& resident matches Resident::Placed(w) ==> {
                    &&& !done.0.tasks[task].heaps[w.heap].placements.dom().contains(id)
                    &&& done.0.content == l.content
                }
                &&& resident matches Resident::Dedicated { backing, .. } ==> {
                    &&& !done.0.content.dom().contains(backing)
                    &&& forall|b: BackingId|
                        b != backing ==> (#[trigger] done.0.content.dom().contains(b)
                            == l.content.dom().contains(b)) && done.0.content[b] == l.content[b]
                }
                &&& done.1.teardowns.len() == 1 && done.1.teardowns[0] == (Teardown::Now {
                    backing: match resident {
                        Resident::Dedicated { backing, .. } => backing,
                        Resident::Placed(w) => w.backing,
                    },
                })
                &&& done.1.transfers.len() == 0 && done.1.storage_freed.len() == 0
                    && done.1.at_completion.len() == 0
            }
        }),
{
    reveal_with_fuel(crate::lifecycle::content_without, 2);
    assert(seq![id].drop_last() =~= Seq::<ResourceId>::empty());
    assert(seq![id].last() == id);
}

/// A map needs a live name without a mapping and gives it one; an unmap needs a
/// live name with one and takes it away. Neither moves anything else.
pub proof fn a_mapping_is_given_once_and_taken_once(
    l: LifecycleModel,
    task: TaskId,
    id: ResourceId,
    slot: ObjectListRef,
)
    ensures
        ({
            let t = l.tasks[task];
            let map = l.outcome(LifecycleOp::MapMemory { task, resource: id });
            let unmap = l.outcome(LifecycleOp::UnmapMemory { task, resource: id });
            &&& map is Ok <==> lives(l, task, id) && !t.slots[id.slot].mapped
            &&& unmap is Ok <==> lives(l, task, id) && t.slots[id.slot].mapped
            &&& map matches Ok(done) ==> {
                let after = done.0.tasks[task];
                &&& after.slots[id.slot].mapped && lives(done.0, task, id)
                &&& after.slots.dom().contains(slot) == t.slots.dom().contains(slot)
                &&& slot != id.slot ==> after.slots[slot] == t.slots[slot]
                &&& after.resident == t.resident && after.heaps == t.heaps
                &&& done.0.content == l.content
            }
            &&& unmap matches Ok(done) ==> {
                let after = done.0.tasks[task];
                &&& !after.slots[id.slot].mapped && lives(done.0, task, id)
                &&& after.slots.dom().contains(slot) == t.slots.dom().contains(slot)
                &&& slot != id.slot ==> after.slots[slot] == t.slots[slot]
                &&& after.resident == t.resident && after.heaps == t.heaps
                &&& done.0.content == l.content
            }
        }),
{
}

/// An unmap undoes a map.
pub proof fn an_unmap_undoes_a_map(l: LifecycleModel, task: TaskId, id: ResourceId)
    requires
        l.outcome(LifecycleOp::MapMemory { task, resource: id }) is Ok,
    ensures
        ({
            let mapped = l.outcome(LifecycleOp::MapMemory { task, resource: id })->Ok_0.0;
            mapped.outcome(LifecycleOp::UnmapMemory { task, resource: id }) matches Ok(done)
                && done.0.tasks =~~= l.tasks && done.0.content == l.content
        }),
{
    let mapped = l.outcome(LifecycleOp::MapMemory { task, resource: id })->Ok_0.0;
    let done = mapped.outcome(LifecycleOp::UnmapMemory { task, resource: id })->Ok_0.0;
    assert(done.tasks[task].slots =~= l.tasks[task].slots);
    assert(done.tasks[task] =~= l.tasks[task]);
    assert(done.tasks =~= l.tasks);
}

/// A live resource with its own pages can be moved to others, and nothing else
/// can. Its name stays, the new pages are held by the guest alone, and the old
/// ones are torn down and forgotten.
pub proof fn a_replaced_resource_lives_in_its_new_pages(
    l: LifecycleModel,
    task: TaskId,
    id: ResourceId,
    backing: BackingId,
    extent: ByteRange,
    other: ResourceId,
    at: u64,
)
    requires
        at < u64::MAX,
    ensures
        ({
            let op = LifecycleOp::ReplacePhysical { task, resource: id, backing, extent };
            &&& l.outcome(op) is Ok <==> lives(l, task, id) && l.tasks[task].resident[id]
                is Dedicated
            &&& l.outcome(op) matches Ok(done) ==> {
                let previous = l.tasks[task].resident[id]->Dedicated_backing;
                let after = done.0.tasks[task];
                &&& lives(done.0, task, id)
                &&& after.slots[id.slot].mapped == l.tasks[task].slots[id.slot].mapped
                &&& after.resident[id] == (Resident::Dedicated { backing, extent })
                &&& other.slot != id.slot ==> lives(done.0, task, other) == lives(l, task, other)
                    && after.resident[other] == l.tasks[task].resident[other]
                &&& after.heaps == l.tasks[task].heaps
                &&& done.1.teardowns.len() == 1 && done.1.teardowns[0] == (Teardown::Now {
                    backing: previous,
                })
                &&& !done.0.content.dom().contains(previous)
                &&& backing != previous ==> holds_byte(
                    done.0.content,
                    backing,
                    Replica::GuestPages,
                    at as int,
                ) == inside(extent.offset as int, extent.length as int, at as int) && !holds_byte(
                    done.0.content,
                    backing,
                    Replica::DeviceOwned,
                    at as int,
                )
                &&& forall|b: BackingId|
                    b != backing && b != previous ==> (#[trigger] done.0.content.dom().contains(b)
                        == l.content.dom().contains(b)) && done.0.content[b] == l.content[b]
            }
        }),
{
}

/// A list is refused exactly when some name of it is not live, and for the
/// first such name.
pub proof fn a_list_is_refused_for_its_first_dead_name(
    l: LifecycleModel,
    task: TaskId,
    ids: Seq<ResourceId>,
)
    requires
        l.tasks.dom().contains(task),
    ensures
        l.tasks[task].list_refusal(ids) is None <==> forall|i: int|
            0 <= i < ids.len() ==> lives(l, task, #[trigger] ids[i]),
        forall|k: int|
            #![trigger ids[k]]
            0 <= k < ids.len() && !lives(l, task, ids[k]) && (forall|i: int|
                0 <= i < k ==> lives(l, task, #[trigger] ids[i])) ==> l.outcome(
                LifecycleOp::DeleteResource { task, resource: ids[k] },
            ) == Err::<(LifecycleModel, EffectsModel), Refusal>(
                Refusal::Namespace { task, refusal: l.tasks[task].list_refusal(ids)->0 },
            ),
    decreases ids.len(),
{
    let t = l.tasks[task];
    if ids.len() > 0 {
        let rest = ids.drop_last();
        a_list_is_refused_for_its_first_dead_name(l, task, rest);
        assert forall|i: int| 0 <= i < rest.len() implies #[trigger] rest[i] == ids[i] by {}
        let last = ids[ids.len() - 1];
        assert(last == ids.last());
        assert((crate::namespace::resolution(t.slots, last) is Ok) == lives(l, task, last));
        if t.list_refusal(ids) is None {
            assert forall|i: int| 0 <= i < ids.len() implies lives(l, task, #[trigger] ids[i]) by {
                if i < rest.len() {
                    assert(rest[i] == ids[i]);
                }
            }
        }
        if forall|i: int| 0 <= i < ids.len() ==> lives(l, task, #[trigger] ids[i]) {
            assert forall|i: int| 0 <= i < rest.len() implies lives(l, task, #[trigger] rest[i]) by {
                assert(rest[i] == ids[i]);
            }
            assert(lives(l, task, ids[ids.len() - 1]));
        }
        assert forall|k: int|
            #![trigger ids[k]]
            0 <= k < ids.len() && !lives(l, task, ids[k]) && (forall|i: int|
                0 <= i < k ==> lives(l, task, #[trigger] ids[i])) implies l.outcome(
            LifecycleOp::DeleteResource { task, resource: ids[k] },
        ) == Err::<(LifecycleModel, EffectsModel), Refusal>(
            Refusal::Namespace { task, refusal: t.list_refusal(ids)->0 },
        ) by {
            if k < rest.len() {
                assert(rest[k] == ids[k]);
                assert forall|i: int| 0 <= i < k implies lives(l, task, #[trigger] rest[i]) by {
                    assert(rest[i] == ids[i]);
                }
                assert(t.list_refusal(rest) is Some);
            } else {
                assert forall|i: int| 0 <= i < rest.len() implies lives(
                    l,
                    task,
                    #[trigger] rest[i],
                ) by {
                    assert(rest[i] == ids[i]);
                }
                assert(t.list_refusal(rest) is None);
            }
        }
    }
}

/// Invalidating resources needs every name live. It makes the guest's pages the
/// only holder of each of their bytes and leaves every other byte with whoever
/// held it; no name moves.
pub proof fn an_invalidate_gives_the_guest_exactly_its_resources(
    l: LifecycleModel,
    task: TaskId,
    resources: Vec<ResourceId>,
    backing: BackingId,
    at: u64,
)
    requires
        at < u64::MAX,
    ensures
        ({
            let op = LifecycleOp::Invalidate { task, resources };
            let named = exists|i: int|
                0 <= i < resources@.len() && is_of(
                    l.tasks[task].resident[#[trigger] resources@[i]],
                    backing,
                    at as int,
                );
            &&& l.outcome(op) is Ok <==> l.tasks.dom().contains(task) && forall|i: int|
                0 <= i < resources@.len() ==> lives(l, task, #[trigger] resources@[i])
            &&& l.outcome(op) matches Ok(done) ==> {
                &&& done.0.tasks == l.tasks
                &&& done.1.transfers.len() == 0 && done.1.at_completion.len() == 0
                &&& named ==> holds_byte(
                    done.0.content,
                    backing,
                    Replica::GuestPages,
                    at as int,
                ) && !holds_byte(done.0.content, backing, Replica::DeviceOwned, at as int)
                &&& !named ==> forall|r: Replica|
                    holds_byte(done.0.content, backing, r, at as int) == #[trigger] holds_byte(
                        l.content,
                        backing,
                        r,
                        at as int,
                    )
            }
        }),
{
    if l.tasks.dom().contains(task) {
        a_list_is_refused_for_its_first_dead_name(l, task, resources@);
    }
    let resident = l.tasks[task].resident;
    lemma_invalidated(l.content, resident, resources@, backing, at);
}

proof fn lemma_invalidated(
    content: Map<BackingId, BackingContent>,
    resident: Map<ResourceId, Resident>,
    ids: Seq<ResourceId>,
    backing: BackingId,
    at: u64,
)
    requires
        at < u64::MAX,
    ensures
        ({
            let after = crate::lifecycle::content_invalidated(content, resident, ids);
            let named = exists|i: int|
                0 <= i < ids.len() && is_of(resident[#[trigger] ids[i]], backing, at as int);
            &&& named ==> holds_byte(after, backing, Replica::GuestPages, at as int) && !holds_byte(
                after,
                backing,
                Replica::DeviceOwned,
                at as int,
            )
            &&& !named ==> forall|r: Replica|
                holds_byte(after, backing, r, at as int) == #[trigger] holds_byte(
                    content,
                    backing,
                    r,
                    at as int,
                )
        }),
    decreases ids.len(),
{
    let after = crate::lifecycle::content_invalidated(content, resident, ids);
    if ids.len() > 0 {
        let rest = ids.drop_last();
        lemma_invalidated(content, resident, rest, backing, at);
        let middle = crate::lifecycle::content_invalidated(content, resident, rest);
        let last = ids[ids.len() - 1];
        assert(last == ids.last());
        if is_of(resident[last], backing, at as int) {
            assert(resident[last].region().has(at as int));
            assert(holds_byte(after, backing, Replica::GuestPages, at as int));
            assert(!holds_byte(after, backing, Replica::DeviceOwned, at as int));
        } else {
            if resident[last].storage() == backing {
                assert(!resident[last].region().has(at as int));
            }
            assert(forall|r: Replica|
                holds_byte(after, backing, r, at as int) == #[trigger] holds_byte(
                    middle,
                    backing,
                    r,
                    at as int,
                ));
            if exists|i: int|
                0 <= i < ids.len() && is_of(resident[#[trigger] ids[i]], backing, at as int) {
                let i = choose|i: int|
                    0 <= i < ids.len() && is_of(resident[#[trigger] ids[i]], backing, at as int);
                assert(rest[i] == ids[i]);
            } else {
                assert forall|i: int| 0 <= i < rest.len() implies !is_of(
                    resident[#[trigger] rest[i]],
                    backing,
                    at as int,
                ) by {
                    assert(rest[i] == ids[i]);
                }
            }
        }
    }
}

/// A synchronise copies from the device to the guest, and its copies are
/// exactly the bytes of its resources that the device holds and the guest does
/// not. It moves no name and no content itself.
pub proof fn a_synchronise_copies_exactly_what_the_guest_is_behind_on(
    l: LifecycleModel,
    task: TaskId,
    resources: Vec<ResourceId>,
    op: LifecycleOp,
    backing: BackingId,
    at: u64,
)
    requires
        op == (LifecycleOp::Synchronize { task, resources }) || op
            == (LifecycleOp::SynchronizeAndDiscard { task, resources }),
        at < u64::MAX,
    ensures
        l.outcome(op) is Ok <==> l.tasks.dom().contains(task) && forall|i: int|
            0 <= i < resources@.len() ==> lives(l, task, #[trigger] resources@[i]),
        l.outcome(op) matches Ok(done) ==> {
            let named = exists|i: int|
                0 <= i < resources@.len() && is_of(
                    l.tasks[task].resident[#[trigger] resources@[i]],
                    backing,
                    at as int,
                );
            let copied = exists|i: int|
                0 <= i < done.1.transfers.len() && (#[trigger] done.1.transfers[i]).backing
                    == backing && done.1.transfers[i].bytes.contains(at as int);
            &&& copied <==> named && holds_byte(
                l.content,
                backing,
                Replica::DeviceOwned,
                at as int,
            ) && !holds_byte(l.content, backing, Replica::GuestPages, at as int)
            &&& forall|i: int|
                0 <= i < done.1.transfers.len() ==> (#[trigger] done.1.transfers[i]).from
                    == Replica::DeviceOwned && done.1.transfers[i].to == Replica::GuestPages
            &&& done.0.tasks == l.tasks && done.0.content == l.content
            &&& done.1.teardowns.len() == 0 && done.1.storage_freed.len() == 0
        },
{
    if l.tasks.dom().contains(task) {
        a_list_is_refused_for_its_first_dead_name(l, task, resources@);
    }
    lemma_copied(l.content, l.tasks[task].resident, resources@, backing, at);
}

proof fn lemma_copied(
    content: Map<BackingId, BackingContent>,
    resident: Map<ResourceId, Resident>,
    ids: Seq<ResourceId>,
    backing: BackingId,
    at: u64,
)
    requires
        at < u64::MAX,
    ensures
        ({
            let owed = crate::lifecycle::transfers_owed(content, resident, ids);
            let named = exists|i: int|
                0 <= i < ids.len() && is_of(resident[#[trigger] ids[i]], backing, at as int);
            let copied = exists|i: int|
                0 <= i < owed.len() && (#[trigger] owed[i]).backing == backing
                    && owed[i].bytes.contains(at as int);
            &&& copied <==> named && holds_byte(content, backing, Replica::DeviceOwned, at as int)
                && !holds_byte(content, backing, Replica::GuestPages, at as int)
            &&& forall|i: int|
                0 <= i < owed.len() ==> (#[trigger] owed[i]).from == Replica::DeviceOwned
                    && owed[i].to == Replica::GuestPages
        }),
    decreases ids.len(),
{
    let owed = crate::lifecycle::transfers_owed(content, resident, ids);
    let behind = holds_byte(content, backing, Replica::DeviceOwned, at as int) && !holds_byte(
        content,
        backing,
        Replica::GuestPages,
        at as int,
    );
    if ids.len() > 0 {
        let rest = ids.drop_last();
        lemma_copied(content, resident, rest, backing, at);
        let before = crate::lifecycle::transfers_owed(content, resident, rest);
        let last = ids[ids.len() - 1];
        assert(last == ids.last());
        let row = crate::content::content_at(content, resident[last].storage());
        let bytes = row.movable(resident[last].region(), Replica::GuestPages);
        assert(bytes.contains(at as int) && resident[last].storage() == backing <==> is_of(
            resident[last],
            backing,
            at as int,
        ) && behind);
        if is_of(resident[last], backing, at as int) && behind {
            assert(bytes != Set::<int>::empty());
            assert(owed[before.len() as int].bytes.contains(at as int));
            assert(owed[before.len() as int].backing == backing);
        }
        if exists|i: int|
            0 <= i < ids.len() && is_of(resident[#[trigger] ids[i]], backing, at as int) {
            let i = choose|i: int|
                0 <= i < ids.len() && is_of(resident[#[trigger] ids[i]], backing, at as int);
            if i < rest.len() {
                assert(rest[i] == ids[i]);
                if behind {
                    let k = choose|k: int|
                        0 <= k < before.len() && (#[trigger] before[k]).backing == backing
                            && before[k].bytes.contains(at as int);
                    assert(owed[k] == before[k]);
                }
            }
        }
        if exists|i: int|
            0 <= i < owed.len() && (#[trigger] owed[i]).backing == backing
                && owed[i].bytes.contains(at as int) {
            let i = choose|i: int|
                0 <= i < owed.len() && (#[trigger] owed[i]).backing == backing
                    && owed[i].bytes.contains(at as int);
            if i < before.len() {
                assert(before[i] == owed[i]);
                let k = choose|k: int|
                    0 <= k < rest.len() && is_of(resident[#[trigger] rest[k]], backing, at as int);
                assert(ids[k] == rest[k]);
            } else {
                assert(is_of(resident[ids[ids.len() - 1]], backing, at as int));
            }
        }
        assert forall|i: int| 0 <= i < owed.len() implies (#[trigger] owed[i]).from
            == Replica::DeviceOwned && owed[i].to == Replica::GuestPages by {
            if i < before.len() {
                assert(before[i] == owed[i]);
            }
        }
    }
}

/// A discard, alone or with a synchronise, offers each listed resource's bytes
/// in the order listed; a plain synchronise offers none, and a plain discard
/// copies none.
pub proof fn a_discard_offers_its_resources_in_order(
    l: LifecycleModel,
    task: TaskId,
    resources: Vec<ResourceId>,
    i: int,
)
    requires
        l.tasks.dom().contains(task),
        forall|k: int| 0 <= k < resources@.len() ==> lives(l, task, #[trigger] resources@[k]),
        0 <= i < resources@.len(),
    ensures
        l.outcome(LifecycleOp::Synchronize { task, resources }) matches Ok(done)
            && done.1.at_completion.len() == 0,
        l.outcome(LifecycleOp::Discard { task, resources }) matches Ok(done)
            && l.outcome(LifecycleOp::SynchronizeAndDiscard { task, resources }) matches Ok(both)
            && {
            let offers = done.1.at_completion;
            &&& done.0 == l && done.1.transfers.len() == 0
            &&& both.1.at_completion == offers
            &&& both.1.transfers == l.outcome(
                LifecycleOp::Synchronize { task, resources },
            )->Ok_0.1.transfers
            &&& offers.len() == resources@.len()
            &&& offers[i].resource == resources@[i]
            &&& match l.tasks[task].resident[resources@[i]] {
                Resident::Dedicated { backing, extent } => offers[i].backing == backing
                    && offers[i].bytes == extent,
                Resident::Placed(w) => offers[i].backing == w.backing && offers[i].bytes == w.region,
            }
        },
{
    a_list_is_refused_for_its_first_dead_name(l, task, resources@);
}

/// Executing transfers gives each one's destination exactly its bytes: a byte
/// of a transfer is held where it went, and a byte no transfer brought to a
/// replica is held there as before.
pub proof fn a_transfer_brings_exactly_its_bytes(
    content: Map<BackingId, BackingContent>,
    transfers: Seq<TransferModel>,
    backing: BackingId,
    replica: Replica,
    at: int,
)
    ensures
        ({
            let after = crate::lifecycle::content_transferred(content, transfers);
            let brought = exists|i: int|
                0 <= i < transfers.len() && (#[trigger] transfers[i]).backing == backing
                    && transfers[i].to == replica && transfers[i].bytes.contains(at);
            holds_byte(after, backing, replica, at) <==> brought || holds_byte(
                content,
                backing,
                replica,
                at,
            )
        }),
    decreases transfers.len(),
{
    if transfers.len() > 0 {
        let rest = transfers.drop_last();
        a_transfer_brings_exactly_its_bytes(content, rest, backing, replica, at);
        let last = transfers[transfers.len() - 1];
        assert(last == transfers.last());
        if exists|i: int|
            0 <= i < transfers.len() && (#[trigger] transfers[i]).backing == backing
                && transfers[i].to == replica && transfers[i].bytes.contains(at) {
            let i = choose|i: int|
                0 <= i < transfers.len() && (#[trigger] transfers[i]).backing == backing
                    && transfers[i].to == replica && transfers[i].bytes.contains(at);
            if i < rest.len() {
                assert(rest[i] == transfers[i]);
            }
        }
        if exists|i: int|
            0 <= i < rest.len() && (#[trigger] rest[i]).backing == backing && rest[i].to == replica
                && rest[i].bytes.contains(at) {
            let i = choose|i: int|
                0 <= i < rest.len() && (#[trigger] rest[i]).backing == backing && rest[i].to
                    == replica && rest[i].bytes.contains(at);
            assert(transfers[i] == rest[i]);
        }
    }
}

/// An offer whose every byte the guest holds too is taken: afterwards the
/// device holds none of its bytes. The guest keeps every byte it held, and the
/// device every byte no offer names.
pub proof fn a_safe_offer_is_taken(
    content: Map<BackingId, BackingContent>,
    discards: Seq<DeferredDiscard>,
    backing: BackingId,
    at: u64,
)
    requires
        at < u64::MAX,
    ensures
        ({
            let after = crate::lifecycle::content_discarded(content, discards);
            &&& holds_byte(after, backing, Replica::GuestPages, at as int) == holds_byte(
                content,
                backing,
                Replica::GuestPages,
                at as int,
            )
            &&& holds_byte(after, backing, Replica::DeviceOwned, at as int) ==> holds_byte(
                content,
                backing,
                Replica::DeviceOwned,
                at as int,
            )
            &&& (forall|i: int|
                0 <= i < discards.len() && (#[trigger] discards[i]).backing == backing ==> !inside(
                    discards[i].bytes.offset as int,
                    discards[i].bytes.length as int,
                    at as int,
                )) ==> holds_byte(after, backing, Replica::DeviceOwned, at as int) == holds_byte(
                content,
                backing,
                Replica::DeviceOwned,
                at as int,
            )
            &&& forall|i: int|
                #![trigger discards[i]]
                0 <= i < discards.len() && discards[i].backing == backing && inside(
                    discards[i].bytes.offset as int,
                    discards[i].bytes.length as int,
                    at as int,
                ) && is_safe(content, discards[i]) ==> !holds_byte(
                    after,
                    backing,
                    Replica::DeviceOwned,
                    at as int,
                )
        }),
    decreases discards.len(),
{
    let after = crate::lifecycle::content_discarded(content, discards);
    if discards.len() > 0 {
        let rest = discards.drop_last();
        a_safe_offer_is_taken(content, rest, backing, at);
        let middle = crate::lifecycle::content_discarded(content, rest);
        let last = discards[discards.len() - 1];
        assert(last == discards.last());
        assert(forall|i: int| 0 <= i < rest.len() ==> #[trigger] rest[i] == discards[i]);
        if forall|i: int|
            0 <= i < discards.len() && (#[trigger] discards[i]).backing == backing ==> !inside(
                discards[i].bytes.offset as int,
                discards[i].bytes.length as int,
                at as int,
            ) {
            assert forall|i: int|
                0 <= i < rest.len() && (#[trigger] rest[i]).backing == backing implies !inside(
                rest[i].bytes.offset as int,
                rest[i].bytes.length as int,
                at as int,
            ) by {
                assert(rest[i] == discards[i]);
            }
            assert(last.backing == backing ==> !last.bytes.has(at as int));
        }
        assert forall|i: int|
            #![trigger discards[i]]
            0 <= i < discards.len() && discards[i].backing == backing && inside(
                discards[i].bytes.offset as int,
                discards[i].bytes.length as int,
                at as int,
            ) && is_safe(content, discards[i]) implies !holds_byte(
            after,
            backing,
            Replica::DeviceOwned,
            at as int,
        ) by {
            if i < rest.len() {
                assert(rest[i] == discards[i]);
            } else {
                assert(last.bytes.has(at as int));
                let sole = crate::lifecycle::destroyed_by(middle, last);
                if holds_byte(middle, backing, Replica::DeviceOwned, at as int) {
                    assert forall|b: int| !sole.contains(b) by {
                        if sole.contains(b) {
                            let c = b as u64;
                            a_safe_offer_is_taken(content, rest, backing, c);
                            assert(holds_byte(content, backing, Replica::DeviceOwned, b));
                            assert(holds_byte(content, backing, Replica::GuestPages, b));
                        }
                    }
                    assert(sole =~= Set::<int>::empty());
                    assert(middle.dom().contains(last.backing));
                }
            }
        }
    }
}

/// The guest holds every byte of the offer that the device holds.
pub open spec fn is_safe(
    content: Map<BackingId, BackingContent>,
    offer: DeferredDiscard,
) -> bool {
    forall|b: int|
        inside(offer.bytes.offset as int, offer.bytes.length as int, b) && #[trigger] holds_byte(
            content,
            offer.backing,
            Replica::DeviceOwned,
            b,
        ) ==> holds_byte(content, offer.backing, Replica::GuestPages, b)
}

/// A name resolves to the bytes its resource is, in its storage, exactly while
/// it is live.
pub proof fn a_live_name_resolves_to_its_own_bytes(
    l: LifecycleModel,
    task: TaskId,
    id: ResourceId,
)
    ensures
        l.whereabouts(task, id) is Ok <==> lives(l, task, id),
        l.whereabouts(task, id) matches Ok(bytes) ==> match l.tasks[task].resident[id] {
            Resident::Dedicated { extent, .. } => bytes == extent,
            Resident::Placed(w) => bytes == w.region,
        },
{
}

/// A heap is declared exactly when its task is there and has none of that
/// number. It starts empty over the storage named, and nothing else moves.
pub proof fn a_declared_heap_starts_empty(
    l: LifecycleModel,
    task: TaskId,
    heap: u64,
    backing: BackingId,
    length: u64,
    other: u64,
)
    ensures
        l.heap_declaration(task, heap, backing, length) is Ok <==> l.tasks.dom().contains(task)
            && !l.tasks[task].heaps.dom().contains(heap),
        l.heap_declaration(task, heap, backing, length) matches Ok(next) ==> {
            let before = l.tasks[task];
            let after = next.tasks[task];
            &&& after.heaps.dom().contains(heap)
            &&& after.heaps[heap].backing == backing
            &&& after.heaps[heap].length == length
            &&& after.heaps[heap].placements.dom() == Set::<ResourceId>::empty()
            &&& other != heap ==> after.heaps.dom().contains(other)
                == before.heaps.dom().contains(other) && after.heaps[other] == before.heaps[other]
            &&& after.slots == before.slots && after.resident == before.resident
            &&& next.content == l.content
        },
{
}

/// A write is recorded exactly when its name is live and its window lies inside
/// the resource. It makes the writer the only holder of exactly the window's
/// bytes.
pub proof fn a_recorded_write_holds_exactly_its_window(
    l: LifecycleModel,
    task: TaskId,
    id: ResourceId,
    offset: u64,
    length: u64,
    replica: Replica,
    other: Replica,
    backing: BackingId,
    at: u64,
)
    requires
        other != replica,
        at < u64::MAX,
    ensures
        ({
            let resident = l.tasks[task].resident[id];
            let recorded = l.recording(task, id, offset, length, replica);
            let limit = match resident {
                Resident::Dedicated { extent, .. } => extent.length,
                Resident::Placed(w) => w.region.length,
            };
            &&& recorded is Ok <==> lives(l, task, id) && offset + length <= limit
            &&& recorded matches Ok(next) ==> {
                let written = match resident {
                    Resident::Dedicated { backing: own, extent } => own == backing && inside(
                        extent.offset + offset,
                        length as int,
                        at as int,
                    ),
                    Resident::Placed(w) => w.backing == backing && inside(
                        w.region.offset + offset,
                        length as int,
                        at as int,
                    ),
                };
                &&& next.tasks == l.tasks
                &&& written ==> holds_byte(next.content, backing, replica, at as int) && !holds_byte(
                    next.content,
                    backing,
                    other,
                    at as int,
                )
                &&& !written ==> forall|r: Replica|
                    holds_byte(next.content, backing, r, at as int) == #[trigger] holds_byte(
                        l.content,
                        backing,
                        r,
                        at as int,
                    )
            }
        }),
{
    let resident = l.tasks[task].resident[id];
    if let Ok(next) = l.recording(task, id, offset, length, replica) {
        let bytes = crate::heap::window_of(resident.region(), offset, length)->Ok_0;
        assert(bytes.bytes().contains(at as int) == inside(
            resident.region().offset + offset,
            length as int,
            at as int,
        ));
    }
}

/// Deleting a task frees the storage of every heap it had, each once.
pub proof fn freed_storage_is_every_heaps_once(backings: Seq<BackingId>, n: int)
    requires
        0 <= n <= backings.len(),
    ensures
        ({
            let freed = crate::lifecycle::freed_by(backings, n);
            &&& n == backings.len() ==> forall|b: BackingId| #[trigger]
                freed.contains(b) == backings.contains(b)
            &&& freed.no_duplicates()
            &&& forall|b: BackingId| #[trigger]
                freed.contains(b) == (backings.take(n).contains(b) && !backings.skip(n).contains(b))
        }),
    decreases n,
{
    let freed = crate::lifecycle::freed_by(backings, n);
    if n > 0 {
        let last = backings[n - 1];
        freed_storage_is_every_heaps_once(backings, n - 1);
        let before = crate::lifecycle::freed_by(backings, n - 1);
        assert(backings.take(n) =~= backings.take(n - 1).push(last));
        assert(backings.skip(n - 1) =~= seq![last] + backings.skip(n));
        assert forall|b: BackingId| #[trigger]
            freed.contains(b) == (backings.take(n).contains(b) && !backings.skip(n).contains(b)) by {
            lemma_pushed(backings.take(n - 1), last, b);
            lemma_led(last, backings.skip(n), b);
            lemma_pushed(before, last, b);
            assert(before.contains(b) == (backings.take(n - 1).contains(b) && !backings.skip(
                n - 1,
            ).contains(b)));
        }
        lemma_led(last, backings.skip(n), last);
        assert(!before.contains(last));
    }
    assert(backings.take(backings.len() as int) =~= backings);
    assert(backings.skip(backings.len() as int).len() == 0);
}

proof fn lemma_pushed(s: Seq<BackingId>, x: BackingId, b: BackingId)
    ensures
        s.push(x).contains(b) == (s.contains(b) || b == x),
{
    if s.contains(b) {
        let i = choose|i: int| 0 <= i < s.len() && s[i] == b;
        assert(s.push(x)[i] == b);
    }
    assert(s.push(x)[s.len() as int] == x);
    if s.push(x).contains(b) {
        let i = choose|i: int| 0 <= i < s.push(x).len() && s.push(x)[i] == b;
        if i < s.len() {
            assert(s[i] == b);
        }
    }
}

proof fn lemma_led(x: BackingId, s: Seq<BackingId>, b: BackingId)
    ensures
        (seq![x] + s).contains(b) == (s.contains(b) || b == x),
{
    let all = seq![x] + s;
    if s.contains(b) {
        let i = choose|i: int| 0 <= i < s.len() && s[i] == b;
        assert(all[i + 1] == b);
    }
    assert(all[0] == x);
    if all.contains(b) {
        let i = choose|i: int| 0 <= i < all.len() && all[i] == b;
        if i > 0 {
            assert(s[i - 1] == b);
        }
    }
}

/// Deleting resources forgets the content of exactly the pages they had to
/// themselves, and leaves every other backing's as it was.
pub proof fn a_deleted_resource_takes_its_own_pages_with_it(
    content: Map<BackingId, BackingContent>,
    resident: Map<ResourceId, Resident>,
    ids: Seq<ResourceId>,
    backing: BackingId,
)
    ensures
        ({
            let after = crate::lifecycle::content_without(content, resident, ids);
            let taken = exists|i: int|
                0 <= i < ids.len() && resident[#[trigger] ids[i]] is Dedicated
                    && resident[ids[i]]->Dedicated_backing == backing;
            &&& after.dom().contains(backing) == (content.dom().contains(backing) && !taken)
            &&& after.dom().contains(backing) ==> after[backing] == content[backing]
        }),
    decreases ids.len(),
{
    if ids.len() > 0 {
        let rest = ids.drop_last();
        a_deleted_resource_takes_its_own_pages_with_it(content, resident, rest, backing);
        assert(ids.last() == ids[ids.len() - 1]);
        if exists|i: int|
            0 <= i < rest.len() && resident[#[trigger] rest[i]] is Dedicated
                && resident[rest[i]]->Dedicated_backing == backing {
            let i = choose|i: int|
                0 <= i < rest.len() && resident[#[trigger] rest[i]] is Dedicated
                    && resident[rest[i]]->Dedicated_backing == backing;
            assert(ids[i] == rest[i]);
        }
        if exists|i: int|
            0 <= i < ids.len() && resident[#[trigger] ids[i]] is Dedicated
                && resident[ids[i]]->Dedicated_backing == backing {
            let i = choose|i: int|
                0 <= i < ids.len() && resident[#[trigger] ids[i]] is Dedicated
                    && resident[ids[i]]->Dedicated_backing == backing;
            if i < rest.len() {
                assert(ids[i] == rest[i]);
            }
        }
    }
}

/// Forgetting backings forgets exactly those.
pub proof fn exactly_the_named_backings_are_forgotten(
    content: Map<BackingId, BackingContent>,
    backings: Seq<BackingId>,
    backing: BackingId,
)
    ensures
        ({
            let after = crate::lifecycle::forgotten(content, backings);
            &&& after.dom().contains(backing) == (content.dom().contains(backing)
                && !backings.contains(backing))
            &&& after.dom().contains(backing) ==> after[backing] == content[backing]
        }),
    decreases backings.len(),
{
    if backings.len() > 0 {
        let rest = backings.drop_last();
        exactly_the_named_backings_are_forgotten(content, rest, backing);
        assert(backings =~= rest.push(backings.last()));
        lemma_pushed(rest, backings.last(), backing);
    }
}

/// What an offer would destroy after others were evaluated is what it would
/// have destroyed before them.
proof fn lemma_sole(
    content: Map<BackingId, BackingContent>,
    rest: Seq<DeferredDiscard>,
    last: DeferredDiscard,
)
    requires
        last.bytes.offset + last.bytes.length <= u64::MAX,
    ensures
        ({
            let middle = crate::lifecycle::content_discarded(content, rest);
            (crate::lifecycle::destroyed_by(middle, last) == Set::<int>::empty()) == is_safe(
                content,
                last,
            )
        }),
{
    let middle = crate::lifecycle::content_discarded(content, rest);
    let sole = crate::lifecycle::destroyed_by(middle, last);
    assert forall|b: int| #[trigger]
        sole.contains(b) == (last.bytes.has(b) && holds_byte(
            content,
            last.backing,
            Replica::DeviceOwned,
            b,
        ) && !holds_byte(content, last.backing, Replica::GuestPages, b)) by {
        if last.bytes.has(b) {
            let at = b as u64;
            a_safe_offer_is_taken(content, rest, last.backing, at);
            if holds_byte(content, last.backing, Replica::DeviceOwned, b) && !holds_byte(
                content,
                last.backing,
                Replica::GuestPages,
                b,
            ) {
                crate::lifecycle::a_discard_never_destroys_content(content, rest, last.backing, b);
            }
        }
    }
    if sole == Set::<int>::empty() {
        assert forall|b: int|
            inside(last.bytes.offset as int, last.bytes.length as int, b) && #[trigger] holds_byte(
                content,
                last.backing,
                Replica::DeviceOwned,
                b,
            ) implies holds_byte(content, last.backing, Replica::GuestPages, b) by {
            assert(!sole.contains(b));
            assert(last.bytes.has(b));
        }
    } else {
        assert(!(sole =~= Set::<int>::empty()));
        let b = choose|b: int| sole.contains(b);
        assert(sole.contains(b));
        assert(inside(last.bytes.offset as int, last.bytes.length as int, b));
    }
}

/// An offer of which the device alone holds a byte is declined, under its own
/// name.
pub proof fn an_unsafe_offer_is_declined(
    content: Map<BackingId, BackingContent>,
    discards: Seq<DeferredDiscard>,
    i: int,
) -> (j: int)
    requires
        0 <= i < discards.len(),
        discards[i].bytes.offset + discards[i].bytes.length <= u64::MAX,
        !is_safe(content, discards[i]),
    ensures
        ({
            let declined = crate::lifecycle::declined_of(content, discards);
            &&& 0 <= j < declined.len()
            &&& declined[j].resource == discards[i].resource
            &&& declined[j].backing == discards[i].backing
        }),
    decreases discards.len(),
{
    let declined = crate::lifecycle::declined_of(content, discards);
    let rest = discards.drop_last();
    let before = crate::lifecycle::declined_of(content, rest);
    if i < rest.len() {
        let j = an_unsafe_offer_is_declined(content, rest, i);
        assert(declined[j] == before[j]);
        j
    } else {
        lemma_sole(content, rest, discards[i]);
        assert(declined == before.push(declined.last()));
        before.len() as int
    }
}

/// What is declined was offered, and the device alone held a byte of it.
pub proof fn a_declined_offer_was_unsafe(
    content: Map<BackingId, BackingContent>,
    discards: Seq<DeferredDiscard>,
    j: int,
) -> (i: int)
    requires
        0 <= j < crate::lifecycle::declined_of(content, discards).len(),
        forall|i: int|
            0 <= i < discards.len() ==> (#[trigger] discards[i]).bytes.offset
                + discards[i].bytes.length <= u64::MAX,
    ensures
        ({
            let declined = crate::lifecycle::declined_of(content, discards);
            &&& 0 <= i < discards.len()
            &&& declined[j].resource == discards[i].resource
            &&& declined[j].backing == discards[i].backing
            &&& !is_safe(content, discards[i])
        }),
    decreases discards.len(),
{
    let declined = crate::lifecycle::declined_of(content, discards);
    let rest = discards.drop_last();
    let before = crate::lifecycle::declined_of(content, rest);
    let last = discards[discards.len() - 1];
    if j < before.len() {
        assert forall|i: int| 0 <= i < rest.len() implies (#[trigger] rest[i]).bytes.offset
            + rest[i].bytes.length <= u64::MAX by {
            assert(rest[i] == discards[i]);
        }
        let i = a_declined_offer_was_unsafe(content, rest, j);
        assert(declined[j] == before[j]);
        i
    } else {
        lemma_sole(content, rest, last);
        discards.len() - 1
    }
}

/// Deleting a task tears down the backing of each of its names, frees the
/// storage of each of its heaps once, and forgets the content of exactly what
/// it had to itself: the pages of its resources and the storage of its heaps.
pub proof fn deleting_a_task_takes_what_was_its_own(
    l: LifecycleModel,
    task: TaskId,
    backing: BackingId,
    k: int,
)
    requires
        l.tasks.dom().contains(task),
    ensures
        l.outcome(LifecycleOp::DeleteTask { task }) matches Ok(done) && {
            let t = l.tasks[task];
            let names = t.names();
            let heaps = t.heap_backings();
            let own = exists|i: int|
                0 <= i < names.len() && t.resident[#[trigger] names[i]] is Dedicated
                    && t.resident[names[i]]->Dedicated_backing == backing;
            &&& done.1.teardowns.len() == names.len()
            &&& 0 <= k < names.len() ==> done.1.teardowns[k] == (Teardown::Now {
                backing: match t.resident[names[k]] {
                    Resident::Dedicated { backing: b, .. } => b,
                    Resident::Placed(w) => w.backing,
                },
            })
            &&& done.1.storage_freed.contains(backing) == heaps.contains(backing)
            &&& done.1.storage_freed.no_duplicates()
            &&& done.0.content.dom().contains(backing) == (l.content.dom().contains(backing)
                && !own && !heaps.contains(backing))
            &&& done.0.content.dom().contains(backing) ==> done.0.content[backing]
                == l.content[backing]
            &&& done.1.transfers.len() == 0 && done.1.at_completion.len() == 0
        },
{
    let t = l.tasks[task];
    let heaps = t.heap_backings();
    freed_storage_is_every_heaps_once(heaps, heaps.len() as int);
    assert(t.heap_storage().contains(backing) == heaps.contains(backing));
    a_deleted_resource_takes_its_own_pages_with_it(l.content, t.resident, t.names(), backing);
    exactly_the_named_backings_are_forgotten(
        crate::lifecycle::content_without(l.content, t.resident, t.names()),
        t.heap_storage(),
        backing,
    );
}

/// Each write that is recorded is counted once, and nothing else is.
pub proof fn every_write_is_counted(counts: Census, n: nat)
    requires
        counts.writes + n <= usize::MAX,
    ensures
        crate::lifecycle::counts_written(counts, n).writes == counts.writes + n,
        crate::lifecycle::counts_written(counts, n).transfers_planned == counts.transfers_planned,
        crate::lifecycle::counts_written(counts, n).transfer_bytes == counts.transfer_bytes,
        crate::lifecycle::counts_written(counts, n).reads_already_fresh
            == counts.reads_already_fresh,
    decreases n,
{
    if n > 0 {
        every_write_is_counted(counts, (n - 1) as nat);
    }
}

/// An access to the whole of a resource with its own pages consumes the version
/// its backing is at when some replica holds a byte of what was declared of it,
/// and no version when none does; where nothing was declared, and for a
/// subresource, whatever version the backing has reached.
pub proof fn a_whole_access_consumes_the_version_its_backing_is_at(
    l: LifecycleModel,
    task: TaskId,
    domain: ChannelId,
    p: Participation,
    backing: BackingId,
    at: u64,
)
    requires
        l.placing(task, domain, p) is Ok,
        l.content.dom().contains(backing),
        l.placing(task, domain, p)->Ok_0.0.key matches AccessKey::Whole(key) && key.backing
            == backing || (l.placing(task, domain, p)->Ok_0.0.key matches AccessKey::Subresource(
            key,
            _,
        ) && key.backing == backing),
        at < u64::MAX,
    ensures
        ({
            let intent = l.placing(task, domain, p)->Ok_0.0;
            let row = l.content[backing];
            let held = row.guest.contains(at as int) || row.device.contains(at as int);
            &&& intent.input_content_version matches Some(v) ==> v == row.version
            &&& intent.key is Whole ==> (row.extent matches Some(e) ==> e.offset <= at < e.offset
                + e.length && held ==> intent.input_content_version is Some)
            &&& intent.key is Whole ==> (row.extent matches Some(e) ==> (forall|b: int|
                e.offset <= b < e.offset + e.length ==> !(#[trigger] row.guest.contains(b))
                    && !row.device.contains(b)) ==> intent.input_content_version is None)
            &&& row.extent is None || intent.key is Subresource ==> (intent.input_content_version
                is Some <==> row.version.0 > 0)
        }),
{
    let row = l.content[backing];
    if let Some(e) = row.extent {
        if e.offset <= at < e.offset + e.length && (row.guest.contains(at as int)
            || row.device.contains(at as int)) {
            assert(e.has(at as int));
            assert(row.produced(e));
        }
        if row.produced(e) {
            let b = choose|b: int| e.has(b) && (row.guest.contains(b) || row.device.contains(b));
            assert(row.guest.contains(b) || row.device.contains(b));
        }
    }
}

} // verus!
