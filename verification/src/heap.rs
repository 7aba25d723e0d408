//! Heaps: one piece of storage, several resources placed in it, and a lifetime
//! that outlives the guest's delete.
//!
//! A placement is a window of the heap's storage and not memory of its own, so
//! two windows the guest chose to overlap are the same bytes and the ordinary
//! range conflict already says so. Deleting a heap stops its number resolving;
//! its storage is handed back at whichever comes last, the delete or the
//! removal of the final allocation.

use vstd::multiset::Multiset;
use vstd::prelude::*;
use crate::access::{BackingId, ByteRange, HeapId, ResourceKey};
use crate::identity::ResourceId;
use crate::table::{Table, TableKey};

verus! {

/// Why a heap operation did not happen.
#[derive(Clone, Copy, Debug, PartialEq, Eq, Structural)]
pub enum Refusal {
    /// No live heap has this number.
    NoSuchHeap { heap: u64 },
    /// A live heap already has this number.
    HeapExists { heap: u64 },
    /// The window does not fit inside the heap, or its end overflows.
    OutOfHeap { heap: u64, offset: u64, length: u64, heap_length: u64 },
    /// The window does not fit inside the placement, or its end overflows.
    OutOfPlacement { offset: u64, length: u64, placement_length: u64 },
    /// This resource is already placed in this heap.
    AlreadyPlaced { resource: ResourceId },
    /// This resource is not placed in the storage the placement names.
    NotPlaced { resource: ResourceId },
    /// The placement names storage no heap and no retirement holds.
    StaleStorage { backing: BackingId },
}

impl Refusal {
    #[must_use]
    pub fn slug(self) -> (slug: &'static str)
        ensures
            slug@ == (match self {
                Refusal::NoSuchHeap { .. } => "heap_no_such_heap"@,
                Refusal::HeapExists { .. } => "heap_exists"@,
                Refusal::OutOfHeap { .. } => "heap_out_of_heap"@,
                Refusal::OutOfPlacement { .. } => "heap_out_of_placement"@,
                Refusal::AlreadyPlaced { .. } => "heap_already_placed"@,
                Refusal::NotPlaced { .. } => "heap_not_placed"@,
                Refusal::StaleStorage { .. } => "heap_stale_storage"@,
            }),
    {
        match self {
            Refusal::NoSuchHeap { .. } => "heap_no_such_heap",
            Refusal::HeapExists { .. } => "heap_exists",
            Refusal::OutOfHeap { .. } => "heap_out_of_heap",
            Refusal::OutOfPlacement { .. } => "heap_out_of_placement",
            Refusal::AlreadyPlaced { .. } => "heap_already_placed",
            Refusal::NotPlaced { .. } => "heap_not_placed",
            Refusal::StaleStorage { .. } => "heap_stale_storage",
        }
    }
}

/// What a delete or a removal left of the heap's storage.
#[derive(Clone, Copy, Debug, PartialEq, Eq, Structural)]
#[must_use]
pub enum Retirement {
    /// The heap is still named or still holds allocations, or another heap is
    /// over the same storage or left allocations in it. The storage stays.
    Held { allocations: usize, named: bool },
    /// The heap's number is gone and its last allocation is gone. Nothing can
    /// reach the storage again, so it may be torn down now.
    StorageFree { backing: BackingId },
}

/// A resource's window of a heap, in the heap's coordinates.
#[derive(Clone, Copy, Debug, PartialEq, Eq, Structural)]
pub struct HeapPlacement {
    pub heap: u64,
    pub backing: BackingId,
    pub region: ByteRange,
}

/// A window of `length` bytes from `offset` does not run past `limit`.
pub open spec fn fits(offset: u64, length: u64, limit: u64) -> bool {
    offset + length <= limit
}

/// A window of a region, in the region's own coordinate system.
pub open spec fn window_of(region: ByteRange, offset: u64, length: u64) -> Result<
    ByteRange,
    Refusal,
> {
    if fits(offset, length, region.length) {
        Ok(
            ByteRange {
                offset: if region.offset + offset > u64::MAX {
                    u64::MAX
                } else {
                    (region.offset + offset) as u64
                },
                length,
            },
        )
    } else {
        Err(Refusal::OutOfPlacement { offset, length, placement_length: region.length })
    }
}

/// Whether a window fits.
fn window_fits(offset: u64, length: u64, limit: u64) -> (ok: bool)
    ensures
        ok == fits(offset, length, limit),
{
    match offset.checked_add(length) {
        Some(end) => end <= limit,
        None => false,
    }
}

/// A window of a region. Nothing is clamped: a clamped access would silently
/// execute against memory the guest did not name.
pub(crate) fn window(region: ByteRange, offset: u64, length: u64) -> (r: Result<ByteRange, Refusal>)
    ensures
        r == window_of(region, offset, length),
{
    if !window_fits(offset, length, region.length) {
        return Err(
            Refusal::OutOfPlacement { offset, length, placement_length: region.length },
        );
    }
    Ok(ByteRange { offset: region.offset.saturating_add(offset), length })
}

impl HeapPlacement {
    /// The access key for this placement at a membership generation.
    #[must_use]
    pub fn key(self, membership: HeapId) -> (key: ResourceKey)
        ensures
            key == (ResourceKey { backing: self.backing, heap: Some(membership) }),
    {
        ResourceKey { backing: self.backing, heap: Some(membership) }
    }

    /// A window of this resource, in the heap's coordinates.
    pub fn within(self, offset: u64, length: u64) -> (r: Result<ByteRange, Refusal>)
        ensures
            r == window_of(self.region, offset, length),
    {
        window(self.region, offset, length)
    }

    /// The whole resource, in the heap's coordinates.
    #[must_use]
    pub fn whole(self) -> (region: ByteRange)
        ensures
            region == self.region,
    {
        self.region
    }
}

/// A live heap, mathematically.
pub struct HeapModel {
    pub backing: BackingId,
    pub length: u64,
    pub membership_generation: u64,
    pub placements: Map<ResourceId, ByteRange>,
}

/// Every placement lies inside the heap.
pub open spec fn placements_fit(heap: HeapModel) -> bool {
    forall|r: ResourceId| #[trigger]
        heap.placements.dom().contains(r) ==> fits(
            heap.placements[r].offset,
            heap.placements[r].length,
            heap.length,
        )
}

/// A live heap is over the storage.
pub open spec fn backs_live(heaps: Map<u64, HeapModel>, backing: BackingId) -> bool {
    exists|h: u64| #[trigger] heaps.dom().contains(h) && heaps[h].backing == backing
}

/// The storage is held by a live heap or by allocations outliving one.
pub open spec fn storage_held(
    heaps: Map<u64, HeapModel>,
    retiring: Map<BackingId, Multiset<ResourceId>>,
    backing: BackingId,
) -> bool {
    retiring.dom().contains(backing) || backs_live(heaps, backing)
}

/// The allocations keeping a piece of storage alive past the deletes of its
/// heaps. A resource placed in two of them is there twice.
pub open spec fn left_in(
    retiring: Map<BackingId, Multiset<ResourceId>>,
    backing: BackingId,
) -> Multiset<ResourceId> {
    if retiring.dom().contains(backing) {
        retiring[backing]
    } else {
        Multiset::empty()
    }
}

/// What of a piece of storage is kept once some allocations outlive its heaps.
pub open spec fn retiring_with(
    retiring: Map<BackingId, Multiset<ResourceId>>,
    backing: BackingId,
    left: Multiset<ResourceId>,
) -> Map<BackingId, Multiset<ResourceId>> {
    if left.len() == 0 {
        retiring.remove(backing)
    } else {
        retiring.insert(backing, left)
    }
}

/// A report that the storage stays: how many allocations, and whether the heap
/// is still named.
pub open spec fn is_held(r: Result<Retirement, Refusal>, allocations: nat, named: bool) -> bool {
    r matches Ok(Retirement::Held { allocations: n, named: still }) && n == allocations && still
        == named
}

/// The placement is of the heap that has its number now.
pub open spec fn names_live(heaps: Map<u64, HeapModel>, placement: HeapPlacement) -> bool {
    heaps.dom().contains(placement.heap) && heaps[placement.heap].backing == placement.backing
}

#[derive(Debug)]
struct Heap {
    backing: BackingId,
    length: u64,
    membership_generation: u64,
    placements: Table<ResourceId, ByteRange>,
}

impl View for Heap {
    type V = HeapModel;

    closed spec fn view(&self) -> HeapModel {
        HeapModel {
            backing: self.backing,
            length: self.length,
            membership_generation: self.membership_generation,
            placements: self.placements@,
        }
    }
}

impl Heap {
    spec fn wf(&self) -> bool {
        self.placements.wf() && placements_fit(self@)
    }
}

/// One session generation's heaps.
///
/// Storage a delete could not free moves to `retiring`, where no number reaches
/// it and only the placements already handed out can retire it.
#[derive(Debug)]
pub struct Heaps {
    heaps: Table<u64, Heap>,
    retiring: Table<BackingId, Vec<ResourceId>>,
}

impl Default for Heaps {
    fn default() -> (h: Heaps)
        ensures
            h.wf(),
            h.heaps() == Map::<u64, HeapModel>::empty(),
            h.retiring() == Map::<BackingId, Multiset<ResourceId>>::empty(),
    {
        Heaps::new()
    }
}

impl Heaps {
    /// The live heaps, by number.
    pub closed spec fn heaps(&self) -> Map<u64, HeapModel> {
        Map::new(|h: u64| self.heaps@.dom().contains(h), |h: u64| self.heaps@[h]@)
    }

    /// The allocations keeping storage alive past its heaps' deletes.
    pub closed spec fn retiring(&self) -> Map<BackingId, Multiset<ResourceId>> {
        Map::new(
            |b: BackingId| self.retiring@.dom().contains(b),
            |b: BackingId| self.retiring@[b]@.to_multiset(),
        )
    }

    /// Every placement lies inside its heap, and storage retires only while
    /// something is placed in it.
    pub closed spec fn wf(&self) -> bool {
        &&& self.heaps.wf()
        &&& self.retiring.wf()
        &&& forall|h: u64| #[trigger] self.heaps@.dom().contains(h) ==> self.heaps@[h].wf()
        &&& forall|b: BackingId| #[trigger]
            self.retiring@.dom().contains(b) ==> self.retiring@[b]@.len() > 0
    }

    /// A heap holds finitely many placements, and they can be counted.
    pub proof fn placements_are_counted(&self, heap: u64)
        requires
            self.wf(),
            self.heaps().dom().contains(heap),
        ensures
            self.heaps()[heap].placements.dom().finite(),
            self.heaps()[heap].placements.dom().len() <= usize::MAX,
            placements_fit(self.heaps()[heap]),
    {
        assert(self.heaps@[heap].wf());
        self.heaps@[heap].placements.keys_are_counted();
    }

    /// Storage retires only while allocations are left in it.
    pub proof fn retiring_storage_is_in_use(&self, backing: BackingId)
        requires
            self.wf(),
            self.retiring().dom().contains(backing),
        ensures
            0 < self.retiring()[backing].len() <= usize::MAX,
    {
        broadcast use vstd::seq_lib::group_to_multiset_ensures;

        let left = self.retiring@[backing];
        assert(left.len() == left@.len());
    }

    #[must_use]
    pub fn new() -> (h: Self)
        ensures
            h.wf(),
            h.heaps() == Map::<u64, HeapModel>::empty(),
            h.retiring() == Map::<BackingId, Multiset<ResourceId>>::empty(),
    {
        let h = Heaps { heaps: Table::new(), retiring: Table::new() };
        assert(h.heaps() =~= Map::<u64, HeapModel>::empty());
        assert(h.retiring() =~= Map::<BackingId, Multiset<ResourceId>>::empty());
        h
    }

    /// Create a heap over a piece of storage.
    pub fn create(&mut self, heap: u64, backing: BackingId, length: u64) -> (r: Result<(), Refusal>)
        requires
            old(self).wf(),
        ensures
            final(self).wf(),
            final(self).retiring() == old(self).retiring(),
            r is Ok == !old(self).heaps().dom().contains(heap),
            r is Ok ==> final(self).heaps() == old(self).heaps().insert(
                heap,
                (HeapModel {
                    backing,
                    length,
                    membership_generation: 0,
                    placements: Map::empty(),
                }),
            ),
            r matches Err(e) ==> e == (Refusal::HeapExists { heap }) && *final(self) == *old(self),
    {
        if self.heaps.contains(heap) {
            return Err(Refusal::HeapExists { heap });
        }
        let fresh = Heap { backing, length, membership_generation: 0, placements: Table::new() };
        assert(fresh.wf());
        self.heaps.insert(heap, fresh);
        assert(self.heaps() =~= old(self).heaps().insert(heap, fresh@));
        Ok(())
    }

    /// The heap's identity at this command point.
    pub fn membership(&self, heap: u64) -> (r: Result<HeapId, Refusal>)
        requires
            self.wf(),
        ensures
            r == (if self.heaps().dom().contains(heap) {
                Ok::<HeapId, Refusal>(
                    HeapId {
                        id: heap,
                        membership_generation: self.heaps()[heap].membership_generation,
                    },
                )
            } else {
                Err(Refusal::NoSuchHeap { heap })
            }),
    {
        match self.heaps.get(heap) {
            Some(h) => Ok(HeapId { id: heap, membership_generation: h.membership_generation }),
            None => Err(Refusal::NoSuchHeap { heap }),
        }
    }

    /// The storage a live heap is over.
    pub fn backing_of(&self, heap: u64) -> (r: Result<BackingId, Refusal>)
        requires
            self.wf(),
        ensures
            r == (if self.heaps().dom().contains(heap) {
                Ok::<BackingId, Refusal>(self.heaps()[heap].backing)
            } else {
                Err(Refusal::NoSuchHeap { heap })
            }),
    {
        match self.heaps.get(heap) {
            Some(h) => Ok(h.backing),
            None => Err(Refusal::NoSuchHeap { heap }),
        }
    }

    /// What placing a resource would be refused for, if anything.
    pub open spec fn place_refusal(
        &self,
        heap: u64,
        resource: ResourceId,
        offset: u64,
        length: u64,
    ) -> Option<Refusal> {
        if !self.heaps().dom().contains(heap) {
            Some(Refusal::NoSuchHeap { heap })
        } else if !fits(offset, length, self.heaps()[heap].length) {
            Some(
                Refusal::OutOfHeap {
                    heap,
                    offset,
                    length,
                    heap_length: self.heaps()[heap].length,
                },
            )
        } else if self.heaps()[heap].placements.dom().contains(resource) {
            Some(Refusal::AlreadyPlaced { resource })
        } else {
            None
        }
    }

    /// Place a resource in the heap.
    pub fn place(&mut self, heap: u64, resource: ResourceId, offset: u64, length: u64) -> (r: Result<
        HeapPlacement,
        Refusal,
    >)
        requires
            old(self).wf(),
        ensures
            final(self).wf(),
            final(self).retiring() == old(self).retiring(),
            match old(self).place_refusal(heap, resource, offset, length) {
                Some(e) => r == Err::<HeapPlacement, Refusal>(e) && *final(self) == *old(self),
                None => r == Ok::<HeapPlacement, Refusal>(
                    HeapPlacement {
                        heap,
                        backing: old(self).heaps()[heap].backing,
                        region: ByteRange { offset, length },
                    },
                ) && final(self).heaps() == old(self).heaps().insert(
                    heap,
                    (HeapModel {
                        membership_generation: crate::identity::next_count(
                            old(self).heaps()[heap].membership_generation,
                        ),
                        placements: old(self).heaps()[heap].placements.insert(
                            resource,
                            ByteRange { offset, length },
                        ),
                        ..old(self).heaps()[heap]
                    }),
                ) && final(self).heaps()[heap].placements.dom().len()
                    == old(self).heaps()[heap].placements.dom().len() + 1,
            },
    {
        let i = match self.heaps.find(heap) {
            Some(i) => i,
            None => {
                return Err(Refusal::NoSuchHeap { heap });
            },
        };
        let h = self.heaps.value(i);
        if !window_fits(offset, length, h.length) {
            return Err(Refusal::OutOfHeap { heap, offset, length, heap_length: h.length });
        }
        if h.placements.contains(resource) {
            return Err(Refusal::AlreadyPlaced { resource });
        }
        let backing = h.backing;
        let region = ByteRange { offset, length };
        let ghost before = self.heaps@[heap];
        assert(self.heaps@[heap].wf());
        let h = self.heaps.value_mut(i);
        h.placements.insert(resource, region);
        h.membership_generation = h.membership_generation.saturating_add(1);
        proof {
            assert(placements_fit(self.heaps@[heap]@));
            assert(self.heaps@[heap].wf());
            assert(self.heaps() =~= old(self).heaps().insert(
                heap,
                (HeapModel {
                    membership_generation: crate::identity::next_count(before@.membership_generation),
                    placements: before@.placements.insert(resource, region),
                    ..before@
                }),
            ));
            assert(self.retiring() =~= old(self).retiring());
            old(self).placements_are_counted(heap);
            assert(before@.placements.insert(resource, region).dom()
                =~= before@.placements.dom().insert(resource));
        }
        Ok(HeapPlacement { heap, backing, region })
    }

    /// The placement of a resource already in the heap.
    pub fn placement(&self, heap: u64, resource: ResourceId) -> (r: Result<HeapPlacement, Refusal>)
        requires
            self.wf(),
        ensures
            r == (if !self.heaps().dom().contains(heap) {
                Err::<HeapPlacement, Refusal>(Refusal::NoSuchHeap { heap })
            } else if !self.heaps()[heap].placements.dom().contains(resource) {
                Err(Refusal::NotPlaced { resource })
            } else {
                Ok(
                    HeapPlacement {
                        heap,
                        backing: self.heaps()[heap].backing,
                        region: self.heaps()[heap].placements[resource],
                    },
                )
            }),
    {
        match self.heaps.get(heap) {
            None => Err(Refusal::NoSuchHeap { heap }),
            Some(h) => {
                assert(self.heaps@[heap].wf());
                match h.placements.get(resource) {
                    Some(region) => Ok(
                        HeapPlacement { heap, backing: h.backing, region: *region },
                    ),
                    None => Err(Refusal::NotPlaced { resource }),
                }
            },
        }
    }

    /// Remove a resource from the storage its placement names, and say what
    /// that left of the storage.
    ///
    /// Takes the placement and not the number, so it reaches the storage the
    /// caller was given, whether that heap is still named or retires behind a
    /// reused number.
    pub fn remove(&mut self, placement: HeapPlacement, resource: ResourceId) -> (r: Result<
        Retirement,
        Refusal,
    >)
        requires
            old(self).wf(),
        ensures
            final(self).wf(),
            names_live(old(self).heaps(), placement) ==> ({
                let h = old(self).heaps()[placement.heap];
                &&& final(self).retiring() == old(self).retiring()
                &&& if h.placements.dom().contains(resource) {
                    &&& is_held(r, (h.placements.dom().len() - 1) as nat, true)
                    &&& final(self).heaps() == old(self).heaps().insert(
                        placement.heap,
                        (HeapModel {
                            membership_generation: crate::identity::next_count(h.membership_generation),
                            placements: h.placements.remove(resource),
                            ..h
                        }),
                    )
                    &&& final(self).heaps()[placement.heap].placements.dom().len() + 1
                        == h.placements.dom().len()
                } else {
                    r == Err::<Retirement, Refusal>(Refusal::NotPlaced { resource })
                        && final(self).heaps() == old(self).heaps()
                }
            }),
            !names_live(old(self).heaps(), placement) ==> ({
                let held = left_in(old(self).retiring(), placement.backing);
                let left = held.remove(resource);
                &&& final(self).heaps() == old(self).heaps()
                &&& if !storage_held(
                    old(self).heaps(),
                    old(self).retiring(),
                    placement.backing,
                ) {
                    r == Err::<Retirement, Refusal>(
                        Refusal::StaleStorage { backing: placement.backing },
                    ) && final(self).retiring() == old(self).retiring()
                } else if !held.contains(resource) {
                    r == Err::<Retirement, Refusal>(Refusal::NotPlaced { resource })
                        && final(self).retiring() == old(self).retiring()
                } else {
                    &&& final(self).retiring() == retiring_with(
                        old(self).retiring(),
                        placement.backing,
                        left,
                    )
                    &&& left.len() + 1 == held.len()
                    &&& if storage_held(
                        final(self).heaps(),
                        final(self).retiring(),
                        placement.backing,
                    ) {
                        is_held(r, left.len(), false)
                    } else {
                        r == Ok::<Retirement, Refusal>(
                            Retirement::StorageFree { backing: placement.backing },
                        )
                    }
                }
            }),
    {
        match self.heaps.find(placement.heap) {
            Some(i) => {
                assert(self.heaps@[placement.heap].wf());
                if self.heaps.value(i).backing.0 == placement.backing.0 {
                    let ghost before = self.heaps@[placement.heap];
                    if !self.heaps.value(i).placements.contains(resource) {
                        return Err(Refusal::NotPlaced { resource });
                    }
                    let h = self.heaps.value_mut(i);
                    let _ = h.placements.remove(resource);
                    h.membership_generation = h.membership_generation.saturating_add(1);
                    let allocations = h.placements.len();
                    proof {
                        old(self).placements_are_counted(placement.heap);
                        assert(before@.placements.remove(resource).dom()
                            =~= before@.placements.dom().remove(resource));
                        assert(placements_fit(self.heaps@[placement.heap]@));
                        assert(self.heaps@[placement.heap].wf());
                        assert(self.heaps() =~= old(self).heaps().insert(
                            placement.heap,
                            (HeapModel {
                                membership_generation: crate::identity::next_count(before@.membership_generation),
                                placements: before@.placements.remove(resource),
                                ..before@
                            }),
                        ));
                        assert(self.retiring() =~= old(self).retiring());
                    }
                    return Ok(Retirement::Held { allocations, named: true });
                }
            },
            None => {},
        }
        let at = match self.retiring.find(placement.backing) {
            Some(at) => at,
            None => {
                broadcast use vstd::multiset::group_multiset_axioms;

                if self.is_over(placement.backing) {
                    return Err(Refusal::NotPlaced { resource });
                }
                return Err(Refusal::StaleStorage { backing: placement.backing });
            },
        };
        let ghost before = self.retiring@[placement.backing]@;
        let k = match position(self.retiring.value(at), resource) {
            Some(k) => k,
            None => {
                return Err(Refusal::NotPlaced { resource });
            },
        };
        let held = self.retiring.value_mut(at);
        let _ = held.remove(k);
        let allocations = held.len();
        proof {
            broadcast use vstd::seq_lib::group_to_multiset_ensures;

            assert(before.remove(k as int).to_multiset() == before.to_multiset().remove(resource));
            assert(before.to_multiset().contains(resource));
        }
        if allocations == 0 {
            let _ = self.retiring.remove(placement.backing);
            proof {
                assert(self.retiring() =~= old(self).retiring().remove(placement.backing));
                assert(self.heaps() =~= old(self).heaps());
            }
            if self.is_over(placement.backing) {
                return Ok(Retirement::Held { allocations, named: false });
            }
            return Ok(Retirement::StorageFree { backing: placement.backing });
        }
        proof {
            assert(self.retiring() =~= old(self).retiring().insert(
                placement.backing,
                before.to_multiset().remove(resource),
            ));
            assert(self.heaps() =~= old(self).heaps());
        }
        Ok(Retirement::Held { allocations, named: false })
    }

    /// Delete the heap.
    ///
    /// The number stops resolving and becomes available again. The storage is
    /// returned now only if nothing is placed in it and no other heap is over
    /// it; otherwise whatever leaves it last returns it, however long that
    /// takes.
    pub fn delete(&mut self, heap: u64) -> (r: Result<Retirement, Refusal>)
        requires
            old(self).wf(),
        ensures
            final(self).wf(),
            !old(self).heaps().dom().contains(heap) ==> r == Err::<Retirement, Refusal>(
                Refusal::NoSuchHeap { heap },
            ) && *final(self) == *old(self),
            old(self).heaps().dom().contains(heap) ==> ({
                let h = old(self).heaps()[heap];
                &&& final(self).heaps() == old(self).heaps().remove(heap)
                &&& final(self).retiring() == retiring_with(
                    old(self).retiring(),
                    h.backing,
                    left_in(old(self).retiring(), h.backing).add(
                        Multiset::from_set(h.placements.dom()),
                    ),
                )
                &&& if storage_held(final(self).heaps(), final(self).retiring(), h.backing) {
                    is_held(r, h.placements.dom().len(), false)
                } else {
                    r == Ok::<Retirement, Refusal>(Retirement::StorageFree { backing: h.backing })
                }
                &&& h.placements.dom().len() > 0 ==> final(self).retiring().dom().contains(
                    h.backing,
                )
            }),
    {
        match self.heaps.find(heap) {
            None => Err(Refusal::NoSuchHeap { heap }),
            Some(i) => {
                assert(self.heaps@[heap].wf());
                let (_, h) = self.heaps.remove_at(i);
                assert(self.heaps() =~= old(self).heaps().remove(heap));
                let held = h.placements.len();
                let ghost before = left_in(old(self).retiring(), h.backing);
                let mut names = placed(&h.placements);
                let ghost added = names@;
                if held == 0 {
                    proof {
                        broadcast use vstd::seq_lib::group_to_multiset_ensures;
                        broadcast use vstd::multiset::group_multiset_axioms;

                        assert(before.add(Multiset::from_set(h.placements@.dom())) =~= before);
                        assert(self.retiring() =~= old(self).retiring());
                        assert(retiring_with(old(self).retiring(), h.backing, before)
                            =~= old(self).retiring());
                    }
                    if self.holds_storage(h.backing) {
                        return Ok(Retirement::Held { allocations: held, named: false });
                    }
                    return Ok(Retirement::StorageFree { backing: h.backing });
                }
                match self.retiring.find(h.backing) {
                    Some(at) => {
                        let ghost earlier = self.retiring@[h.backing]@;
                        let left = self.retiring.value_mut(at);
                        left.append(&mut names);
                        proof {
                            assert(self.retiring@[h.backing]@ =~= earlier + added);
                            vstd::seq_lib::lemma_multiset_commutative(earlier, added);
                        }
                    },
                    None => {
                        self.retiring.insert(h.backing, names);
                        proof {
                            broadcast use vstd::multiset::group_multiset_axioms;

                            assert(before.add(added.to_multiset()) =~= added.to_multiset());
                        }
                    },
                }
                proof {
                    broadcast use vstd::seq_lib::group_to_multiset_ensures;
                    broadcast use vstd::multiset::group_multiset_axioms;

                    let left = before.add(added.to_multiset());
                    assert(left.len() > 0);
                    assert(self.retiring() =~= old(self).retiring().insert(h.backing, left));
                }
                Ok(Retirement::Held { allocations: held, named: false })
            },
        }
    }

    /// Whether a live heap is over the storage.
    fn is_over(&self, backing: BackingId) -> (over: bool)
        requires
            self.wf(),
        ensures
            over == backs_live(self.heaps(), backing),
    {
        let rows = self.heaps.len();
        let ghost entries = self.heaps.entries();
        let mut i: usize = 0;
        while i < rows
            invariant
                self.wf(),
                entries == self.heaps.entries(),
                rows == entries.len(),
                i <= rows,
                forall|j: int| 0 <= j < i ==> (#[trigger] entries[j]).1.backing != backing,
            decreases rows - i,
        {
            if self.heaps.value(i).backing.0 == backing.0 {
                proof {
                    crate::table::lemma_entry_in_map(entries, i as int);
                    assert(self.heaps().dom().contains(entries[i as int].0));
                }
                return true;
            }
            i = i + 1;
        }
        proof {
            assert forall|h: u64| #[trigger]
                self.heaps().dom().contains(h) implies self.heaps()[h].backing != backing by {
                let j = crate::table::lemma_key_has_index(entries, h);
                assert(entries[j].1.backing != backing);
            }
        }
        false
    }

    /// How many allocations are placed in a live heap.
    #[must_use]
    pub fn allocations(&self, heap: u64) -> (n: usize)
        requires
            self.wf(),
        ensures
            n == (if self.heaps().dom().contains(heap) {
                self.heaps()[heap].placements.dom().len()
            } else {
                0
            }),
    {
        match self.heaps.get(heap) {
            Some(h) => {
                assert(self.heaps@[heap].wf());
                h.placements.len()
            },
            None => 0,
        }
    }

    /// Whether this storage is still held by a heap or a retirement.
    #[must_use]
    pub fn holds_storage(&self, backing: BackingId) -> (held: bool)
        requires
            self.wf(),
        ensures
            held == storage_held(self.heaps(), self.retiring(), backing),
    {
        self.retiring.contains(backing) || self.is_over(backing)
    }

    /// Every live heap number, ascending.
    #[must_use]
    pub fn live_heaps(&self) -> (out: Vec<u64>)
        requires
            self.wf(),
        ensures
            forall|i: int, j: int|
                0 <= i < j < out@.len() ==> (#[trigger] out@[i]) < (#[trigger] out@[j]),
            forall|h: u64| #[trigger] out@.contains(h) == self.heaps().dom().contains(h),
    {
        let mut out: Vec<u64> = Vec::new();
        let rows = self.heaps.len();
        let ghost entries = self.heaps.entries();
        let mut i: usize = 0;
        while i < rows
            invariant
                self.wf(),
                entries == self.heaps.entries(),
                rows == entries.len(),
                i <= rows,
                numbers_ascending(out@),
                forall|h: u64| #[trigger]
                    out@.contains(h) == (exists|k: int| 0 <= k < i && (#[trigger] entries[k]).0 == h),
            decreases rows - i,
        {
            let heap = self.heaps.key(i);
            let ghost before = out@;
            proof {
                if before.contains(heap) {
                    let k = choose|k: int| 0 <= k < i && (#[trigger] entries[k]).0 == heap;
                    assert(entries[k].0 != entries[i as int].0);
                }
            }
            insert_number(&mut out, heap);
            proof {
                assert forall|h: u64| #[trigger]
                    out@.contains(h) == (exists|k: int|
                        0 <= k < i + 1 && (#[trigger] entries[k]).0 == h) by {
                    if before.contains(h) {
                        let k = choose|k: int| 0 <= k < i && (#[trigger] entries[k]).0 == h;
                        assert(entries[k].0 == h);
                    }
                    if h == heap {
                        assert(entries[i as int].0 == h);
                    }
                }
            }
            i = i + 1;
        }
        proof {
            assert forall|h: u64| #[trigger]
                out@.contains(h) == self.heaps().dom().contains(h) by {
                if out@.contains(h) {
                    let k = choose|k: int| 0 <= k < i && (#[trigger] entries[k]).0 == h;
                    crate::table::lemma_entry_in_map(entries, k);
                }
                if self.heaps().dom().contains(h) {
                    let k = crate::table::lemma_key_has_index(entries, h);
                    assert(entries[k].0 == h);
                }
            }
        }
        out
    }

    /// How many pieces of storage are outliving their heap number.
    #[must_use]
    pub fn retiring_storage(&self) -> (n: usize)
        requires
            self.wf(),
        ensures
            n == self.retiring().dom().len(),
    {
        assert(self.retiring().dom() =~= self.retiring@.dom());
        self.retiring.len()
    }
}

/// Where a resource stands in a list.
fn position(list: &Vec<ResourceId>, resource: ResourceId) -> (at: Option<usize>)
    ensures
        match at {
            Some(k) => k < list@.len() && list@[k as int] == resource,
            None => !list@.to_multiset().contains(resource),
        },
{
    let mut k: usize = 0;
    while k < list.len()
        invariant
            k <= list@.len(),
            forall|j: int| 0 <= j < k ==> (#[trigger] list@[j]) != resource,
        decreases list.len() - k,
    {
        if list[k].same(&resource) {
            return Some(k);
        }
        k = k + 1;
    }
    proof {
        broadcast use vstd::seq_lib::group_to_multiset_ensures;

        assert(!list@.contains(resource));
    }
    None
}

/// A set as a multiset holds each of its members once.
pub(crate) proof fn lemma_once(members: Set<ResourceId>, r: ResourceId)
    requires
        members.finite(),
    ensures
        Multiset::from_set(members).count(r) == (if members.contains(r) { 1nat } else { 0nat }),
{
    broadcast use vstd::multiset::group_multiset_axioms;

    let counts = Map::<ResourceId, nat>::new(|k: ResourceId| members.contains(k), |k: ResourceId| 1);
    assert(counts.dom() =~= members);
    assert(Multiset::from_set(members) == Multiset::from_map(counts));
}

/// The resources placed, each once.
fn placed(placements: &Table<ResourceId, ByteRange>) -> (list: Vec<ResourceId>)
    requires
        placements.wf(),
    ensures
        list@.len() == placements.entries().len(),
        list@.to_multiset() == Multiset::from_set(placements@.dom()),
{
    let rows = placements.len();
    let ghost entries = placements.entries();
    let mut list: Vec<ResourceId> = Vec::new();
    let mut i: usize = 0;
    while i < rows
        invariant
            placements.wf(),
            entries == placements.entries(),
            rows == entries.len(),
            i <= rows,
            list@.len() == i,
            forall|k: int| 0 <= k < i ==> (#[trigger] list@[k]) == entries[k].0,
        decreases rows - i,
    {
        list.push(placements.key(i));
        i = i + 1;
    }
    proof {
        broadcast use vstd::seq_lib::group_to_multiset_ensures;
        broadcast use vstd::multiset::group_multiset_axioms;

        let dom = placements@.dom();
        assert(list@.no_duplicates());
        list@.lemma_multiset_has_no_duplicates();
        assert forall|r: ResourceId| list@.contains(r) == dom.contains(r) by {
            if list@.contains(r) {
                let k = choose|k: int| 0 <= k < list@.len() && list@[k] == r;
                crate::table::lemma_entry_in_map(entries, k);
            }
            if dom.contains(r) {
                let k = crate::table::lemma_key_has_index(entries, r);
                assert(list@[k] == r);
            }
        }
        assert forall|r: ResourceId|
            list@.to_multiset().count(r) == #[trigger] Multiset::from_set(dom).count(r) by {
            assert(list@.contains(r) == dom.contains(r));
            placements.keys_are_counted();
            lemma_once(dom, r);
        }
        assert(list@.to_multiset() =~= Multiset::from_set(dom));
    }
    list
}

spec fn numbers_ascending(s: Seq<u64>) -> bool {
    forall|i: int, j: int| 0 <= i < j < s.len() ==> (#[trigger] s[i]) < (#[trigger] s[j])
}

/// Put a number where it belongs.
fn insert_number(out: &mut Vec<u64>, n: u64)
    requires
        numbers_ascending(old(out)@),
        !old(out)@.contains(n),
    ensures
        numbers_ascending(final(out)@),
        forall|x: u64| #[trigger] final(out)@.contains(x) == (old(out)@.contains(x) || x == n),
{
    let ghost before = out@;
    let mut at: usize = 0;
    while at < out.len() && out[at] < n
        invariant
            out@ == before,
            at <= before.len(),
            forall|j: int| 0 <= j < at ==> (#[trigger] before[j]) < n,
        decreases out.len() - at,
    {
        at = at + 1;
    }
    proof {
        if at < before.len() {
            assert(before.contains(before[at as int]));
        }
    }
    out.insert(at, n);
    proof {
        assert(out@ == before.insert(at as int, n));
        assert(out@[at as int] == n);
        assert forall|x: u64| #[trigger] out@.contains(x) == (before.contains(x) || x == n) by {
            if before.contains(x) {
                let k = choose|k: int| 0 <= k < before.len() && before[k] == x;
                assert(out@[if k < at { k } else { k + 1 }] == x);
            }
            if out@.contains(x) {
                let k = choose|k: int| 0 <= k < out@.len() && out@[k] == x;
                if k < at {
                    assert(before[k] == x);
                } else if k > at {
                    assert(before[k - 1] == x);
                }
            }
        }
    }
}

/// A window of a placement never leaves it.
pub proof fn a_window_stays_inside_its_placement(
    region: ByteRange,
    offset: u64,
    length: u64,
    b: int,
)
    requires
        window_of(region, offset, length) is Ok,
        window_of(region, offset, length)->Ok_0.has(b),
    ensures
        region.has(b),
{
}

/// Two placements of one heap alias exactly where their windows meet.
pub proof fn placements_alias_where_their_windows_meet(
    a: HeapPlacement,
    b: HeapPlacement,
    membership: HeapId,
    x: ByteRange,
    y: ByteRange,
)
    requires
        a.backing == b.backing,
    ensures
        crate::access::AccessKey::Range(
            ResourceKey { backing: a.backing, heap: Some(membership) },
            x,
        ).meets(
            crate::access::AccessKey::Range(
                ResourceKey { backing: b.backing, heap: Some(membership) },
                y,
            ),
        ) == x.meets(y),
{
}

/// A member of a heap meets a declaration of the heap at any membership, so one
/// written before a neighbour arrived still meets a resource that never moved.
pub proof fn a_member_meets_every_declaration_of_its_heap(
    placement: HeapPlacement,
    recorded: HeapId,
    declared: HeapId,
    window: ByteRange,
)
    requires
        recorded.id == declared.id,
    ensures
        crate::access::AccessKey::Range(
            ResourceKey { backing: placement.backing, heap: Some(recorded) },
            window,
        ).meets(crate::access::AccessKey::Heap(declared)),
{
}

/// A heap's delete never frees storage something is placed in: it stays held by
/// the allocations.
pub proof fn a_delete_keeps_storage_in_use(
    heaps: Map<u64, HeapModel>,
    retiring: Map<BackingId, Multiset<ResourceId>>,
    heap: u64,
    resource: ResourceId,
)
    requires
        heaps.dom().contains(heap),
        heaps[heap].placements.dom().finite(),
        heaps[heap].placements.dom().contains(resource),
    ensures
        storage_held(
            heaps.remove(heap),
            retiring_with(
                retiring,
                heaps[heap].backing,
                left_in(retiring, heaps[heap].backing).add(
                    Multiset::from_set(heaps[heap].placements.dom()),
                ),
            ),
            heaps[heap].backing,
        ),
{
    broadcast use vstd::multiset::group_multiset_axioms;
    broadcast use vstd::multiset::group_multiset_properties;

    let added = Multiset::from_set(heaps[heap].placements.dom());
    let left = left_in(retiring, heaps[heap].backing).add(added);
    lemma_once(heaps[heap].placements.dom(), resource);
    assert(left.count(resource) > 0);
    if left.len() == 0 {
        assert(left =~= Multiset::empty());
    }
}

/// Storage another heap is over, or left allocations in, stays held whatever is
/// deleted beside it.
pub proof fn a_delete_keeps_storage_others_hold(
    heaps: Map<u64, HeapModel>,
    retiring: Map<BackingId, Multiset<ResourceId>>,
    heap: u64,
    other: u64,
)
    requires
        heaps.dom().contains(heap),
        heaps.dom().contains(other),
        other != heap,
    ensures
        storage_held(heaps.remove(heap), retiring, heaps[other].backing),
{
    assert(heaps.remove(heap).dom().contains(other));
}

/// A reused number cannot reach the previous heap's storage: a placement over
/// other storage does not name the heap that has the number now.
pub proof fn a_reused_number_does_not_reach_old_storage(
    heaps: Map<u64, HeapModel>,
    placement: HeapPlacement,
    next: HeapModel,
)
    requires
        next.backing != placement.backing,
    ensures
        !names_live(heaps.insert(placement.heap, next), placement),
{
}

/// A window is granted exactly when it ends inside its region, and it starts
/// as far behind the region's start as it says.
pub proof fn a_window_is_granted_when_it_ends_inside(region: ByteRange, offset: u64, length: u64)
    ensures
        window_of(region, offset, length) is Ok <==> offset + length <= region.length,
        window_of(region, offset, length) matches Ok(w) ==> {
            &&& w.length == length
            &&& region.offset + offset <= u64::MAX ==> w.offset == region.offset + offset
        },
        window_of(region, offset, length) matches Err(e) ==> e == (Refusal::OutOfPlacement {
            offset,
            length,
            placement_length: region.length,
        }),
{
}

/// A resource is placed exactly when the heap is there, its window ends inside
/// the heap and the heap does not hold it already.
pub proof fn a_resource_is_placed_when_it_fits(
    h: Heaps,
    heap: u64,
    resource: ResourceId,
    offset: u64,
    length: u64,
)
    ensures
        h.place_refusal(heap, resource, offset, length) is None <==> h.heaps().dom().contains(heap)
            && offset + length <= h.heaps()[heap].length
            && !h.heaps()[heap].placements.dom().contains(resource),
        (h.place_refusal(heap, resource, offset, length) matches Some(Refusal::NoSuchHeap { .. }))
            == !h.heaps().dom().contains(heap),
{
}

/// Storage is held while a live heap is over it or something is left in it, and
/// by nothing else.
pub proof fn storage_is_held_while_something_is_in_it(
    heaps: Map<u64, HeapModel>,
    retiring: Map<BackingId, Multiset<ResourceId>>,
    backing: BackingId,
    left: Multiset<ResourceId>,
    other: BackingId,
)
    requires
        other != backing,
    ensures
        ({
            let after = retiring_with(retiring, backing, left);
            &&& storage_held(heaps, after, backing) <==> left.len() > 0 || exists|h: u64|
                heaps.dom().contains(h) && (#[trigger] heaps[h]).backing == backing
            &&& after.dom().contains(other) == retiring.dom().contains(other)
            &&& after.dom().contains(other) ==> after[other] == retiring[other]
            &&& after.dom().contains(backing) ==> after[backing] == left
        }),
{
    if exists|h: u64| heaps.dom().contains(h) && (#[trigger] heaps[h]).backing == backing {
        let h = choose|h: u64| heaps.dom().contains(h) && (#[trigger] heaps[h]).backing == backing;
        assert(heaps.dom().contains(h));
        assert(backs_live(heaps, backing));
    }
    if backs_live(heaps, backing) {
        let h = choose|h: u64| #[trigger] heaps.dom().contains(h) && heaps[h].backing == backing;
        assert(heaps[h].backing == backing);
    }
}

} // verus!
