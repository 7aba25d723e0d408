//! The object namespace: what a guest name resolves to, and what keeps the
//! thing it resolved to alive.
//!
//! Slots are reused, so a name carries its slot's generation. Deleting an
//! object makes new resolution fail and leaves accepted work alone: its memory
//! is handed back when the last accepted use retires. Replacing the memory
//! under a name is the same problem with the same answer.

use vstd::prelude::*;
use crate::access::BackingId;
use crate::identity::{ObjectListRef, ResourceId, SlotGeneration};
use crate::table::{Table, TableKey};

verus! {

/// Why a namespace operation did not happen.
#[derive(Clone, Copy, Debug, PartialEq, Eq, Structural)]
pub enum Refusal {
    /// Nothing has ever been declared in this slot.
    NotDeclared { slot: ObjectListRef },
    /// The slot holds a different generation: the name is stale.
    StaleGeneration { slot: ObjectListRef, named: SlotGeneration, current: SlotGeneration },
    /// The object is deleted. It may still be executing; it may not be named.
    Deleted { id: ResourceId },
    /// The slot still holds a live object.
    SlotOccupied { slot: ObjectListRef },
    /// The object has no mapping to take away.
    NotMapped { id: ResourceId },
    /// The object already has a mapping.
    AlreadyMapped { id: ResourceId },
}

impl Refusal {
    #[must_use]
    pub fn slug(self) -> (slug: &'static str)
        ensures
            slug@ == (match self {
                Refusal::NotDeclared { .. } => "namespace_not_declared"@,
                Refusal::StaleGeneration { .. } => "namespace_stale_generation"@,
                Refusal::Deleted { .. } => "namespace_deleted"@,
                Refusal::SlotOccupied { .. } => "namespace_slot_occupied"@,
                Refusal::NotMapped { .. } => "namespace_not_mapped"@,
                Refusal::AlreadyMapped { .. } => "namespace_already_mapped"@,
            }),
    {
        match self {
            Refusal::NotDeclared { .. } => "namespace_not_declared",
            Refusal::StaleGeneration { .. } => "namespace_stale_generation",
            Refusal::Deleted { .. } => "namespace_deleted",
            Refusal::SlotOccupied { .. } => "namespace_slot_occupied",
            Refusal::NotMapped { .. } => "namespace_not_mapped",
            Refusal::AlreadyMapped { .. } => "namespace_already_mapped",
        }
    }
}

/// What a delete or a physical replacement left behind.
#[derive(Clone, Copy, Debug, PartialEq, Eq, Structural)]
#[must_use]
pub enum Teardown {
    /// Nothing accepted still reads this backing.
    Now { backing: BackingId },
    /// Accepted work still reads it. [`Namespace::release`] returns it when the
    /// last use retires.
    WhenUsesRetire { backing: BackingId, outstanding: usize },
}

impl Teardown {
    #[must_use]
    pub fn backing(self) -> (b: BackingId)
        ensures
            b == (match self {
                Teardown::Now { backing } => backing,
                Teardown::WhenUsesRetire { backing, .. } => backing,
            }),
    {
        match self {
            Teardown::Now { backing } => backing,
            Teardown::WhenUsesRetire { backing, .. } => backing,
        }
    }
}

/// A resolved name, held by work that was accepted against it.
#[derive(Clone, Copy, Debug, PartialEq, Eq, Structural)]
pub struct Lease {
    pub id: ResourceId,
    pub backing: BackingId,
}

/// One slot of the object list.
#[derive(Clone, Copy, Debug)]
pub struct Slot {
    pub generation: SlotGeneration,
    pub backing: BackingId,
    pub deleted: bool,
    pub mapped: bool,
    /// Accepted uses of the current backing that have not retired.
    pub outstanding: usize,
}

/// A backing whose name has moved on, kept alive by the work still reading it.
#[derive(Clone, Copy, Debug)]
pub struct Retiring {
    pub backing: BackingId,
    pub outstanding: usize,
}

/// Every retiring backing has a use left.
pub open spec fn all_in_use(retiring: Seq<Retiring>) -> bool {
    forall|i: int| 0 <= i < retiring.len() ==> (#[trigger] retiring[i]).outstanding > 0
}

/// No object carries the default generation, and a deleted one has no use and
/// no mapping.
pub open spec fn slots_wf(slots: Map<ObjectListRef, Slot>) -> bool {
    forall|s: ObjectListRef| #[trigger]
        slots.dom().contains(s) ==> slots[s].generation.0 > 0 && (slots[s].deleted
            ==> slots[s].outstanding == 0 && !slots[s].mapped)
}

/// What a name resolves to.
pub open spec fn resolution(slots: Map<ObjectListRef, Slot>, name: ResourceId) -> Result<
    Lease,
    Refusal,
> {
    if !slots.dom().contains(name.slot) {
        Err(Refusal::NotDeclared { slot: name.slot })
    } else if slots[name.slot].generation != name.generation {
        Err(
            Refusal::StaleGeneration {
                slot: name.slot,
                named: name.generation,
                current: slots[name.slot].generation,
            },
        )
    } else if slots[name.slot].deleted {
        Err(Refusal::Deleted { id: name })
    } else {
        Ok(Lease { id: name, backing: slots[name.slot].backing })
    }
}

/// The first retiring entry of a backing.
pub open spec fn first_retiring(retiring: Seq<Retiring>, backing: BackingId) -> Option<int>
    decreases retiring.len(),
{
    if retiring.len() == 0 {
        None
    } else {
        match first_retiring(retiring.drop_last(), backing) {
            Some(i) => Some(i),
            None => if retiring.last().backing == backing {
                Some(retiring.len() - 1)
            } else {
                None
            },
        }
    }
}

/// The lease is on what its slot names now.
pub open spec fn is_current(slots: Map<ObjectListRef, Slot>, lease: Lease) -> bool {
    slots.dom().contains(lease.id.slot) && !slots[lease.id.slot].deleted
        && slots[lease.id.slot].backing == lease.backing
}

/// What is left of a backing detached from its name with `outstanding` uses.
pub open spec fn detached(backing: BackingId, outstanding: usize) -> Teardown {
    if outstanding == 0 {
        Teardown::Now { backing }
    } else {
        Teardown::WhenUsesRetire { backing, outstanding }
    }
}

/// The retiring backings once one was detached.
pub open spec fn retiring_with(
    retiring: Seq<Retiring>,
    backing: BackingId,
    outstanding: usize,
) -> Seq<Retiring> {
    if outstanding == 0 {
        retiring
    } else {
        retiring.push(Retiring { backing, outstanding })
    }
}

/// One more, stopping at the top of the word.
pub open spec fn one_more(n: usize) -> usize {
    if n == usize::MAX { n } else { (n + 1) as usize }
}

impl TableKey for ObjectListRef {
    fn same(&self, other: &Self) -> (equal: bool) {
        self.0 == other.0
    }
}

/// One session generation's object namespace.
#[derive(Debug)]
pub struct Namespace {
    slots: Table<ObjectListRef, Slot>,
    retiring: Vec<Retiring>,
    resolved: usize,
    refused: usize,
}

impl Default for Namespace {
    fn default() -> (n: Namespace)
        ensures
            n.wf(),
            n.slots() == Map::<ObjectListRef, Slot>::empty(),
            n.retiring() == Seq::<Retiring>::empty(),
            n.counts() == (0usize, 0usize),
    {
        Namespace::new()
    }
}

impl Namespace {
    pub closed spec fn slots(&self) -> Map<ObjectListRef, Slot> {
        self.slots@
    }

    /// Backings detached from their slot and still held by accepted work, in
    /// the order they were detached.
    pub closed spec fn retiring(&self) -> Seq<Retiring> {
        self.retiring@
    }

    /// Names resolved, and names refused.
    pub closed spec fn counts(&self) -> (usize, usize) {
        (self.resolved, self.refused)
    }

    pub closed spec fn rows_wf(&self) -> bool {
        self.slots.wf()
    }

    /// A retiring backing has a use left, a deleted object has none and no
    /// mapping, and no object carries the default generation.
    pub open spec fn wf(&self) -> bool {
        self.rows_wf() && all_in_use(self.retiring()) && slots_wf(self.slots())
    }

    #[must_use]
    pub fn new() -> (n: Self)
        ensures
            n.wf(),
            n.slots() == Map::<ObjectListRef, Slot>::empty(),
            n.retiring() == Seq::<Retiring>::empty(),
            n.counts() == (0usize, 0usize),
    {
        Namespace { slots: Table::new(), retiring: Vec::new(), resolved: 0, refused: 0 }
    }

    /// The name a declaration into this slot would hand out, or what it would
    /// be refused for.
    pub fn vacancy(&self, slot: ObjectListRef) -> (r: Result<ResourceId, Refusal>)
        requires
            self.wf(),
        ensures
            r is Ok == !(self.slots().dom().contains(slot) && !self.slots()[slot].deleted),
            r matches Err(e) ==> e == (Refusal::SlotOccupied { slot }),
            r matches Ok(id) ==> id.slot == slot && id.generation.0 == crate::identity::next_count(
                if self.slots().dom().contains(slot) {
                    self.slots()[slot].generation.0
                } else {
                    0
                },
            ),
    {
        let generation = match self.slots.get(slot) {
            Some(existing) => {
                if !existing.deleted {
                    return Err(Refusal::SlotOccupied { slot });
                }
                existing.generation.next()
            },
            None => SlotGeneration(0).next(),
        };
        Ok(ResourceId { slot, generation })
    }

    /// Declare an object into a slot.
    ///
    /// A slot's generation advances on every declaration, the first included.
    pub fn declare(&mut self, slot: ObjectListRef, backing: BackingId) -> (r: Result<
        ResourceId,
        Refusal,
    >)
        requires
            old(self).wf(),
        ensures
            final(self).wf(),
            final(self).retiring() == old(self).retiring(),
            final(self).counts() == old(self).counts(),
            r is Ok == !(old(self).slots().dom().contains(slot)
                && !old(self).slots()[slot].deleted),
            r matches Err(e) ==> e == (Refusal::SlotOccupied { slot }) && *final(self) == *old(self),
            r matches Ok(id) ==> id.slot == slot && id.generation.0 == crate::identity::next_count(
                if old(self).slots().dom().contains(slot) {
                    old(self).slots()[slot].generation.0
                } else {
                    0
                },
            ) && final(self).slots() == old(self).slots().insert(
                slot,
                Slot {
                    generation: id.generation,
                    backing,
                    deleted: false,
                    mapped: false,
                    outstanding: 0,
                },
            ),
    {
        let id = match self.vacancy(slot) {
            Ok(id) => id,
            Err(e) => {
                return Err(e);
            },
        };
        let generation = id.generation;
        self.slots.insert(
            slot,
            Slot { generation, backing, deleted: false, mapped: false, outstanding: 0 },
        );
        Ok(id)
    }

    /// Resolve a guest name.
    pub fn resolve(&mut self, name: ResourceId) -> (r: Result<Lease, Refusal>)
        requires
            old(self).wf(),
        ensures
            final(self).wf(),
            final(self).slots() == old(self).slots(),
            final(self).retiring() == old(self).retiring(),
            r == resolution(old(self).slots(), name),
            final(self).counts() == (match r {
                Ok(_) => (one_more(old(self).counts().0), old(self).counts().1),
                Err(_) => (old(self).counts().0, one_more(old(self).counts().1)),
            }),
    {
        let refusal = match self.slots.get(name.slot) {
            None => Refusal::NotDeclared { slot: name.slot },
            Some(slot) => {
                if slot.generation != name.generation {
                    Refusal::StaleGeneration {
                        slot: name.slot,
                        named: name.generation,
                        current: slot.generation,
                    }
                } else if slot.deleted {
                    Refusal::Deleted { id: name }
                } else {
                    let backing = slot.backing;
                    self.resolved = self.resolved.saturating_add(1);
                    return Ok(Lease { id: name, backing });
                }
            },
        };
        self.refused = self.refused.saturating_add(1);
        Err(refusal)
    }

    /// Resolve by slot alone, for a guest name that carries no generation.
    ///
    /// A slot nothing was declared in is refused before any name is asked for,
    /// so it is not counted as one.
    pub fn resolve_slot(&mut self, slot: ObjectListRef) -> (r: Result<Lease, Refusal>)
        requires
            old(self).wf(),
        ensures
            final(self).wf(),
            final(self).slots() == old(self).slots(),
            final(self).retiring() == old(self).retiring(),
            !old(self).slots().dom().contains(slot) ==> r == Err::<Lease, Refusal>(
                Refusal::NotDeclared { slot },
            ) && *final(self) == *old(self),
            old(self).slots().dom().contains(slot) ==> r == resolution(
                old(self).slots(),
                ResourceId { slot, generation: old(self).slots()[slot].generation },
            ) && final(self).counts() == (match r {
                Ok(_) => (one_more(old(self).counts().0), old(self).counts().1),
                Err(_) => (old(self).counts().0, one_more(old(self).counts().1)),
            }),
    {
        let generation = match self.slots.get(slot) {
            Some(s) => s.generation,
            None => {
                return Err(Refusal::NotDeclared { slot });
            },
        };
        self.resolve(ResourceId { slot, generation })
    }

    /// Where the first retiring entry of a backing stands.
    fn find_retiring(&self, backing: BackingId) -> (at: Option<usize>)
        ensures
            match at {
                Some(i) => first_retiring(self.retiring(), backing) == Some(i as int),
                None => first_retiring(self.retiring(), backing) is None,
            },
            at matches Some(i) ==> i < self.retiring().len() && self.retiring()[i as int].backing
                == backing,
    {
        let mut i: usize = 0;
        while i < self.retiring.len()
            invariant
                i <= self.retiring@.len(),
                first_retiring(self.retiring@.take(i as int), backing) is None,
            decreases self.retiring.len() - i,
        {
            proof {
                assert(self.retiring@.take(i + 1).drop_last() =~= self.retiring@.take(i as int));
                assert(self.retiring@.take(i + 1).last() == self.retiring@[i as int]);
            }
            if self.retiring[i].backing.0 == backing.0 {
                proof {
                    lemma_first_extends(self.retiring@, backing, i + 1, i as int);
                }
                return Some(i);
            }
            i = i + 1;
        }
        assert(self.retiring@.take(i as int) =~= self.retiring@);
        None
    }

    /// Record that accepted work holds this lease.
    ///
    /// Keeps the backing alive past a delete. A lease on memory nothing holds
    /// any more keeps nothing alive.
    pub fn acquire(&mut self, lease: Lease)
        requires
            old(self).wf(),
            is_current(old(self).slots(), lease) ==> old(self).slots()[lease.id.slot].outstanding < usize::MAX,
            first_retiring(old(self).retiring(), lease.backing) matches Some(i) ==> old(self).retiring()[i].outstanding < usize::MAX,
        ensures
            final(self).wf(),
            final(self).counts() == old(self).counts(),
            is_current(old(self).slots(), lease) ==> final(self).retiring() == old(self).retiring()
                && final(self).slots() == old(self).slots().insert(
                lease.id.slot,
                Slot {
                    outstanding: (old(self).slots()[lease.id.slot].outstanding + 1) as usize,
                    ..old(self).slots()[lease.id.slot]
                },
            ),
            !is_current(old(self).slots(), lease) ==> final(self).slots() == old(self).slots()
                && match first_retiring(old(self).retiring(), lease.backing) {
                Some(i) => final(self).retiring() == old(self).retiring().update(
                    i,
                    Retiring {
                        backing: lease.backing,
                        outstanding: (old(self).retiring()[i].outstanding + 1) as usize,
                    },
                ),
                None => final(self).retiring() == old(self).retiring(),
            },
    {
        match self.slots.find(lease.id.slot) {
            Some(i) => {
                let slot = *self.slots.value(i);
                if !slot.deleted && slot.backing.0 == lease.backing.0 {
                    self.slots.set_at(i, Slot { outstanding: slot.outstanding + 1, ..slot });
                    return;
                }
            },
            None => {},
        }
        match self.find_retiring(lease.backing) {
            Some(at) => {
                let entry = self.retiring[at];
                self.retiring.set(
                    at,
                    Retiring { backing: entry.backing, outstanding: entry.outstanding + 1 },
                );
            },
            None => {},
        }
    }

    /// Record that work holding this lease has retired.
    ///
    /// Returns the backing if this was the last use of one whose name has
    /// already moved on.
    pub fn release(&mut self, lease: Lease) -> (freed: Option<BackingId>)
        requires
            old(self).wf(),
        ensures
            final(self).wf(),
            final(self).counts() == old(self).counts(),
            is_current(old(self).slots(), lease) && old(self).slots()[lease.id.slot].outstanding
                > 0 ==> freed is None && final(self).retiring() == old(self).retiring() && final(self).slots() == old(self).slots().insert(
                lease.id.slot,
                Slot {
                    outstanding: (old(self).slots()[lease.id.slot].outstanding - 1) as usize,
                    ..old(self).slots()[lease.id.slot]
                },
            ),
            !(is_current(old(self).slots(), lease) && old(self).slots()[lease.id.slot].outstanding
                > 0) ==> final(self).slots() == old(self).slots() && (freed, final(self).retiring()) == release_retiring(old(self).retiring(), lease.backing),
    {
        match self.slots.find(lease.id.slot) {
            Some(i) => {
                let slot = *self.slots.value(i);
                if !slot.deleted && slot.backing.0 == lease.backing.0 && slot.outstanding > 0 {
                    self.slots.set_at(i, Slot { outstanding: slot.outstanding - 1, ..slot });
                    return None;
                }
            },
            None => {},
        }
        match self.find_retiring(lease.backing) {
            Some(at) => {
                let entry = self.retiring[at];
                assert(self.retiring()[at as int].outstanding > 0);
                let ghost before = self.retiring@;
                if entry.outstanding == 1 {
                    let _ = self.retiring.remove(at);
                    assert forall|i: int| 0 <= i < self.retiring().len() implies (
                    #[trigger] self.retiring()[i]).outstanding > 0 by {
                        assert(self.retiring()[i] == before[if i < at { i } else { i + 1 }]);
                    }
                    return Some(entry.backing);
                }
                self.retiring.set(
                    at,
                    Retiring { backing: entry.backing, outstanding: entry.outstanding - 1 },
                );
                None
            },
            None => None,
        }
    }

    /// Delete an object: stop it resolving, and leave accepted work alone.
    ///
    /// Deleting twice is a refusal: the first delete already answered for the
    /// teardown.
    pub fn delete(&mut self, name: ResourceId) -> (r: Result<Teardown, Refusal>)
        requires
            old(self).wf(),
        ensures
            final(self).wf(),
            resolution(old(self).slots(), name) matches Err(e) ==> r == Err::<Teardown, Refusal>(e)
                && final(self).slots() == old(self).slots() && final(self).retiring() == old(self).retiring() && final(self).counts() == (
                old(self).counts().0,
                one_more(old(self).counts().1),
            ),
            resolution(old(self).slots(), name) is Ok ==> ({
                let slot = old(self).slots()[name.slot];
                &&& r == Ok::<Teardown, Refusal>(detached(slot.backing, slot.outstanding))
                &&& final(self).slots() == old(self).slots().insert(
                    name.slot,
                    Slot { deleted: true, mapped: false, outstanding: 0, ..slot },
                )
                &&& final(self).retiring() == retiring_with(
                    old(self).retiring(),
                    slot.backing,
                    slot.outstanding,
                )
                &&& final(self).counts() == (
                    one_more(old(self).counts().0),
                    old(self).counts().1,
                )
            }),
    {
        match self.resolve(name) {
            Err(e) => Err(e),
            Ok(lease) => {
                match self.slots.find(name.slot) {
                    Some(i) => {
                        let slot = *self.slots.value(i);
                        self.slots.set_at(
                            i,
                            Slot { deleted: true, mapped: false, outstanding: 0, ..slot },
                        );
                        Ok(self.detach(lease.backing, slot.outstanding))
                    },
                    None => Err(Refusal::NotDeclared { slot: name.slot }),
                }
            },
        }
    }

    /// Point a live name at different memory.
    ///
    /// Resolution moves at once; work already accepted against the old backing
    /// keeps reading the old backing.
    pub fn replace_physical(&mut self, name: ResourceId, backing: BackingId) -> (r: Result<
        Teardown,
        Refusal,
    >)
        requires
            old(self).wf(),
        ensures
            final(self).wf(),
            resolution(old(self).slots(), name) matches Err(e) ==> r == Err::<Teardown, Refusal>(e)
                && final(self).slots() == old(self).slots() && final(self).retiring() == old(self).retiring() && final(self).counts() == (
                old(self).counts().0,
                one_more(old(self).counts().1),
            ),
            resolution(old(self).slots(), name) is Ok ==> ({
                let slot = old(self).slots()[name.slot];
                &&& r == Ok::<Teardown, Refusal>(detached(slot.backing, slot.outstanding))
                &&& final(self).slots() == old(self).slots().insert(
                    name.slot,
                    Slot { backing, outstanding: 0, ..slot },
                )
                &&& final(self).retiring() == retiring_with(
                    old(self).retiring(),
                    slot.backing,
                    slot.outstanding,
                )
                &&& final(self).counts() == (
                    one_more(old(self).counts().0),
                    old(self).counts().1,
                )
            }),
    {
        match self.resolve(name) {
            Err(e) => Err(e),
            Ok(lease) => {
                match self.slots.find(name.slot) {
                    Some(i) => {
                        let slot = *self.slots.value(i);
                        self.slots.set_at(i, Slot { backing, outstanding: 0, ..slot });
                        Ok(self.detach(lease.backing, slot.outstanding))
                    },
                    None => Err(Refusal::NotDeclared { slot: name.slot }),
                }
            },
        }
    }

    /// Detach a backing from its slot, keeping it alive if work still reads it.
    fn detach(&mut self, backing: BackingId, outstanding: usize) -> (t: Teardown)
        requires
            old(self).wf(),
        ensures
            final(self).wf(),
            final(self).slots() == old(self).slots(),
            final(self).counts() == old(self).counts(),
            t == detached(backing, outstanding),
            final(self).retiring() == retiring_with(old(self).retiring(), backing, outstanding),
    {
        if outstanding == 0 {
            return Teardown::Now { backing };
        }
        self.retiring.push(Retiring { backing, outstanding });
        Teardown::WhenUsesRetire { backing, outstanding }
    }

    /// Give an object a host mapping.
    pub fn map(&mut self, name: ResourceId) -> (r: Result<(), Refusal>)
        requires
            old(self).wf(),
        ensures
            final(self).wf(),
            final(self).retiring() == old(self).retiring(),
            r == (match resolution(old(self).slots(), name) {
                Err(e) => Err::<(), Refusal>(e),
                Ok(_) => if old(self).slots()[name.slot].mapped {
                    Err(Refusal::AlreadyMapped { id: name })
                } else {
                    Ok(())
                },
            }),
            final(self).slots() == (if r is Ok {
                old(self).slots().insert(
                    name.slot,
                    Slot { mapped: true, ..old(self).slots()[name.slot] },
                )
            } else {
                old(self).slots()
            }),
            final(self).counts() == (match resolution(old(self).slots(), name) {
                Ok(_) => (one_more(old(self).counts().0), old(self).counts().1),
                Err(_) => (old(self).counts().0, one_more(old(self).counts().1)),
            }),
    {
        match self.resolve(name) {
            Err(e) => Err(e),
            Ok(_) => {
                match self.slots.find(name.slot) {
                    Some(i) => {
                        let slot = *self.slots.value(i);
                        if slot.mapped {
                            return Err(Refusal::AlreadyMapped { id: name });
                        }
                        self.slots.set_at(i, Slot { mapped: true, ..slot });
                        Ok(())
                    },
                    None => Err(Refusal::NotDeclared { slot: name.slot }),
                }
            },
        }
    }

    /// Take a mapping away.
    pub fn unmap(&mut self, name: ResourceId) -> (r: Result<(), Refusal>)
        requires
            old(self).wf(),
        ensures
            final(self).wf(),
            final(self).retiring() == old(self).retiring(),
            r == (match resolution(old(self).slots(), name) {
                Err(e) => Err::<(), Refusal>(e),
                Ok(_) => if old(self).slots()[name.slot].mapped {
                    Ok(())
                } else {
                    Err(Refusal::NotMapped { id: name })
                },
            }),
            final(self).slots() == (if r is Ok {
                old(self).slots().insert(
                    name.slot,
                    Slot { mapped: false, ..old(self).slots()[name.slot] },
                )
            } else {
                old(self).slots()
            }),
            final(self).counts() == (match resolution(old(self).slots(), name) {
                Ok(_) => (one_more(old(self).counts().0), old(self).counts().1),
                Err(_) => (old(self).counts().0, one_more(old(self).counts().1)),
            }),
    {
        match self.resolve(name) {
            Err(e) => Err(e),
            Ok(_) => {
                match self.slots.find(name.slot) {
                    Some(i) => {
                        let slot = *self.slots.value(i);
                        if !slot.mapped {
                            return Err(Refusal::NotMapped { id: name });
                        }
                        self.slots.set_at(i, Slot { mapped: false, ..slot });
                        Ok(())
                    },
                    None => Err(Refusal::NotDeclared { slot: name.slot }),
                }
            },
        }
    }

    #[must_use]
    pub fn is_mapped(&self, name: ResourceId) -> (mapped: bool)
        requires
            self.wf(),
        ensures
            mapped == (resolution(self.slots(), name) is Ok && self.slots()[name.slot].mapped),
    {
        match self.slots.get(name.slot) {
            Some(s) => s.generation == name.generation && !s.deleted && s.mapped,
            None => false,
        }
    }

    /// Accepted uses of a name's current backing that have not retired.
    #[must_use]
    pub fn outstanding(&self, name: ResourceId) -> (n: usize)
        requires
            self.wf(),
        ensures
            n == (if self.slots().dom().contains(name.slot)
                && self.slots()[name.slot].generation == name.generation {
                self.slots()[name.slot].outstanding
            } else {
                0
            }),
    {
        match self.slots.get(name.slot) {
            Some(s) => if s.generation == name.generation {
                s.outstanding
            } else {
                0
            },
            None => 0,
        }
    }

    /// Every live name, with its exact generation, ascending by slot.
    #[must_use]
    pub fn live_names(&self) -> (names: Vec<ResourceId>)
        requires
            self.wf(),
        ensures
            by_slot(names@),
            forall|id: ResourceId| #[trigger]
                names@.contains(id) == (resolution(self.slots(), id) is Ok),
    {
        let mut names: Vec<ResourceId> = Vec::new();
        let rows = self.slots.len();
        let ghost entries = self.slots.entries();
        let mut i: usize = 0;
        while i < rows
            invariant
                self.wf(),
                entries == self.slots.entries(),
                rows == entries.len(),
                i <= rows,
                by_slot(names@),
                forall|id: ResourceId| #[trigger]
                    names@.contains(id) == live_before(entries, id, i as int),
            decreases rows - i,
        {
            let slot = self.slots.key(i);
            let row = *self.slots.value(i);
            let ghost before = names@;
            if !row.deleted {
                let id = ResourceId { slot, generation: row.generation };
                proof {
                    assert forall|x: ResourceId| before.contains(x) implies x.slot != slot by {
                        assert(live_before(entries, x, i as int));
                        let k = choose|k: int| live_at(entries, x, k) && k < i;
                        assert(entries[k].0 != entries[i as int].0);
                    }
                }
                insert_by_slot(&mut names, id);
            }
            proof {
                assert forall|id: ResourceId| #[trigger]
                    names@.contains(id) == live_before(entries, id, i + 1) by {
                    if before.contains(id) {
                        let k = choose|k: int| live_at(entries, id, k) && k < i;
                        assert(live_at(entries, id, k) && k < i + 1);
                    }
                    if names@.contains(id) && !before.contains(id) {
                        assert(live_at(entries, id, i as int));
                    }
                    if live_before(entries, id, i + 1) {
                        let k = choose|k: int| live_at(entries, id, k) && k < i + 1;
                        if k < i {
                            assert(live_before(entries, id, i as int));
                        }
                    }
                }
            }
            i = i + 1;
        }
        proof {
            assert forall|id: ResourceId| #[trigger]
                names@.contains(id) == (resolution(self.slots(), id) is Ok) by {
                if live_before(entries, id, i as int) {
                    let k = choose|k: int| live_at(entries, id, k) && k < i;
                    crate::table::lemma_entry_in_map(entries, k);
                }
                if resolution(self.slots(), id) is Ok {
                    let k = crate::table::lemma_key_has_index(entries, id.slot);
                    assert(live_at(entries, id, k));
                }
            }
        }
        names
    }

    /// Backings detached from their slot and still held by accepted work.
    #[must_use]
    pub fn awaiting_teardown(&self) -> (n: usize)
        ensures
            n == self.retiring().len(),
    {
        self.retiring.len()
    }

    /// Names resolved, and names refused.
    #[must_use]
    pub fn census(&self) -> (c: (usize, usize))
        ensures
            c == self.counts(),
    {
        (self.resolved, self.refused)
    }
}

/// Strictly ascending slots.
pub open spec fn by_slot(s: Seq<ResourceId>) -> bool {
    forall|i: int, j: int|
        0 <= i < j < s.len() ==> (#[trigger] s[i]).slot.0 < (#[trigger] s[j]).slot.0
}

spec fn live_at(entries: Seq<(ObjectListRef, Slot)>, id: ResourceId, k: int) -> bool {
    0 <= k < entries.len() && entries[k].0 == id.slot && entries[k].1.generation == id.generation
        && !entries[k].1.deleted
}

spec fn live_before(entries: Seq<(ObjectListRef, Slot)>, id: ResourceId, n: int) -> bool {
    exists|k: int| live_at(entries, id, k) && k < n
}

/// Put a name where its slot belongs.
fn insert_by_slot(names: &mut Vec<ResourceId>, id: ResourceId)
    requires
        by_slot(old(names)@),
        forall|x: ResourceId| #[trigger] old(names)@.contains(x) ==> x.slot != id.slot,
    ensures
        by_slot(final(names)@),
        forall|x: ResourceId| #[trigger]
            final(names)@.contains(x) == (old(names)@.contains(x) || x == id),
{
    let ghost before = names@;
    let mut at: usize = 0;
    while at < names.len() && names[at].slot.0 < id.slot.0
        invariant
            names@ == before,
            at <= before.len(),
            forall|j: int| 0 <= j < at ==> (#[trigger] before[j]).slot.0 < id.slot.0,
        decreases names.len() - at,
    {
        at = at + 1;
    }
    proof {
        if at < before.len() {
            assert(before.contains(before[at as int]));
        }
    }
    names.insert(at, id);
    proof {
        assert(names@ == before.insert(at as int, id));
        assert(names@[at as int] == id);
        assert forall|x: ResourceId| #[trigger]
            names@.contains(x) == (before.contains(x) || x == id) by {
            if before.contains(x) {
                let k = choose|k: int| 0 <= k < before.len() && before[k] == x;
                assert(names@[if k < at { k } else { k + 1 }] == x);
            }
            if names@.contains(x) {
                let k = choose|k: int| 0 <= k < names@.len() && names@[k] == x;
                if k < at {
                    assert(before[k] == x);
                } else if k > at {
                    assert(before[k - 1] == x);
                }
            }
        }
    }
}

/// The first entry of a prefix is the first entry.
proof fn lemma_first_extends(retiring: Seq<Retiring>, backing: BackingId, n: int, i: int)
    requires
        0 <= n <= retiring.len(),
        first_retiring(retiring.take(n), backing) == Some(i),
    ensures
        first_retiring(retiring, backing) == Some(i),
    decreases retiring.len(),
{
    if n == retiring.len() {
        assert(retiring.take(n) =~= retiring);
    } else {
        assert(retiring.drop_last().take(n) =~= retiring.take(n));
        lemma_first_extends(retiring.drop_last(), backing, n, i);
    }
}

/// What releasing one use of a detached backing leaves, and the backing if that
/// was the last.
pub open spec fn release_retiring(retiring: Seq<Retiring>, backing: BackingId) -> (
    Option<BackingId>,
    Seq<Retiring>,
) {
    match first_retiring(retiring, backing) {
        None => (None, retiring),
        Some(i) => if retiring[i].outstanding == 1 {
            (Some(backing), retiring.remove(i))
        } else {
            (
                None,
                retiring.update(
                    i,
                    Retiring { backing, outstanding: (retiring[i].outstanding - 1) as usize },
                ),
            )
        },
    }
}

/// The detached backings after `n` uses of one retired.
pub open spec fn after_releases(retiring: Seq<Retiring>, backing: BackingId, n: nat) -> Seq<
    Retiring,
>
    decreases n,
{
    if n == 0 {
        retiring
    } else {
        release_retiring(after_releases(retiring, backing, (n - 1) as nat), backing).1
    }
}

/// A deleted name stops resolving, whatever else is declared.
pub proof fn a_deleted_name_does_not_resolve(slots: Map<ObjectListRef, Slot>, name: ResourceId)
    requires
        resolution(slots, name) is Ok,
    ensures
        resolution(
            slots.insert(
                name.slot,
                Slot { deleted: true, mapped: false, outstanding: 0, ..slots[name.slot] },
            ),
            name,
        ) == Err::<Lease, Refusal>(Refusal::Deleted { id: name }),
{
}

/// A reused slot refuses the name that used to live there: a redeclaration
/// moves the generation on.
pub proof fn a_reused_slot_refuses_the_old_name(
    slots: Map<ObjectListRef, Slot>,
    name: ResourceId,
    next: Slot,
)
    requires
        slots.dom().contains(name.slot),
        name.generation.0 <= slots[name.slot].generation.0 < u64::MAX,
        next.generation.0 == crate::identity::next_count(slots[name.slot].generation.0),
    ensures
        resolution(slots.insert(name.slot, next), name) == Err::<Lease, Refusal>(
            Refusal::StaleGeneration {
                slot: name.slot,
                named: name.generation,
                current: next.generation,
            },
        ),
{
}

/// Deleting one object leaves every other name resolving to what it did.
pub proof fn a_delete_touches_only_its_name(
    slots: Map<ObjectListRef, Slot>,
    name: ResourceId,
    changed: Slot,
    other: ResourceId,
)
    requires
        other.slot != name.slot,
    ensures
        resolution(slots.insert(name.slot, changed), other) == resolution(slots, other),
{
}

/// A backing detached with `n` uses outstanding is handed back by the last of
/// their releases and by none before it.
pub proof fn a_detached_backing_outlives_every_use(
    retiring: Seq<Retiring>,
    backing: BackingId,
    n: usize,
    k: nat,
)
    requires
        first_retiring(retiring, backing) is None,
        k < n,
    ensures
        ({
            let detached = retiring_with(retiring, backing, n);
            let held = after_releases(detached, backing, k);
            &&& held == retiring.push(Retiring { backing, outstanding: (n - k) as usize })
            &&& release_retiring(held, backing).0 == (if k + 1 == n {
                Some(backing)
            } else {
                None
            })
            &&& k + 1 == n ==> release_retiring(held, backing).1 == retiring
        }),
    decreases k,
{
    let detached = retiring_with(retiring, backing, n);
    let held = after_releases(detached, backing, k);
    if k > 0 {
        a_detached_backing_outlives_every_use(retiring, backing, n, (k - 1) as nat);
        let previous = after_releases(detached, backing, (k - 1) as nat);
        lemma_pushed_first(retiring, backing, (n - k + 1) as usize);
        assert(held =~= retiring.push(Retiring { backing, outstanding: (n - k) as usize }));
    }
    lemma_pushed_first(retiring, backing, (n - k) as usize);
    assert(held.remove(retiring.len() as int) =~= retiring);
}

proof fn lemma_pushed_first(retiring: Seq<Retiring>, backing: BackingId, n: usize)
    requires
        first_retiring(retiring, backing) is None,
    ensures
        first_retiring(retiring.push(Retiring { backing, outstanding: n }), backing) == Some(
            retiring.len() as int,
        ),
{
    let pushed = retiring.push(Retiring { backing, outstanding: n });
    assert(pushed.drop_last() =~= retiring);
}

/// A name resolves exactly while its slot is declared, at its generation and
/// not deleted, and to the backing the slot has now.
pub proof fn a_name_resolves_while_its_slot_holds_it(
    slots: Map<ObjectListRef, Slot>,
    name: ResourceId,
)
    ensures
        ({
            let declared = slots.dom().contains(name.slot);
            let slot = slots[name.slot];
            let current = declared && slot.generation.0 == name.generation.0;
            &&& resolution(slots, name) is Ok <==> current && !slot.deleted
            &&& resolution(slots, name) matches Ok(lease) ==> lease.id == name && lease.backing
                == slot.backing
            &&& (resolution(slots, name) matches Err(Refusal::NotDeclared { .. })) == !declared
            &&& (resolution(slots, name) matches Err(Refusal::StaleGeneration { .. })) == (declared
                && !current)
            &&& (resolution(slots, name) matches Err(Refusal::Deleted { .. })) == (current
                && slot.deleted)
        }),
{
}

/// A lease on a resolved name is current until the name moves on: deleting it
/// or pointing it at other memory ends that.
pub proof fn a_resolved_lease_is_current(
    slots: Map<ObjectListRef, Slot>,
    name: ResourceId,
    next: Slot,
)
    requires
        resolution(slots, name) is Ok,
    ensures
        ({
            let lease = resolution(slots, name)->Ok_0;
            &&& is_current(slots, lease)
            &&& is_current(slots.insert(name.slot, next), lease) <==> !next.deleted && next.backing
                == lease.backing
        }),
{
}

/// A detached backing is torn down at once exactly when no use of it is
/// outstanding; otherwise it joins what is retiring, behind what is there.
pub proof fn a_detached_backing_waits_for_its_uses(
    retiring: Seq<Retiring>,
    backing: BackingId,
    outstanding: usize,
)
    ensures
        ({
            let after = retiring_with(retiring, backing, outstanding);
            &&& detached(backing, outstanding) is Now <==> outstanding == 0
            &&& outstanding == 0 ==> after == retiring && detached(backing, outstanding)
                == (Teardown::Now { backing })
            &&& outstanding > 0 ==> {
                &&& detached(backing, outstanding) == (Teardown::WhenUsesRetire {
                    backing,
                    outstanding,
                })
                &&& after.len() == retiring.len() + 1
                &&& after[retiring.len() as int].backing == backing
                &&& after[retiring.len() as int].outstanding == outstanding
                &&& forall|i: int|
                    0 <= i < retiring.len() ==> #[trigger] after[i] == retiring[i]
            }
        }),
{
}

/// The first retiring entry of a backing is of that backing, and none before
/// it is; where there is none, no entry is.
pub proof fn the_first_retiring_entry_is_the_first(retiring: Seq<Retiring>, backing: BackingId)
    ensures
        match first_retiring(retiring, backing) {
            Some(at) => 0 <= at < retiring.len() && retiring[at].backing == backing && forall|i: int|
                0 <= i < at ==> (#[trigger] retiring[i]).backing != backing,
            None => forall|i: int|
                0 <= i < retiring.len() ==> (#[trigger] retiring[i]).backing != backing,
        },
    decreases retiring.len(),
{
    if retiring.len() > 0 {
        let rest = retiring.drop_last();
        the_first_retiring_entry_is_the_first(rest, backing);
        assert(forall|i: int| 0 <= i < rest.len() ==> #[trigger] rest[i] == retiring[i]);
        match first_retiring(rest, backing) {
            Some(at) => {
                assert(rest[at] == retiring[at]);
                assert forall|i: int| 0 <= i < at implies (#[trigger] retiring[i]).backing
                    != backing by {
                    assert(rest[i] == retiring[i]);
                }
            },
            None => {
                assert forall|i: int| 0 <= i < rest.len() implies (#[trigger] retiring[i]).backing
                    != backing by {
                    assert(rest[i] == retiring[i]);
                }
            },
        }
    }
}

} // verus!
