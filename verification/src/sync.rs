//! Fences, events and barriers: the operations that order and name no memory
//! of their own.

use vstd::prelude::*;
use crate::identity::ResourceId;

verus! {

/// The stages an ordering record declares, as the guest wrote them.
#[derive(Clone, Copy, Debug, PartialEq, Eq, PartialOrd, Ord, Hash, Structural)]
pub struct RenderStages(pub u32);

/// The kinds of object a scope barrier covers, as the guest wrote them.
#[derive(Clone, Copy, Debug, PartialEq, Eq, PartialOrd, Ord, Hash, Structural)]
pub struct BarrierScope(pub u32);

#[derive(Clone, Copy, Debug, PartialEq, Eq, PartialOrd, Ord, Hash, Structural)]
pub enum FenceKind {
    Update,
    Wait,
}

#[derive(Clone, Copy, Debug, PartialEq, Eq, PartialOrd, Ord, Hash, Structural)]
pub enum EventKind {
    Signal,
    Wait,
}

/// One encoder's update of a fence, or its wait for one.
#[derive(Clone, Copy, Debug, PartialEq, Eq, Structural)]
pub struct FenceOp {
    pub kind: FenceKind,
    pub fence: ResourceId,
    pub stages: Option<RenderStages>,
}

/// A signal of an event, or a wait for it to reach a value.
#[derive(Clone, Copy, Debug, PartialEq, Eq, Structural)]
pub struct EventOp {
    pub kind: EventKind,
    pub event: ResourceId,
    pub value: u64,
}

impl EventOp {
    /// Whether this operation moves an event on from `current`. An event is
    /// monotonic: a signal at or below its value is silent, and a wait moves
    /// nothing.
    pub open spec fn moves(self, current: u64) -> bool {
        self.kind is Signal && self.value > current
    }

    #[must_use]
    pub fn advances(&self, current: u64) -> (advances: bool)
        ensures
            advances == self.moves(current),
    {
        match self.kind {
            EventKind::Signal => self.value > current,
            EventKind::Wait => false,
        }
    }
}

/// A window of a transaction's resource arena.
#[derive(Clone, Copy, Debug, PartialEq, Eq, Structural)]
pub struct ResourceSpan {
    pub start: u32,
    pub len: u32,
}

impl ResourceSpan {
    /// The window as indices into the arena. A window that would run past the
    /// last index ends at it.
    #[must_use]
    pub fn range(self) -> (range: core::ops::Range<usize>)
        ensures
            range.start == self.start,
            range.end == (if self.start + self.len > usize::MAX {
                usize::MAX as int
            } else {
                self.start + self.len
            }),
    {
        let start = self.start as usize;
        let end = start.saturating_add(self.len as usize);
        start..end
    }
}

/// What a barrier covers.
#[derive(Clone, Copy, Debug, PartialEq, Eq, Structural)]
pub enum BarrierTarget {
    /// A counted list, in the transaction's resource arena.
    Resources(ResourceSpan),
    Scope(BarrierScope),
    Texture,
}

/// An ordering point inside one encoder.
#[derive(Clone, Copy, Debug, PartialEq, Eq, Structural)]
pub struct BarrierOp {
    pub target: BarrierTarget,
    pub after_stages: Option<RenderStages>,
    pub before_stages: Option<RenderStages>,
}

/// An event that was signalled to a value no longer moves for that value or a
/// lower one.
pub proof fn an_event_is_monotonic(op: EventOp, current: u64, later: EventOp)
    requires
        op.moves(current),
        later.value <= op.value,
    ensures
        op.value > current,
        !later.moves(op.value),
{
}

/// A signal above an event's value moves it, and neither a lower signal nor a
/// wait does.
pub proof fn only_a_higher_signal_moves_an_event(op: EventOp, current: u64)
    ensures
        op.kind is Wait ==> !op.moves(current),
        op.kind is Signal && op.value > current ==> op.moves(current),
        op.value <= current ==> !op.moves(current),
{
}

} // verus!
