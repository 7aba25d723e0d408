//! The names everything else is keyed by.
//!
//! Each identity is its own type, so a stamp slot cannot be passed where a
//! channel is meant even though both travel as a `u32`.

use vstd::prelude::*;

verus! {

/// A submission ordering domain.
#[derive(Clone, Copy, Debug, PartialEq, Eq, PartialOrd, Ord, Hash, Structural)]
pub struct ChannelId(pub u32);

/// A packet's place in one session's arrival order.
#[derive(Clone, Copy, Debug, PartialEq, Eq, PartialOrd, Ord, Hash, Structural)]
pub struct IngressOrdinal(pub u64);

/// A packet's place in its own channel's order.
#[derive(Clone, Copy, Debug, PartialEq, Eq, PartialOrd, Ord, Hash, Structural)]
pub struct ChannelSequence(pub u64);

/// One session.
#[derive(Clone, Copy, Debug, PartialEq, Eq, PartialOrd, Ord, Hash, Structural)]
pub struct SessionId(pub u64);

/// The semantic lifetime a guest reset ends.
#[derive(Clone, Copy, Debug, PartialEq, Eq, PartialOrd, Ord, Hash, Structural)]
pub struct SessionGeneration(pub u64);

/// The native lifetime a device loss ends.
#[derive(Clone, Copy, Debug, PartialEq, Eq, PartialOrd, Ord, Hash, Structural)]
pub struct DeviceEpoch(pub u64);

/// A guest task, which owns an object list.
#[derive(Clone, Copy, Debug, PartialEq, Eq, PartialOrd, Ord, Hash, Structural)]
pub struct TaskId(pub u32);

/// What a present packet shows. Not an object-list ref, though both are words.
#[derive(Clone, Copy, Debug, PartialEq, Eq, PartialOrd, Ord, Hash, Structural)]
pub struct MappingId(pub u32);

/// A slot of a task's object list.
#[derive(Clone, Copy, Debug, PartialEq, Eq, PartialOrd, Ord, Hash, Structural)]
pub struct ObjectListRef(pub u32);

/// How many times a slot has been declared.
///
/// Zero is what a slot has before its first declaration, so no declared object
/// carries it.
#[derive(Clone, Copy, Debug, PartialEq, Eq, PartialOrd, Ord, Hash, Structural)]
pub struct SlotGeneration(pub u64);

/// An object: a slot, at one of its generations.
#[derive(Clone, Copy, Debug, PartialEq, Eq, PartialOrd, Ord, Hash, Structural)]
pub struct ResourceId {
    pub slot: ObjectListRef,
    pub generation: SlotGeneration,
}

/// A completion word's slot.
#[derive(Clone, Copy, Debug, PartialEq, Eq, PartialOrd, Ord, Hash, Structural)]
pub struct StampSlot(pub u32);

/// A completion word's value, ordered by distance around the word.
#[derive(Clone, Copy, Debug, PartialEq, Eq, Hash, Structural)]
pub struct StampValue(pub u32);

/// The completion word a packet publishes.
#[derive(Clone, Copy, Debug, PartialEq, Eq, Hash, Structural)]
pub struct CompletionStamp {
    pub slot: StampSlot,
    pub value: StampValue,
}

/// The completion word a packet waits for.
#[derive(Clone, Copy, Debug, PartialEq, Eq, Hash, Structural)]
pub struct StampWait {
    pub slot: StampSlot,
    pub value: StampValue,
}

/// A point on the native timeline.
#[derive(Clone, Copy, Debug, PartialEq, Eq, PartialOrd, Ord, Hash, Structural)]
pub struct TimelinePoint(pub u64);

/// Where an accepted packet stands: its lifetime, its channel, and its place in
/// both orders.
#[derive(Clone, Copy, Debug, PartialEq, Eq, Hash, Structural)]
pub struct TransactionIdentity {
    pub session: SessionGeneration,
    pub domain: ChannelId,
    pub domain_sequence: ChannelSequence,
    pub ingress: IngressOrdinal,
}

/// The successor of a counter that stops at the top of its word.
pub open spec fn next_count(n: u64) -> u64 {
    if n == u64::MAX { n } else { (n + 1) as u64 }
}

impl IngressOrdinal {
    pub fn next(self) -> (next: IngressOrdinal)
        ensures
            next.0 == next_count(self.0),
    {
        IngressOrdinal(self.0.saturating_add(1))
    }
}

impl ChannelSequence {
    pub fn next(self) -> (next: ChannelSequence)
        ensures
            next.0 == next_count(self.0),
    {
        ChannelSequence(self.0.saturating_add(1))
    }
}

impl SessionGeneration {
    /// The generation a session opens in.
    #[must_use]
    pub fn first() -> (first: SessionGeneration)
        ensures
            first == SessionGeneration(1),
    {
        SessionGeneration(1)
    }

    pub fn next(self) -> (next: SessionGeneration)
        ensures
            next.0 == next_count(self.0),
    {
        SessionGeneration(self.0.saturating_add(1))
    }
}

impl DeviceEpoch {
    /// The epoch of a session's first device.
    #[must_use]
    pub fn first() -> (first: DeviceEpoch)
        ensures
            first == DeviceEpoch(1),
    {
        DeviceEpoch(1)
    }

    pub fn next(self) -> (next: DeviceEpoch)
        ensures
            next.0 == next_count(self.0),
    {
        DeviceEpoch(self.0.saturating_add(1))
    }
}

impl SlotGeneration {
    pub fn next(self) -> (next: SlotGeneration)
        ensures
            next.0 == next_count(self.0),
    {
        SlotGeneration(self.0.saturating_add(1))
    }
}

impl Default for IngressOrdinal {
    /// The ordinal before the first.
    fn default() -> (o: IngressOrdinal)
        ensures
            o == IngressOrdinal(0),
    {
        IngressOrdinal(0)
    }
}

impl Default for ChannelSequence {
    /// The sequence before the first.
    fn default() -> (s: ChannelSequence)
        ensures
            s == ChannelSequence(0),
    {
        ChannelSequence(0)
    }
}

impl Default for SlotGeneration {
    /// The generation of a slot nothing has been declared in.
    fn default() -> (g: SlotGeneration)
        ensures
            g == SlotGeneration(0),
    {
        SlotGeneration(0)
    }
}

/// How far `later` stands ahead of `earlier`, going upwards around the word.
pub open spec fn stamp_distance(later: u32, earlier: u32) -> int {
    if later >= earlier {
        later - earlier
    } else {
        later - earlier + 0x1_0000_0000
    }
}

impl StampValue {
    /// `self` is strictly later than `other`: ahead of it by less than half the
    /// word.
    pub open spec fn is_after(self, other: StampValue) -> bool {
        0 < stamp_distance(self.0, other.0) < 0x8000_0000
    }

    /// `self` satisfies a wait for `needed`.
    pub open spec fn has_reached(self, needed: StampValue) -> bool {
        self == needed || self.is_after(needed)
    }

    /// The later of two values; `self` where neither is later.
    pub open spec fn latest(self, other: StampValue) -> StampValue {
        if other.is_after(self) { other } else { self }
    }

    /// Whether `self` is strictly later than `other`.
    ///
    /// A word that wrapped is later than the value it wrapped from: 1 follows
    /// `u32::MAX`.
    #[must_use]
    pub fn follows(self, other: StampValue) -> (later: bool)
        ensures
            later == self.is_after(other),
    {
        let ahead: u32 = self.0.wrapping_sub(other.0);
        0 < ahead && ahead < 0x8000_0000
    }

    /// Whether a slot holding `self` satisfies a wait for `needed`.
    #[must_use]
    pub fn reached(self, needed: StampValue) -> (met: bool)
        ensures
            met == self.has_reached(needed),
    {
        self.0 == needed.0 || self.follows(needed)
    }

    /// The later of the two, so a slot never goes backwards.
    #[must_use]
    pub fn later(self, other: StampValue) -> (v: StampValue)
        ensures
            v == self.latest(other),
    {
        if other.follows(self) {
            other
        } else {
            self
        }
    }
}

impl StampWait {
    /// Whether the value a slot has published satisfies this wait.
    pub open spec fn met_by(self, published: Option<StampValue>) -> bool {
        published is Some && published->0.has_reached(self.value)
    }

    #[must_use]
    pub fn satisfied_by(self, published: Option<StampValue>) -> (met: bool)
        ensures
            met == self.met_by(published),
    {
        match published {
            Some(v) => v.reached(self.value),
            None => false,
        }
    }
}

impl TimelinePoint {
    /// Whether a timeline standing here has passed `needed`.
    #[must_use]
    pub fn reached(self, needed: TimelinePoint) -> (met: bool)
        ensures
            met == (self.0 >= needed.0),
    {
        self.0 >= needed.0
    }
}

/// No value is later than itself, and of two values at most one is later.
pub proof fn stamp_order_is_asymmetric(a: StampValue, b: StampValue)
    ensures
        !a.is_after(a),
        a.is_after(b) ==> !b.is_after(a),
{
}

/// Any two values that are not exactly half the word apart are comparable.
pub proof fn stamp_order_is_total_but_for_opposite_values(a: StampValue, b: StampValue)
    requires
        stamp_distance(a.0, b.0) != 0x8000_0000,
    ensures
        a == b || a.is_after(b) || b.is_after(a),
{
}

/// The value after the largest word is zero, and it is later.
pub proof fn a_wrapped_stamp_is_later(v: StampValue, step: u32)
    requires
        0 < step < 0x8000_0000,
        v.0 + step > u32::MAX,
    ensures
        StampValue((v.0 + step - 0x1_0000_0000) as u32).is_after(v),
{
}

/// Publishing never takes a slot backwards: what it holds afterwards is what it
/// held or something later, and whatever wait the new value meets exactly stays
/// met.
pub proof fn publishing_never_retracts(held: StampValue, published: StampValue)
    ensures
        held.latest(published) == held || held.latest(published).is_after(held),
        held.latest(published) == published || !published.is_after(held),
{
}

/// A value is later than another exactly when some step of less than half the
/// word leads to it, going upwards and around.
pub proof fn a_stamp_is_later_by_a_step_of_less_than_half(v: StampValue, step: u32)
    ensures
        ({
            let reached = if v.0 + step > u32::MAX {
                v.0 + step - 0x1_0000_0000
            } else {
                v.0 + step
            };
            StampValue(reached as u32).is_after(v) <==> 0 < step < 0x8000_0000
        }),
{
}

/// A wait is met by the value it names and by every later one, by no earlier
/// one and not before anything was published.
pub proof fn a_wait_is_met_from_its_value_on(wait: StampWait, published: StampValue)
    ensures
        !wait.met_by(None),
        wait.met_by(Some(wait.value)),
        published.is_after(wait.value) ==> wait.met_by(Some(published)),
        wait.value.is_after(published) ==> !wait.met_by(Some(published)),
        wait.met_by(Some(published)) ==> published.0 == wait.value.0 || published.is_after(
            wait.value,
        ),
{
}

/// A counter moves up by one until it reaches the top of its word, where it
/// stays.
pub proof fn a_counter_moves_up_by_one(n: u64)
    ensures
        n < u64::MAX ==> next_count(n) == n + 1,
        next_count(u64::MAX) == u64::MAX,
{
}

} // verus!
