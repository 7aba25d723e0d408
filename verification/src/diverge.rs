//! What it takes for two runs of a batch to mean the same thing.
//!
//! Not equal traces. A backing's content versions are compared in order. A
//! completion stamp and an event are compared by where they came to rest, and
//! every publication must advance. Each channel's releases are compared in
//! order. The observations of one completion must be contiguous, with the
//! versions before the stamps.

use vstd::prelude::*;
use crate::access::{BackingId, ContentVersion};
use crate::identity::{ChannelId, IngressOrdinal, ResourceId, StampSlot, StampValue};
use crate::interpret::{Observation, Refusal};
use crate::schedule::{ChannelRelease, Run};

verus! {

/// A way the two runs meant different things.
#[allow(inconsistent_fields)]
#[derive(Clone, Debug, PartialEq, Eq)]
pub enum Divergence {
    /// A transaction ran in one and not the other.
    DifferentTransactions { serial: Vec<IngressOrdinal>, parallel: Vec<IngressOrdinal> },
    /// A backing's content versions were published in a different order, or a
    /// different set of them was published.
    ContentHistory {
        backing: BackingId,
        serial: Vec<ContentVersion>,
        parallel: Vec<ContentVersion>,
    },
    /// A completion word came to rest at a different value.
    StampOutcome {
        slot: StampSlot,
        serial: Option<StampValue>,
        parallel: Option<StampValue>,
    },
    /// An event came to rest at a different value.
    EventOutcome { event: ResourceId, serial: u64, parallel: u64 },
    /// A fence was updated a different number of times.
    FenceUpdates { fence: ResourceId, serial: usize, parallel: usize },
    /// A transaction was refused in one run and not the other.
    Refusals {
        serial: Vec<(IngressOrdinal, Refusal)>,
        parallel: Vec<(IngressOrdinal, Refusal)>,
    },
    /// A channel told the guest something else, or in another order.
    PublicationOrder {
        domain: ChannelId,
        serial: Vec<ChannelRelease>,
        parallel: Vec<ChannelRelease>,
    },
    /// A monotone point was published a value that did not advance it.
    NonMonotonePublication { at: usize },
    /// One transaction's publications were interrupted by another's.
    SplitPublication { ordinal: IngressOrdinal },
    /// A completion published a stamp before its content versions.
    StampBeforeVersions { ordinal: IngressOrdinal },
}

impl Divergence {
    #[must_use]
    pub fn slug(&self) -> (slug: &'static str)
        ensures
            slug@ == (match self {
                Divergence::DifferentTransactions { .. } => "diverge_different_transactions"@,
                Divergence::ContentHistory { .. } => "diverge_content_history"@,
                Divergence::StampOutcome { .. } => "diverge_stamp_outcome"@,
                Divergence::EventOutcome { .. } => "diverge_event_outcome"@,
                Divergence::NonMonotonePublication { .. } => "diverge_non_monotone_publication"@,
                Divergence::FenceUpdates { .. } => "diverge_fence_updates"@,
                Divergence::Refusals { .. } => "diverge_refusals"@,
                Divergence::PublicationOrder { .. } => "diverge_publication_order"@,
                Divergence::SplitPublication { .. } => "diverge_split_publication"@,
                Divergence::StampBeforeVersions { .. } => "diverge_stamp_before_versions"@,
            }),
    {
        match self {
            Divergence::DifferentTransactions { .. } => "diverge_different_transactions",
            Divergence::ContentHistory { .. } => "diverge_content_history",
            Divergence::StampOutcome { .. } => "diverge_stamp_outcome",
            Divergence::EventOutcome { .. } => "diverge_event_outcome",
            Divergence::NonMonotonePublication { .. } => "diverge_non_monotone_publication",
            Divergence::FenceUpdates { .. } => "diverge_fence_updates",
            Divergence::Refusals { .. } => "diverge_refusals",
            Divergence::PublicationOrder { .. } => "diverge_publication_order",
            Divergence::SplitPublication { .. } => "diverge_split_publication",
            Divergence::StampBeforeVersions { .. } => "diverge_stamp_before_versions",
        }
    }
}

/// Something sorted by a number it carries.
pub trait Keyed: Sized {
    spec fn key(self) -> int;

    fn above(&self, other: &Self) -> (above: bool)
        ensures
            above == (self.key() > other.key()),
    ;
}

impl Keyed for IngressOrdinal {
    open spec fn key(self) -> int {
        self.0 as int
    }

    fn above(&self, other: &Self) -> (above: bool) {
        self.0 > other.0
    }
}

impl Keyed for (IngressOrdinal, Refusal) {
    open spec fn key(self) -> int {
        self.0.0 as int
    }

    fn above(&self, other: &Self) -> (above: bool) {
        self.0.0 > other.0.0
    }
}

/// Where the observations of one completion sit.
#[derive(Clone, Copy, Debug)]
pub struct Window {
    pub ordinal: IngressOrdinal,
    pub start: usize,
    pub end: usize,
}

impl Keyed for Window {
    open spec fn key(self) -> int {
        self.start as int
    }

    fn above(&self, other: &Self) -> (above: bool) {
        self.start > other.start
    }
}

/// A sorted sequence with one more, behind its equals.
pub open spec fn placed<T: Keyed>(sorted: Seq<T>, item: T) -> Seq<T>
    decreases sorted.len(),
{
    if sorted.len() == 0 || sorted.last().key() <= item.key() {
        sorted.push(item)
    } else {
        placed(sorted.drop_last(), item).push(sorted.last())
    }
}

/// The items in key order, equals in the order they came in.
pub open spec fn in_key_order<T: Keyed>(items: Seq<T>) -> Seq<T>
    decreases items.len(),
{
    if items.len() == 0 {
        Seq::empty()
    } else {
        placed(in_key_order(items.drop_last()), items.last())
    }
}

proof fn lemma_placed<T: Keyed>(sorted: Seq<T>, item: T, at: int)
    requires
        0 <= at <= sorted.len(),
        forall|k: int| at <= k < sorted.len() ==> (#[trigger] sorted[k]).key() > item.key(),
        at > 0 ==> sorted[at - 1].key() <= item.key(),
    ensures
        placed(sorted, item) == sorted.insert(at, item),
    decreases sorted.len(),
{
    if at == sorted.len() {
        assert(sorted.insert(at, item) =~= sorted.push(item));
    } else {
        assert(sorted[sorted.len() - 1].key() > item.key());
        let init = sorted.drop_last();
        lemma_placed(init, item, at);
        assert(sorted.insert(at, item) =~= init.insert(at, item).push(sorted.last()));
    }
}

fn sorted<T: Keyed + Copy>(items: &Vec<T>) -> (out: Vec<T>)
    ensures
        out@ == in_key_order(items@),
{
    let mut out: Vec<T> = Vec::new();
    let mut i: usize = 0;
    assert(items@.take(0) =~= Seq::<T>::empty());
    while i < items.len()
        invariant
            i <= items@.len(),
            out@ == in_key_order(items@.take(i as int)),
        decreases items.len() - i,
    {
        let item = items[i];
        let ghost before = out@;
        proof {
            assert(items@.take(i + 1).drop_last() =~= items@.take(i as int));
            assert(items@.take(i + 1).last() == item);
        }
        let mut at: usize = out.len();
        while at > 0 && out[at - 1].above(&item)
            invariant
                out@ == before,
                at <= before.len(),
                forall|k: int| at <= k < before.len() ==> (#[trigger] before[k]).key()
                    > item.key(),
            decreases at,
        {
            at -= 1;
        }
        proof {
            lemma_placed(before, item, at as int);
        }
        out.insert(at, item);
        i += 1;
    }
    assert(items@.take(i as int) =~= items@);
    out
}

/// The content versions a trace publishes for a backing, in order.
pub open spec fn history(trace: Seq<Observation>, backing: BackingId) -> Seq<ContentVersion>
    decreases trace.len(),
{
    if trace.len() == 0 {
        Seq::empty()
    } else {
        let before = history(trace.drop_last(), backing);
        match trace.last() {
            Observation::VersionPublished { backing: b, version } => if b == backing {
                before.push(version)
            } else {
                before
            },
            _ => before,
        }
    }
}

/// Where a completion word came to rest: the furthest value published into it.
pub open spec fn stamp_rest(trace: Seq<Observation>, slot: StampSlot) -> Option<StampValue>
    decreases trace.len(),
{
    if trace.len() == 0 {
        None
    } else {
        let before = stamp_rest(trace.drop_last(), slot);
        match trace.last() {
            Observation::StampPublished { slot: s, value } => if s == slot {
                match before {
                    Some(at) => Some(at.latest(value)),
                    None => Some(value),
                }
            } else {
                before
            },
            _ => before,
        }
    }
}

/// Where an event came to rest; zero for one that was never signalled.
pub open spec fn event_rest(trace: Seq<Observation>, event: ResourceId) -> u64
    decreases trace.len(),
{
    if trace.len() == 0 {
        0
    } else {
        let before = event_rest(trace.drop_last(), event);
        match trace.last() {
            Observation::EventAdvanced { event: e, to } => if e == event && to > before {
                to
            } else {
                before
            },
            _ => before,
        }
    }
}

/// How often a fence was updated.
pub open spec fn fence_count(trace: Seq<Observation>, fence: ResourceId) -> nat
    decreases trace.len(),
{
    if trace.len() == 0 {
        0
    } else {
        let before = fence_count(trace.drop_last(), fence);
        match trace.last() {
            Observation::FenceUpdated { fence: f } => if f == fence {
                before + 1
            } else {
                before
            },
            _ => before,
        }
    }
}

/// What a trace refused, in order.
pub open spec fn refusals_in(trace: Seq<Observation>) -> Seq<(IngressOrdinal, Refusal)>
    decreases trace.len(),
{
    if trace.len() == 0 {
        Seq::empty()
    } else {
        let before = refusals_in(trace.drop_last());
        match trace.last() {
            Observation::Refused { ingress, reason } => before.push((ingress, reason)),
            _ => before,
        }
    }
}

pub open spec fn shows_backing(trace: Seq<Observation>, backing: BackingId) -> bool {
    exists|i: int|
        0 <= i < trace.len() && (#[trigger] trace[i]) is VersionPublished
            && trace[i]->VersionPublished_backing == backing
}

pub open spec fn shows_stamp(trace: Seq<Observation>, slot: StampSlot) -> bool {
    exists|i: int|
        0 <= i < trace.len() && (#[trigger] trace[i]) is StampPublished
            && trace[i]->StampPublished_slot == slot
}

pub open spec fn shows_event(trace: Seq<Observation>, event: ResourceId) -> bool {
    exists|i: int|
        0 <= i < trace.len() && (#[trigger] trace[i]) is EventAdvanced
            && trace[i]->EventAdvanced_event == event
}

pub open spec fn shows_fence(trace: Seq<Observation>, fence: ResourceId) -> bool {
    exists|i: int|
        0 <= i < trace.len() && (#[trigger] trace[i]) is FenceUpdated
            && trace[i]->FenceUpdated_fence == fence
}

/// The value last published into a completion word.
pub open spec fn last_stamp(trace: Seq<Observation>, slot: StampSlot) -> Option<StampValue>
    decreases trace.len(),
{
    if trace.len() == 0 {
        None
    } else {
        match trace.last() {
            Observation::StampPublished { slot: s, value } => if s == slot {
                Some(value)
            } else {
                last_stamp(trace.drop_last(), slot)
            },
            _ => last_stamp(trace.drop_last(), slot),
        }
    }
}

/// The value an event last advanced to.
pub open spec fn last_event(trace: Seq<Observation>, event: ResourceId) -> Option<u64>
    decreases trace.len(),
{
    if trace.len() == 0 {
        None
    } else {
        match trace.last() {
            Observation::EventAdvanced { event: e, to } => if e == event {
                Some(to)
            } else {
                last_event(trace.drop_last(), event)
            },
            _ => last_event(trace.drop_last(), event),
        }
    }
}

/// The observation, coming after these, goes backwards or stands still.
pub open spec fn falls_back(before: Seq<Observation>, seen: Observation) -> bool {
    match seen {
        Observation::StampPublished { slot, value } => match last_stamp(before, slot) {
            Some(at) => !value.is_after(at),
            None => false,
        },
        Observation::EventAdvanced { event, to } => match last_event(before, event) {
            Some(at) => to <= at,
            None => false,
        },
        _ => false,
    }
}

/// The observation at `k` goes backwards or stands still.
pub open spec fn goes_back(trace: Seq<Observation>, k: int) -> bool {
    0 <= k < trace.len() && falls_back(trace.take(k), trace[k])
}

/// Every publication into a monotone point advances it.
pub open spec fn is_monotone(trace: Seq<Observation>) -> bool {
    forall|k: int| !#[trigger] goes_back(trace, k)
}

/// The completions of a run, by where their observations start.
pub open spec fn windows(run: Run) -> Seq<Window> {
    in_key_order(all_windows(run))
}

/// The completions of a run, in completion order.
pub open spec fn all_windows(run: Run) -> Seq<Window> {
    run.spans@.map_values(
        |s: (IngressOrdinal, core::ops::Range<usize>)|
            Window { ordinal: s.0, start: s.1.start, end: s.1.end },
    )
}

/// The completion at `k` does not start where the one before it ended.
pub open spec fn splits(ws: Seq<Window>, k: int) -> bool {
    0 <= k < ws.len() && ws[k].start != (if k == 0 {
        0
    } else {
        ws[k - 1].end
    })
}

/// A stamp stands before a version within a window.
pub open spec fn stamp_leads(trace: Seq<Observation>, start: int, end: int) -> bool {
    exists|i: int, j: int|
        start <= i < j < end && (#[trigger] trace[i]) is StampPublished && (
        #[trigger] trace[j]) is VersionPublished
}

/// The completion at `k` published a stamp before a version.
pub open spec fn leads(trace: Seq<Observation>, ws: Seq<Window>, k: int) -> bool {
    0 <= k < ws.len() && stamp_leads(trace, ws[k].start as int, ws[k].end as int)
}

/// The observations of every completion are contiguous, versions first.
pub open spec fn is_atomic(run: Run) -> bool {
    forall|k: int|
        !(#[trigger] splits(windows(run), k)) && !leads(run.trace@, windows(run), k)
}

/// Every span of the run lies in its trace.
pub open spec fn spans_inside(run: Run) -> bool {
    forall|k: int|
        0 <= k < run.spans@.len() ==> (#[trigger] run.spans@[k]).1.start <= run.spans@[k].1.end
            <= run.trace@.len()
}

pub open spec fn same_transactions(serial: Run, parallel: Run) -> bool {
    in_key_order(crate::schedule::order_of(serial)) == in_key_order(
        crate::schedule::order_of(parallel),
    )
}

pub open spec fn same_content(s: Seq<Observation>, p: Seq<Observation>) -> bool {
    forall|b: BackingId| #[trigger] history(s, b) == history(p, b)
}

pub open spec fn same_stamps(s: Seq<Observation>, p: Seq<Observation>) -> bool {
    forall|slot: StampSlot| #[trigger] stamp_rest(s, slot) == stamp_rest(p, slot)
}

pub open spec fn same_events(s: Seq<Observation>, p: Seq<Observation>) -> bool {
    forall|event: ResourceId| #[trigger] event_rest(s, event) == event_rest(p, event)
}

pub open spec fn same_fences(s: Seq<Observation>, p: Seq<Observation>) -> bool {
    forall|fence: ResourceId| #[trigger] fence_count(s, fence) == fence_count(p, fence)
}

pub open spec fn same_refusals(s: Seq<Observation>, p: Seq<Observation>) -> bool {
    in_key_order(refusals_in(s)) == in_key_order(refusals_in(p))
}

pub open spec fn same_publications(s: Seq<ChannelRelease>, p: Seq<ChannelRelease>) -> bool {
    forall|d: ChannelId| #[trigger]
        crate::schedule::released_on(s, d) == crate::schedule::released_on(p, d)
}

/// The parallel run means what the serial one meant.
pub open spec fn agree(serial: Run, parallel: Run) -> bool {
    &&& same_transactions(serial, parallel)
    &&& same_content(serial.trace@, parallel.trace@)
    &&& same_stamps(serial.trace@, parallel.trace@)
    &&& same_events(serial.trace@, parallel.trace@)
    &&& same_fences(serial.trace@, parallel.trace@)
    &&& same_refusals(serial.trace@, parallel.trace@)
    &&& same_publications(serial.releases@, parallel.releases@)
    &&& is_monotone(parallel.trace@)
    &&& is_atomic(parallel)
}

/// Resources in slot order, then in generation order.
pub open spec fn below(a: ResourceId, b: ResourceId) -> bool {
    a.slot.0 < b.slot.0 || (a.slot.0 == b.slot.0 && a.generation.0 < b.generation.0)
}

/// The backing is the first that differs: in key order among those the serial
/// run shows, and then among the others.
pub open spec fn first_content(
    s: Seq<Observation>,
    p: Seq<Observation>,
    backing: BackingId,
) -> bool {
    &&& history(s, backing) != history(p, backing)
    &&& forall|b: BackingId| #[trigger]
        history(s, b) != history(p, b) ==> if shows_backing(s, backing) {
            shows_backing(s, b) ==> backing.0 <= b.0
        } else {
            !shows_backing(s, b) && backing.0 <= b.0
        }
}

pub open spec fn first_stamp(s: Seq<Observation>, p: Seq<Observation>, slot: StampSlot) -> bool {
    &&& stamp_rest(s, slot) != stamp_rest(p, slot)
    &&& forall|t: StampSlot| #[trigger]
        stamp_rest(s, t) != stamp_rest(p, t) ==> if shows_stamp(s, slot) {
            shows_stamp(s, t) ==> slot.0 <= t.0
        } else {
            !shows_stamp(s, t) && slot.0 <= t.0
        }
}

pub open spec fn first_event(s: Seq<Observation>, p: Seq<Observation>, event: ResourceId) -> bool {
    &&& event_rest(s, event) != event_rest(p, event)
    &&& forall|e: ResourceId| #[trigger]
        event_rest(s, e) != event_rest(p, e) ==> if shows_event(s, event) {
            shows_event(s, e) ==> !below(e, event)
        } else {
            !shows_event(s, e) && !below(e, event)
        }
}

pub open spec fn first_fence(s: Seq<Observation>, p: Seq<Observation>, fence: ResourceId) -> bool {
    &&& fence_count(s, fence) != fence_count(p, fence)
    &&& forall|f: ResourceId| #[trigger]
        fence_count(s, f) != fence_count(p, f) ==> if shows_fence(s, fence) {
            shows_fence(s, f) ==> !below(f, fence)
        } else {
            !shows_fence(s, f) && !below(f, fence)
        }
}

pub open spec fn first_domain(
    s: Seq<ChannelRelease>,
    p: Seq<ChannelRelease>,
    domain: ChannelId,
) -> bool {
    &&& crate::schedule::released_on(s, domain) != crate::schedule::released_on(p, domain)
    &&& forall|d: ChannelId| #[trigger]
        crate::schedule::released_on(s, d) != crate::schedule::released_on(p, d)
            ==> if crate::schedule::released_any(s, domain) {
            crate::schedule::released_any(s, d) ==> domain.0 <= d.0
        } else {
            !crate::schedule::released_any(s, d) && domain.0 <= d.0
        }
}

/// The difference is the first found, in the order the variants are declared.
pub open spec fn differ_by(serial: Run, parallel: Run, d: Divergence) -> bool {
    let s = serial.trace@;
    let p = parallel.trace@;
    match d {
        Divergence::DifferentTransactions { serial: a, parallel: b } => {
            &&& !same_transactions(serial, parallel)
            &&& a@ == in_key_order(crate::schedule::order_of(serial))
            &&& b@ == in_key_order(crate::schedule::order_of(parallel))
        },
        Divergence::ContentHistory { backing, serial: a, parallel: b } => {
            &&& same_transactions(serial, parallel)
            &&& first_content(s, p, backing)
            &&& a@ == history(s, backing)
            &&& b@ == history(p, backing)
        },
        Divergence::StampOutcome { slot, serial: a, parallel: b } => {
            &&& same_transactions(serial, parallel)
            &&& same_content(s, p)
            &&& first_stamp(s, p, slot)
            &&& a == stamp_rest(s, slot)
            &&& b == stamp_rest(p, slot)
        },
        Divergence::EventOutcome { event, serial: a, parallel: b } => {
            &&& same_transactions(serial, parallel)
            &&& same_content(s, p)
            &&& same_stamps(s, p)
            &&& first_event(s, p, event)
            &&& a == event_rest(s, event)
            &&& b == event_rest(p, event)
        },
        Divergence::FenceUpdates { fence, serial: a, parallel: b } => {
            &&& same_transactions(serial, parallel)
            &&& same_content(s, p)
            &&& same_stamps(s, p)
            &&& same_events(s, p)
            &&& first_fence(s, p, fence)
            &&& a == fence_count(s, fence)
            &&& b == fence_count(p, fence)
        },
        Divergence::Refusals { serial: a, parallel: b } => {
            &&& same_transactions(serial, parallel)
            &&& same_content(s, p)
            &&& same_stamps(s, p)
            &&& same_events(s, p)
            &&& same_fences(s, p)
            &&& !same_refusals(s, p)
            &&& a@ == in_key_order(refusals_in(s))
            &&& b@ == in_key_order(refusals_in(p))
        },
        Divergence::PublicationOrder { domain, serial: a, parallel: b } => {
            &&& same_transactions(serial, parallel)
            &&& same_content(s, p)
            &&& same_stamps(s, p)
            &&& same_events(s, p)
            &&& same_fences(s, p)
            &&& same_refusals(s, p)
            &&& first_domain(serial.releases@, parallel.releases@, domain)
            &&& a@ == crate::schedule::released_on(serial.releases@, domain)
            &&& b@ == crate::schedule::released_on(parallel.releases@, domain)
        },
        Divergence::NonMonotonePublication { at } => {
            &&& outcomes_agree(serial, parallel)
            &&& goes_back(p, at as int)
            &&& forall|k: int| #[trigger] goes_back(p, k) ==> at <= k
        },
        Divergence::SplitPublication { ordinal } => {
            &&& outcomes_agree(serial, parallel)
            &&& is_monotone(p)
            &&& exists|k: int|
                #[trigger] splits(windows(parallel), k) && sound_before(parallel, k)
                    && windows(parallel)[k].ordinal == ordinal
        },
        Divergence::StampBeforeVersions { ordinal } => {
            &&& outcomes_agree(serial, parallel)
            &&& is_monotone(p)
            &&& exists|k: int|
                !(#[trigger] splits(windows(parallel), k)) && leads(p, windows(parallel), k)
                    && sound_before(parallel, k) && windows(parallel)[k].ordinal == ordinal
        },
    }
}

/// Everything that is compared between the two runs agrees.
pub open spec fn outcomes_agree(serial: Run, parallel: Run) -> bool {
    &&& same_transactions(serial, parallel)
    &&& same_content(serial.trace@, parallel.trace@)
    &&& same_stamps(serial.trace@, parallel.trace@)
    &&& same_events(serial.trace@, parallel.trace@)
    &&& same_fences(serial.trace@, parallel.trace@)
    &&& same_refusals(serial.trace@, parallel.trace@)
    &&& same_publications(serial.releases@, parallel.releases@)
}

/// Every completion before `k` is contiguous, versions first.
pub open spec fn sound_before(run: Run, k: int) -> bool {
    forall|j: int|
        j < k ==> !(#[trigger] splits(windows(run), j)) && !leads(run.trace@, windows(run), j)
}

/// Whether a parallel run means the same thing the serial one did.
///
/// The difference returned is the first in a fixed order.
pub fn equivalent(serial: &Run, parallel: &Run) -> (r: Result<(), Divergence>)
    requires
        spans_inside(*parallel),
    ensures
        match r {
            Ok(()) => agree(*serial, *parallel),
            Err(d) => differ_by(*serial, *parallel, d),
        },
{
    let mine = sorted(&serial.order());
    let theirs = sorted(&parallel.order());
    if !same_ordinals(&mine, &theirs) {
        return Err(Divergence::DifferentTransactions { serial: mine, parallel: theirs });
    }
    match content_difference(&serial.trace, &parallel.trace) {
        Some(backing) => {
            return Err(
                Divergence::ContentHistory {
                    backing,
                    serial: versions_of(&serial.trace, backing),
                    parallel: versions_of(&parallel.trace, backing),
                },
            );
        },
        None => {},
    }
    match stamp_difference(&serial.trace, &parallel.trace) {
        Some(slot) => {
            return Err(
                Divergence::StampOutcome {
                    slot,
                    serial: stamp_of(&serial.trace, slot),
                    parallel: stamp_of(&parallel.trace, slot),
                },
            );
        },
        None => {},
    }
    match event_difference(&serial.trace, &parallel.trace) {
        Some(event) => {
            return Err(
                Divergence::EventOutcome {
                    event,
                    serial: event_of(&serial.trace, event),
                    parallel: event_of(&parallel.trace, event),
                },
            );
        },
        None => {},
    }
    match fence_difference(&serial.trace, &parallel.trace) {
        Some(fence) => {
            return Err(
                Divergence::FenceUpdates {
                    fence,
                    serial: fence_of(&serial.trace, fence),
                    parallel: fence_of(&parallel.trace, fence),
                },
            );
        },
        None => {},
    }
    let refused_left = sorted(&refusals_of(&serial.trace));
    let refused_right = sorted(&refusals_of(&parallel.trace));
    if !same_refused(&refused_left, &refused_right) {
        return Err(Divergence::Refusals { serial: refused_left, parallel: refused_right });
    }
    match publication_difference(serial, parallel) {
        Some(domain) => {
            return Err(
                Divergence::PublicationOrder {
                    domain,
                    serial: serial.published_by(domain),
                    parallel: parallel.published_by(domain),
                },
            );
        },
        None => {},
    }
    match monotone(&parallel.trace) {
        Some(at) => {
            return Err(Divergence::NonMonotonePublication { at });
        },
        None => {},
    }
    atomic_publication(serial, parallel)
}

fn same_ordinals(a: &Vec<IngressOrdinal>, b: &Vec<IngressOrdinal>) -> (same: bool)
    ensures
        same == (a@ == b@),
{
    if a.len() != b.len() {
        return false;
    }
    let mut i: usize = 0;
    while i < a.len()
        invariant
            a@.len() == b@.len(),
            i <= a@.len(),
            forall|k: int| 0 <= k < i ==> a@[k] == b@[k],
        decreases a.len() - i,
    {
        if a[i] != b[i] {
            return false;
        }
        i += 1;
    }
    assert(a@ =~= b@);
    true
}

fn same_versions(a: &Vec<ContentVersion>, b: &Vec<ContentVersion>) -> (same: bool)
    ensures
        same == (a@ == b@),
{
    if a.len() != b.len() {
        return false;
    }
    let mut i: usize = 0;
    while i < a.len()
        invariant
            a@.len() == b@.len(),
            i <= a@.len(),
            forall|k: int| 0 <= k < i ==> a@[k] == b@[k],
        decreases a.len() - i,
    {
        if a[i] != b[i] {
            return false;
        }
        i += 1;
    }
    assert(a@ =~= b@);
    true
}

fn same_refused(
    a: &Vec<(IngressOrdinal, Refusal)>,
    b: &Vec<(IngressOrdinal, Refusal)>,
) -> (same: bool)
    ensures
        same == (a@ == b@),
{
    if a.len() != b.len() {
        return false;
    }
    let mut i: usize = 0;
    while i < a.len()
        invariant
            a@.len() == b@.len(),
            i <= a@.len(),
            forall|k: int| 0 <= k < i ==> a@[k] == b@[k],
        decreases a.len() - i,
    {
        if a[i].0 != b[i].0 || a[i].1 != b[i].1 {
            return false;
        }
        i += 1;
    }
    assert(a@ =~= b@);
    true
}

fn same_releases(a: &Vec<ChannelRelease>, b: &Vec<ChannelRelease>) -> (same: bool)
    ensures
        same == (a@ == b@),
{
    if a.len() != b.len() {
        return false;
    }
    let mut i: usize = 0;
    while i < a.len()
        invariant
            a@.len() == b@.len(),
            i <= a@.len(),
            forall|k: int| 0 <= k < i ==> a@[k] == b@[k],
        decreases a.len() - i,
    {
        if a[i] != b[i] {
            return false;
        }
        i += 1;
    }
    assert(a@ =~= b@);
    true
}

fn versions_of(trace: &Vec<Observation>, backing: BackingId) -> (out: Vec<ContentVersion>)
    ensures
        out@ == history(trace@, backing),
{
    let mut out: Vec<ContentVersion> = Vec::new();
    let mut i: usize = 0;
    while i < trace.len()
        invariant
            i <= trace@.len(),
            out@ == history(trace@.take(i as int), backing),
        decreases trace.len() - i,
    {
        proof {
            lemma_step(trace@, i as int);
        }
        if let Observation::VersionPublished { backing: b, version } = trace[i] {
            if b == backing {
                out.push(version);
            }
        }
        i += 1;
    }
    assert(trace@.take(i as int) =~= trace@);
    out
}

fn stamp_of(trace: &Vec<Observation>, slot: StampSlot) -> (rest: Option<StampValue>)
    ensures
        rest == stamp_rest(trace@, slot),
{
    let mut rest: Option<StampValue> = None;
    let mut i: usize = 0;
    while i < trace.len()
        invariant
            i <= trace@.len(),
            rest == stamp_rest(trace@.take(i as int), slot),
        decreases trace.len() - i,
    {
        proof {
            lemma_step(trace@, i as int);
        }
        if let Observation::StampPublished { slot: s, value } = trace[i] {
            if s == slot {
                rest = match rest {
                    Some(at) => Some(at.later(value)),
                    None => Some(value),
                };
            }
        }
        i += 1;
    }
    assert(trace@.take(i as int) =~= trace@);
    rest
}

fn event_of(trace: &Vec<Observation>, event: ResourceId) -> (rest: u64)
    ensures
        rest == event_rest(trace@, event),
{
    let mut rest: u64 = 0;
    let mut i: usize = 0;
    while i < trace.len()
        invariant
            i <= trace@.len(),
            rest == event_rest(trace@.take(i as int), event),
        decreases trace.len() - i,
    {
        proof {
            lemma_step(trace@, i as int);
        }
        if let Observation::EventAdvanced { event: e, to } = trace[i] {
            if e == event && to > rest {
                rest = to;
            }
        }
        i += 1;
    }
    assert(trace@.take(i as int) =~= trace@);
    rest
}

fn fence_of(trace: &Vec<Observation>, fence: ResourceId) -> (count: usize)
    ensures
        count == fence_count(trace@, fence),
{
    let mut count: usize = 0;
    let mut i: usize = 0;
    while i < trace.len()
        invariant
            i <= trace@.len(),
            count <= i,
            count == fence_count(trace@.take(i as int), fence),
        decreases trace.len() - i,
    {
        proof {
            lemma_step(trace@, i as int);
        }
        if let Observation::FenceUpdated { fence: f } = trace[i] {
            if f == fence {
                count += 1;
            }
        }
        i += 1;
    }
    assert(trace@.take(i as int) =~= trace@);
    count
}

fn refusals_of(trace: &Vec<Observation>) -> (out: Vec<(IngressOrdinal, Refusal)>)
    ensures
        out@ == refusals_in(trace@),
{
    let mut out: Vec<(IngressOrdinal, Refusal)> = Vec::new();
    let mut i: usize = 0;
    while i < trace.len()
        invariant
            i <= trace@.len(),
            out@ == refusals_in(trace@.take(i as int)),
        decreases trace.len() - i,
    {
        proof {
            lemma_step(trace@, i as int);
        }
        if let Observation::Refused { ingress, reason } = trace[i] {
            out.push((ingress, reason));
        }
        i += 1;
    }
    assert(trace@.take(i as int) =~= trace@);
    out
}

/// A trace with one more observation.
proof fn lemma_step(trace: Seq<Observation>, i: int)
    requires
        0 <= i < trace.len(),
    ensures
        trace.take(i + 1).drop_last() == trace.take(i),
        trace.take(i + 1).last() == trace[i],
{
    assert(trace.take(i + 1).drop_last() =~= trace.take(i));
}

/// A backing the trace does not show has no history.
proof fn lemma_unshown_backing(trace: Seq<Observation>, backing: BackingId)
    requires
        !shows_backing(trace, backing),
    ensures
        history(trace, backing).len() == 0,
    decreases trace.len(),
{
    if trace.len() > 0 {
        let init = trace.drop_last();
        assert(!shows_backing(init, backing)) by {
            if shows_backing(init, backing) {
                let i = choose|i: int|
                    0 <= i < init.len() && (#[trigger] init[i]) is VersionPublished
                        && init[i]->VersionPublished_backing == backing;
                assert(trace[i] == init[i]);
            }
        }
        lemma_unshown_backing(init, backing);
        assert(trace[trace.len() - 1] == trace.last());
    }
}

proof fn lemma_unshown_stamp(trace: Seq<Observation>, slot: StampSlot)
    requires
        !shows_stamp(trace, slot),
    ensures
        stamp_rest(trace, slot) is None,
    decreases trace.len(),
{
    if trace.len() > 0 {
        let init = trace.drop_last();
        assert(!shows_stamp(init, slot)) by {
            if shows_stamp(init, slot) {
                let i = choose|i: int|
                    0 <= i < init.len() && (#[trigger] init[i]) is StampPublished
                        && init[i]->StampPublished_slot == slot;
                assert(trace[i] == init[i]);
            }
        }
        lemma_unshown_stamp(init, slot);
        assert(trace[trace.len() - 1] == trace.last());
    }
}

proof fn lemma_unshown_event(trace: Seq<Observation>, event: ResourceId)
    requires
        !shows_event(trace, event),
    ensures
        event_rest(trace, event) == 0,
    decreases trace.len(),
{
    if trace.len() > 0 {
        let init = trace.drop_last();
        assert(!shows_event(init, event)) by {
            if shows_event(init, event) {
                let i = choose|i: int|
                    0 <= i < init.len() && (#[trigger] init[i]) is EventAdvanced
                        && init[i]->EventAdvanced_event == event;
                assert(trace[i] == init[i]);
            }
        }
        lemma_unshown_event(init, event);
        assert(trace[trace.len() - 1] == trace.last());
    }
}

proof fn lemma_unshown_fence(trace: Seq<Observation>, fence: ResourceId)
    requires
        !shows_fence(trace, fence),
    ensures
        fence_count(trace, fence) == 0,
    decreases trace.len(),
{
    if trace.len() > 0 {
        let init = trace.drop_last();
        assert(!shows_fence(init, fence)) by {
            if shows_fence(init, fence) {
                let i = choose|i: int|
                    0 <= i < init.len() && (#[trigger] init[i]) is FenceUpdated
                        && init[i]->FenceUpdated_fence == fence;
                assert(trace[i] == init[i]);
            }
        }
        lemma_unshown_fence(init, fence);
        assert(trace[trace.len() - 1] == trace.last());
    }
}

proof fn lemma_unreleased(releases: Seq<ChannelRelease>, domain: ChannelId)
    requires
        !crate::schedule::released_any(releases, domain),
    ensures
        crate::schedule::released_on(releases, domain) == Seq::<ChannelRelease>::empty(),
    decreases releases.len(),
{
    reveal(Seq::filter);
    if releases.len() > 0 {
        let init = releases.drop_last();
        assert(!crate::schedule::released_any(init, domain)) by {
            if crate::schedule::released_any(init, domain) {
                let i = choose|i: int|
                    0 <= i < init.len() && (#[trigger] init[i]).domain == domain;
                assert(releases[i].domain == domain);
            }
        }
        lemma_unreleased(init, domain);
        assert(releases[releases.len() - 1].domain != domain);
    }
    assert(crate::schedule::released_on(releases, domain) =~= Seq::<ChannelRelease>::empty());
}

/// The first backing, in the order the runs are compared, whose histories
/// differ.
fn content_difference(s: &Vec<Observation>, p: &Vec<Observation>) -> (found: Option<BackingId>)
    ensures
        match found {
            Some(backing) => first_content(s@, p@, backing),
            None => same_content(s@, p@),
        },
{
    let mut found: Option<BackingId> = None;
    let mut i: usize = 0;
    while i < s.len()
        invariant
            i <= s@.len(),
            match found {
                Some(backing) => {
                    &&& shows_backing(s@, backing)
                    &&& history(s@, backing) != history(p@, backing)
                    &&& forall|k: int|
                        0 <= k < i && (#[trigger] s@[k]) is VersionPublished && history(
                            s@,
                            s@[k]->VersionPublished_backing,
                        ) != history(p@, s@[k]->VersionPublished_backing) ==> backing.0
                            <= s@[k]->VersionPublished_backing.0
                },
                None => forall|k: int|
                    0 <= k < i && (#[trigger] s@[k]) is VersionPublished ==> history(
                        s@,
                        s@[k]->VersionPublished_backing,
                    ) == history(p@, s@[k]->VersionPublished_backing),
            },
        decreases s.len() - i,
    {
        if let Observation::VersionPublished { backing, .. } = s[i] {
            let lower = match found {
                Some(held) => backing.0 < held.0,
                None => true,
            };
            assert(s@[i as int] is VersionPublished);
            if lower && !same_versions(&versions_of(s, backing), &versions_of(p, backing)) {
                found = Some(backing);
            }
        }
        i += 1;
    }
    if found.is_some() {
        proof {
            let backing = found->0;
            assert forall|b: BackingId| #[trigger] history(s@, b) != history(p@, b)
                && shows_backing(s@, b) implies backing.0 <= b.0 by {
                let k = choose|k: int|
                    0 <= k < s@.len() && (#[trigger] s@[k]) is VersionPublished
                        && s@[k]->VersionPublished_backing == b;
                assert(s@[k] is VersionPublished);
            }
        }
        return found;
    }
    proof {
        assert forall|b: BackingId| shows_backing(s@, b) implies #[trigger] history(s@, b)
            == history(p@, b) by {
            let k = choose|k: int|
                0 <= k < s@.len() && (#[trigger] s@[k]) is VersionPublished
                    && s@[k]->VersionPublished_backing == b;
            assert(s@[k] is VersionPublished);
        }
    }
    let mut i: usize = 0;
    while i < p.len()
        invariant
            i <= p@.len(),
            forall|b: BackingId|
                shows_backing(s@, b) ==> #[trigger] history(s@, b) == history(p@, b),
            match found {
                Some(backing) => {
                    &&& history(s@, backing) != history(p@, backing)
                    &&& forall|k: int|
                        0 <= k < i && (#[trigger] p@[k]) is VersionPublished && history(
                            s@,
                            p@[k]->VersionPublished_backing,
                        ) != history(p@, p@[k]->VersionPublished_backing) ==> backing.0
                            <= p@[k]->VersionPublished_backing.0
                },
                None => forall|k: int|
                    0 <= k < i && (#[trigger] p@[k]) is VersionPublished ==> history(
                        s@,
                        p@[k]->VersionPublished_backing,
                    ) == history(p@, p@[k]->VersionPublished_backing),
            },
        decreases p.len() - i,
    {
        if let Observation::VersionPublished { backing, .. } = p[i] {
            let lower = match found {
                Some(held) => backing.0 < held.0,
                None => true,
            };
            assert(p@[i as int] is VersionPublished);
            if lower && !same_versions(&versions_of(s, backing), &versions_of(p, backing)) {
                found = Some(backing);
            }
        }
        i += 1;
    }
    proof {
        assert forall|b: BackingId| #[trigger] history(s@, b) != history(
            p@,
            b,
        ) implies !shows_backing(s@, b) && shows_backing(p@, b) by {
            if !shows_backing(p@, b) {
                lemma_unshown_backing(p@, b);
                lemma_unshown_backing(s@, b);
                assert(history(s@, b) =~= history(p@, b));
            }
        }
        assert forall|b: BackingId| #[trigger] history(s@, b) != history(
            p@,
            b,
        ) implies found is Some && (found->0).0 <= b.0 by {
            let k = choose|k: int|
                0 <= k < p@.len() && (#[trigger] p@[k]) is VersionPublished
                    && p@[k]->VersionPublished_backing == b;
            assert(p@[k] is VersionPublished);
        }
    }
    found
}

/// The first slot, in the order the runs are compared, that came to rest
/// elsewhere.
fn stamp_difference(s: &Vec<Observation>, p: &Vec<Observation>) -> (found: Option<StampSlot>)
    ensures
        match found {
            Some(slot) => first_stamp(s@, p@, slot),
            None => same_stamps(s@, p@),
        },
{
    let mut found: Option<StampSlot> = None;
    let mut i: usize = 0;
    while i < s.len()
        invariant
            i <= s@.len(),
            match found {
                Some(slot) => {
                    &&& shows_stamp(s@, slot)
                    &&& stamp_rest(s@, slot) != stamp_rest(p@, slot)
                    &&& forall|k: int|
                        0 <= k < i && (#[trigger] s@[k]) is StampPublished && stamp_rest(
                            s@,
                            s@[k]->StampPublished_slot,
                        ) != stamp_rest(p@, s@[k]->StampPublished_slot) ==> slot.0
                            <= s@[k]->StampPublished_slot.0
                },
                None => forall|k: int|
                    0 <= k < i && (#[trigger] s@[k]) is StampPublished ==> stamp_rest(
                        s@,
                        s@[k]->StampPublished_slot,
                    ) == stamp_rest(p@, s@[k]->StampPublished_slot),
            },
        decreases s.len() - i,
    {
        if let Observation::StampPublished { slot, .. } = s[i] {
            let lower = match found {
                Some(held) => slot.0 < held.0,
                None => true,
            };
            assert(s@[i as int] is StampPublished);
            if lower && stamp_of(s, slot) != stamp_of(p, slot) {
                found = Some(slot);
            }
        }
        i += 1;
    }
    if found.is_some() {
        proof {
            let slot = found->0;
            assert forall|t: StampSlot| #[trigger] stamp_rest(s@, t) != stamp_rest(p@, t)
                && shows_stamp(s@, t) implies slot.0 <= t.0 by {
                let k = choose|k: int|
                    0 <= k < s@.len() && (#[trigger] s@[k]) is StampPublished
                        && s@[k]->StampPublished_slot == t;
                assert(s@[k] is StampPublished);
            }
        }
        return found;
    }
    proof {
        assert forall|t: StampSlot| shows_stamp(s@, t) implies #[trigger] stamp_rest(s@, t)
            == stamp_rest(p@, t) by {
            let k = choose|k: int|
                0 <= k < s@.len() && (#[trigger] s@[k]) is StampPublished
                    && s@[k]->StampPublished_slot == t;
            assert(s@[k] is StampPublished);
        }
    }
    let mut i: usize = 0;
    while i < p.len()
        invariant
            i <= p@.len(),
            forall|t: StampSlot|
                shows_stamp(s@, t) ==> #[trigger] stamp_rest(s@, t) == stamp_rest(p@, t),
            match found {
                Some(slot) => {
                    &&& stamp_rest(s@, slot) != stamp_rest(p@, slot)
                    &&& forall|k: int|
                        0 <= k < i && (#[trigger] p@[k]) is StampPublished && stamp_rest(
                            s@,
                            p@[k]->StampPublished_slot,
                        ) != stamp_rest(p@, p@[k]->StampPublished_slot) ==> slot.0
                            <= p@[k]->StampPublished_slot.0
                },
                None => forall|k: int|
                    0 <= k < i && (#[trigger] p@[k]) is StampPublished ==> stamp_rest(
                        s@,
                        p@[k]->StampPublished_slot,
                    ) == stamp_rest(p@, p@[k]->StampPublished_slot),
            },
        decreases p.len() - i,
    {
        if let Observation::StampPublished { slot, .. } = p[i] {
            let lower = match found {
                Some(held) => slot.0 < held.0,
                None => true,
            };
            assert(p@[i as int] is StampPublished);
            if lower && stamp_of(s, slot) != stamp_of(p, slot) {
                found = Some(slot);
            }
        }
        i += 1;
    }
    proof {
        assert forall|t: StampSlot| #[trigger] stamp_rest(s@, t) != stamp_rest(
            p@,
            t,
        ) implies !shows_stamp(s@, t) && shows_stamp(p@, t) by {
            if !shows_stamp(p@, t) {
                lemma_unshown_stamp(p@, t);
                lemma_unshown_stamp(s@, t);
            }
        }
        assert forall|t: StampSlot| #[trigger] stamp_rest(s@, t) != stamp_rest(
            p@,
            t,
        ) implies found is Some && (found->0).0 <= t.0 by {
            let k = choose|k: int|
                0 <= k < p@.len() && (#[trigger] p@[k]) is StampPublished
                    && p@[k]->StampPublished_slot == t;
            assert(p@[k] is StampPublished);
        }
    }
    found
}

fn is_below(a: ResourceId, b: ResourceId) -> (lower: bool)
    ensures
        lower == below(a, b),
{
    a.slot.0 < b.slot.0 || (a.slot.0 == b.slot.0 && a.generation.0 < b.generation.0)
}

/// The first event, in the order the runs are compared, that came to rest
/// elsewhere.
fn event_difference(s: &Vec<Observation>, p: &Vec<Observation>) -> (found: Option<ResourceId>)
    ensures
        match found {
            Some(event) => first_event(s@, p@, event),
            None => same_events(s@, p@),
        },
{
    let mut found: Option<ResourceId> = None;
    let mut i: usize = 0;
    while i < s.len()
        invariant
            i <= s@.len(),
            match found {
                Some(event) => {
                    &&& shows_event(s@, event)
                    &&& event_rest(s@, event) != event_rest(p@, event)
                    &&& forall|k: int|
                        0 <= k < i && (#[trigger] s@[k]) is EventAdvanced && event_rest(
                            s@,
                            s@[k]->EventAdvanced_event,
                        ) != event_rest(p@, s@[k]->EventAdvanced_event) ==> !below(
                            s@[k]->EventAdvanced_event,
                            event,
                        )
                },
                None => forall|k: int|
                    0 <= k < i && (#[trigger] s@[k]) is EventAdvanced ==> event_rest(
                        s@,
                        s@[k]->EventAdvanced_event,
                    ) == event_rest(p@, s@[k]->EventAdvanced_event),
            },
        decreases s.len() - i,
    {
        if let Observation::EventAdvanced { event, .. } = s[i] {
            let lower = match found {
                Some(held) => is_below(event, held),
                None => true,
            };
            assert(s@[i as int] is EventAdvanced);
            if lower && event_of(s, event) != event_of(p, event) {
                found = Some(event);
            }
        }
        i += 1;
    }
    if found.is_some() {
        proof {
            let event = found->0;
            assert forall|e: ResourceId| #[trigger] event_rest(s@, e) != event_rest(p@, e)
                && shows_event(s@, e) implies !below(e, event) by {
                let k = choose|k: int|
                    0 <= k < s@.len() && (#[trigger] s@[k]) is EventAdvanced
                        && s@[k]->EventAdvanced_event == e;
                assert(s@[k] is EventAdvanced);
            }
        }
        return found;
    }
    proof {
        assert forall|e: ResourceId| shows_event(s@, e) implies #[trigger] event_rest(s@, e)
            == event_rest(p@, e) by {
            let k = choose|k: int|
                0 <= k < s@.len() && (#[trigger] s@[k]) is EventAdvanced
                    && s@[k]->EventAdvanced_event == e;
            assert(s@[k] is EventAdvanced);
        }
    }
    let mut i: usize = 0;
    while i < p.len()
        invariant
            i <= p@.len(),
            forall|e: ResourceId|
                shows_event(s@, e) ==> #[trigger] event_rest(s@, e) == event_rest(p@, e),
            match found {
                Some(event) => {
                    &&& event_rest(s@, event) != event_rest(p@, event)
                    &&& forall|k: int|
                        0 <= k < i && (#[trigger] p@[k]) is EventAdvanced && event_rest(
                            s@,
                            p@[k]->EventAdvanced_event,
                        ) != event_rest(p@, p@[k]->EventAdvanced_event) ==> !below(
                            p@[k]->EventAdvanced_event,
                            event,
                        )
                },
                None => forall|k: int|
                    0 <= k < i && (#[trigger] p@[k]) is EventAdvanced ==> event_rest(
                        s@,
                        p@[k]->EventAdvanced_event,
                    ) == event_rest(p@, p@[k]->EventAdvanced_event),
            },
        decreases p.len() - i,
    {
        if let Observation::EventAdvanced { event, .. } = p[i] {
            let lower = match found {
                Some(held) => is_below(event, held),
                None => true,
            };
            assert(p@[i as int] is EventAdvanced);
            if lower && event_of(s, event) != event_of(p, event) {
                found = Some(event);
            }
        }
        i += 1;
    }
    proof {
        assert forall|e: ResourceId| #[trigger] event_rest(s@, e) != event_rest(
            p@,
            e,
        ) implies !shows_event(s@, e) && shows_event(p@, e) by {
            if !shows_event(p@, e) {
                lemma_unshown_event(p@, e);
                lemma_unshown_event(s@, e);
            }
        }
        assert forall|e: ResourceId| #[trigger] event_rest(s@, e) != event_rest(
            p@,
            e,
        ) implies found is Some && !below(e, found->0) by {
            let k = choose|k: int|
                0 <= k < p@.len() && (#[trigger] p@[k]) is EventAdvanced
                    && p@[k]->EventAdvanced_event == e;
            assert(p@[k] is EventAdvanced);
        }
    }
    found
}

/// The first fence, in the order the runs are compared, that was updated
/// another number of times.
fn fence_difference(s: &Vec<Observation>, p: &Vec<Observation>) -> (found: Option<ResourceId>)
    ensures
        match found {
            Some(fence) => first_fence(s@, p@, fence),
            None => same_fences(s@, p@),
        },
{
    let mut found: Option<ResourceId> = None;
    let mut i: usize = 0;
    while i < s.len()
        invariant
            i <= s@.len(),
            match found {
                Some(fence) => {
                    &&& shows_fence(s@, fence)
                    &&& fence_count(s@, fence) != fence_count(p@, fence)
                    &&& forall|k: int|
                        0 <= k < i && (#[trigger] s@[k]) is FenceUpdated && fence_count(
                            s@,
                            s@[k]->FenceUpdated_fence,
                        ) != fence_count(p@, s@[k]->FenceUpdated_fence) ==> !below(
                            s@[k]->FenceUpdated_fence,
                            fence,
                        )
                },
                None => forall|k: int|
                    0 <= k < i && (#[trigger] s@[k]) is FenceUpdated ==> fence_count(
                        s@,
                        s@[k]->FenceUpdated_fence,
                    ) == fence_count(p@, s@[k]->FenceUpdated_fence),
            },
        decreases s.len() - i,
    {
        if let Observation::FenceUpdated { fence } = s[i] {
            let lower = match found {
                Some(held) => is_below(fence, held),
                None => true,
            };
            assert(s@[i as int] is FenceUpdated);
            if lower && fence_of(s, fence) != fence_of(p, fence) {
                found = Some(fence);
            }
        }
        i += 1;
    }
    if found.is_some() {
        proof {
            let fence = found->0;
            assert forall|f: ResourceId| #[trigger] fence_count(s@, f) != fence_count(p@, f)
                && shows_fence(s@, f) implies !below(f, fence) by {
                let k = choose|k: int|
                    0 <= k < s@.len() && (#[trigger] s@[k]) is FenceUpdated
                        && s@[k]->FenceUpdated_fence == f;
                assert(s@[k] is FenceUpdated);
            }
        }
        return found;
    }
    proof {
        assert forall|f: ResourceId| shows_fence(s@, f) implies #[trigger] fence_count(s@, f)
            == fence_count(p@, f) by {
            let k = choose|k: int|
                0 <= k < s@.len() && (#[trigger] s@[k]) is FenceUpdated
                    && s@[k]->FenceUpdated_fence == f;
            assert(s@[k] is FenceUpdated);
        }
    }
    let mut i: usize = 0;
    while i < p.len()
        invariant
            i <= p@.len(),
            forall|f: ResourceId|
                shows_fence(s@, f) ==> #[trigger] fence_count(s@, f) == fence_count(p@, f),
            match found {
                Some(fence) => {
                    &&& fence_count(s@, fence) != fence_count(p@, fence)
                    &&& forall|k: int|
                        0 <= k < i && (#[trigger] p@[k]) is FenceUpdated && fence_count(
                            s@,
                            p@[k]->FenceUpdated_fence,
                        ) != fence_count(p@, p@[k]->FenceUpdated_fence) ==> !below(
                            p@[k]->FenceUpdated_fence,
                            fence,
                        )
                },
                None => forall|k: int|
                    0 <= k < i && (#[trigger] p@[k]) is FenceUpdated ==> fence_count(
                        s@,
                        p@[k]->FenceUpdated_fence,
                    ) == fence_count(p@, p@[k]->FenceUpdated_fence),
            },
        decreases p.len() - i,
    {
        if let Observation::FenceUpdated { fence } = p[i] {
            let lower = match found {
                Some(held) => is_below(fence, held),
                None => true,
            };
            assert(p@[i as int] is FenceUpdated);
            if lower && fence_of(s, fence) != fence_of(p, fence) {
                found = Some(fence);
            }
        }
        i += 1;
    }
    proof {
        assert forall|f: ResourceId| #[trigger] fence_count(s@, f) != fence_count(
            p@,
            f,
        ) implies !shows_fence(s@, f) && shows_fence(p@, f) by {
            if !shows_fence(p@, f) {
                lemma_unshown_fence(p@, f);
                lemma_unshown_fence(s@, f);
            }
        }
        assert forall|f: ResourceId| #[trigger] fence_count(s@, f) != fence_count(
            p@,
            f,
        ) implies found is Some && !below(f, found->0) by {
            let k = choose|k: int|
                0 <= k < p@.len() && (#[trigger] p@[k]) is FenceUpdated
                    && p@[k]->FenceUpdated_fence == f;
            assert(p@[k] is FenceUpdated);
        }
    }
    found
}

/// The first channel, in the order the runs are compared, that told the guest
/// something else.
fn publication_difference(s: &Run, p: &Run) -> (found: Option<ChannelId>)
    ensures
        match found {
            Some(domain) => first_domain(s.releases@, p.releases@, domain),
            None => same_publications(s.releases@, p.releases@),
        },
{
    let mine = s.domains();
    let mut i: usize = 0;
    while i < mine.len()
        invariant
            i <= mine@.len(),
            forall|a: int, b: int|
                0 <= a < b < mine@.len() ==> (#[trigger] mine@[a]).0 < (#[trigger] mine@[b]).0,
            forall|d: ChannelId| #[trigger]
                mine@.contains(d) == crate::schedule::released_any(s.releases@, d),
            forall|k: int|
                0 <= k < i ==> crate::schedule::released_on(s.releases@, #[trigger] mine@[k])
                    == crate::schedule::released_on(p.releases@, mine@[k]),
        decreases mine.len() - i,
    {
        let domain = mine[i];
        if !same_releases(&s.published_by(domain), &p.published_by(domain)) {
            proof {
                assert(mine@.contains(domain));
                assert forall|d: ChannelId| #[trigger]
                    crate::schedule::released_on(s.releases@, d) != crate::schedule::released_on(
                        p.releases@,
                        d,
                    ) && crate::schedule::released_any(s.releases@, d) implies domain.0
                    <= d.0 by {
                    assert(mine@.contains(d));
                    let k = choose|k: int| 0 <= k < mine@.len() && mine@[k] == d;
                    if k > i {
                        assert(mine@[i as int].0 < mine@[k].0);
                    }
                }
            }
            return Some(domain);
        }
        i += 1;
    }
    proof {
        assert forall|d: ChannelId| crate::schedule::released_any(s.releases@, d) implies #[trigger]
            crate::schedule::released_on(s.releases@, d) == crate::schedule::released_on(
                p.releases@,
                d,
            ) by {
            assert(mine@.contains(d));
            let k = choose|k: int| 0 <= k < mine@.len() && mine@[k] == d;
            assert(crate::schedule::released_on(s.releases@, mine@[k])
                == crate::schedule::released_on(p.releases@, mine@[k]));
        }
    }
    let theirs = p.domains();
    let mut i: usize = 0;
    while i < theirs.len()
        invariant
            i <= theirs@.len(),
            forall|d: ChannelId|
                crate::schedule::released_any(s.releases@, d) ==> #[trigger]
                crate::schedule::released_on(s.releases@, d) == crate::schedule::released_on(
                    p.releases@,
                    d,
                ),
            forall|a: int, b: int|
                0 <= a < b < theirs@.len() ==> (#[trigger] theirs@[a]).0 < (
                #[trigger] theirs@[b]).0,
            forall|d: ChannelId| #[trigger]
                theirs@.contains(d) == crate::schedule::released_any(p.releases@, d),
            forall|k: int|
                0 <= k < i ==> crate::schedule::released_on(s.releases@, #[trigger] theirs@[k])
                    == crate::schedule::released_on(p.releases@, theirs@[k]),
        decreases theirs.len() - i,
    {
        let domain = theirs[i];
        if !same_releases(&s.published_by(domain), &p.published_by(domain)) {
            proof {
                assert forall|d: ChannelId| #[trigger]
                    crate::schedule::released_on(s.releases@, d) != crate::schedule::released_on(
                        p.releases@,
                        d,
                    ) implies !crate::schedule::released_any(s.releases@, d) && domain.0
                    <= d.0 by {
                    if !theirs@.contains(d) {
                        lemma_unreleased(s.releases@, d);
                        lemma_unreleased(p.releases@, d);
                    }
                    let k = choose|k: int| 0 <= k < theirs@.len() && theirs@[k] == d;
                    if k > i {
                        assert(theirs@[i as int].0 < theirs@[k].0);
                    }
                }
            }
            return Some(domain);
        }
        i += 1;
    }
    proof {
        assert forall|d: ChannelId| #[trigger]
            crate::schedule::released_on(s.releases@, d) == crate::schedule::released_on(
                p.releases@,
                d,
            ) by {
            if theirs@.contains(d) {
                let k = choose|k: int| 0 <= k < theirs@.len() && theirs@[k] == d;
                assert(crate::schedule::released_on(s.releases@, theirs@[k])
                    == crate::schedule::released_on(p.releases@, theirs@[k]));
            } else if !crate::schedule::released_any(s.releases@, d) {
                lemma_unreleased(s.releases@, d);
                lemma_unreleased(p.releases@, d);
            }
        }
    }
    None
}

/// The first publication that does not advance its point, if any.
fn monotone(trace: &Vec<Observation>) -> (found: Option<usize>)
    ensures
        match found {
            Some(at) => goes_back(trace@, at as int) && forall|k: int| #[trigger]
                goes_back(trace@, k) ==> at <= k,
            None => is_monotone(trace@),
        },
{
    let mut i: usize = 0;
    while i < trace.len()
        invariant
            i <= trace@.len(),
            forall|k: int| k < i ==> !#[trigger] goes_back(trace@, k),
        decreases trace.len() - i,
    {
        let back = match trace[i] {
            Observation::StampPublished { slot, value } => match stamp_before(trace, i, slot) {
                Some(at) => !value.follows(at),
                None => false,
            },
            Observation::EventAdvanced { event, to } => match event_before(trace, i, event) {
                Some(at) => to <= at,
                None => false,
            },
            _ => false,
        };
        if back {
            assert(goes_back(trace@, i as int));
            return Some(i);
        }
        assert(!goes_back(trace@, i as int));
        i += 1;
    }
    None
}

fn stamp_before(trace: &Vec<Observation>, n: usize, slot: StampSlot) -> (at: Option<StampValue>)
    requires
        n <= trace@.len(),
    ensures
        at == last_stamp(trace@.take(n as int), slot),
{
    let mut at: Option<StampValue> = None;
    let mut i: usize = 0;
    while i < n
        invariant
            i <= n <= trace@.len(),
            at == last_stamp(trace@.take(i as int), slot),
        decreases n - i,
    {
        proof {
            lemma_step(trace@, i as int);
        }
        if let Observation::StampPublished { slot: s, value } = trace[i] {
            if s == slot {
                at = Some(value);
            }
        }
        i += 1;
    }
    at
}

fn event_before(trace: &Vec<Observation>, n: usize, event: ResourceId) -> (at: Option<u64>)
    requires
        n <= trace@.len(),
    ensures
        at == last_event(trace@.take(n as int), event),
{
    let mut at: Option<u64> = None;
    let mut i: usize = 0;
    while i < n
        invariant
            i <= n <= trace@.len(),
            at == last_event(trace@.take(i as int), event),
        decreases n - i,
    {
        proof {
            lemma_step(trace@, i as int);
        }
        if let Observation::EventAdvanced { event: e, to } = trace[i] {
            if e == event {
                at = Some(to);
            }
        }
        i += 1;
    }
    at
}

/// Sorting keeps what is sorted.
pub proof fn lemma_sorted_members<T: Keyed>(items: Seq<T>)
    ensures
        in_key_order(items).len() == items.len(),
        forall|x: T| #[trigger] in_key_order(items).contains(x) == items.contains(x),
    decreases items.len(),
{
    if items.len() > 0 {
        let init = items.drop_last();
        lemma_sorted_members(init);
        let before = in_key_order(init);
        lemma_placed_members(before, items.last());
        assert forall|x: T| #[trigger] in_key_order(items).contains(x) == items.contains(x) by {
            assert(placed(before, items.last()).contains(x) == (before.contains(x) || x
                == items.last()));
            if init.contains(x) {
                let k = choose|k: int| 0 <= k < init.len() && init[k] == x;
                assert(items[k] == x);
            }
            assert(items[items.len() - 1] == items.last());
            if items.contains(x) && x != items.last() {
                let k = choose|k: int| 0 <= k < items.len() && items[k] == x;
                assert(init[k] == x);
            }
        }
    } else {
        assert(in_key_order(items) =~= items);
    }
}

pub proof fn lemma_placed_members<T: Keyed>(sorted: Seq<T>, item: T)
    ensures
        placed(sorted, item).len() == sorted.len() + 1,
        forall|x: T| #[trigger]
            placed(sorted, item).contains(x) == (sorted.contains(x) || x == item),
    decreases sorted.len(),
{
    let after = placed(sorted, item);
    if sorted.len() == 0 || sorted.last().key() <= item.key() {
        assert forall|x: T| #[trigger] after.contains(x) == (sorted.contains(x) || x == item) by {
            assert(after[sorted.len() as int] == item);
            if sorted.contains(x) {
                let k = choose|k: int| 0 <= k < sorted.len() && sorted[k] == x;
                assert(after[k] == x);
            }
            if after.contains(x) && x != item {
                let k = choose|k: int| 0 <= k < after.len() && after[k] == x;
                assert(sorted[k] == x);
            }
        }
    } else {
        let init = sorted.drop_last();
        let before = placed(init, item);
        lemma_placed_members(init, item);
        assert(after == before.push(sorted.last()));
        assert forall|x: T| #[trigger] after.contains(x) == (sorted.contains(x) || x == item) by {
            assert(before.contains(x) == (init.contains(x) || x == item));
            assert(after[before.len() as int] == sorted.last());
            assert(sorted[sorted.len() - 1] == sorted.last());
            if before.contains(x) {
                let k = choose|k: int| 0 <= k < before.len() && before[k] == x;
                assert(after[k] == x);
            }
            if init.contains(x) {
                let k = choose|k: int| 0 <= k < init.len() && init[k] == x;
                assert(sorted[k] == x);
            }
            if sorted.contains(x) && x != sorted.last() {
                let k = choose|k: int| 0 <= k < sorted.len() && sorted[k] == x;
                assert(init[k] == x);
            }
            if after.contains(x) && x != sorted.last() {
                let k = choose|k: int| 0 <= k < after.len() && after[k] == x;
                assert(before[k] == x);
            }
        }
    }
}

/// A run's observations are contiguous completion by completion, and each
/// completion's versions precede its stamps.
fn atomic_publication(serial: &Run, run: &Run) -> (r: Result<(), Divergence>)
    requires
        spans_inside(*run),
        outcomes_agree(*serial, *run),
        is_monotone(run.trace@),
    ensures
        match r {
            Ok(()) => agree(*serial, *run),
            Err(d) => differ_by(*serial, *run, d),
        },
{
    let mut all: Vec<Window> = Vec::new();
    let mut i: usize = 0;
    while i < run.spans.len()
        invariant
            i <= run.spans@.len(),
            all@ =~= all_windows(*run).take(i as int),
        decreases run.spans.len() - i,
    {
        all.push(
            Window {
                ordinal: run.spans[i].0,
                start: run.spans[i].1.start,
                end: run.spans[i].1.end,
            },
        );
        i += 1;
    }
    assert(all@ =~= all_windows(*run));
    let ws = sorted(&all);
    proof {
        lemma_sorted_members(all@);
    }
    let mut covered: usize = 0;
    let mut k: usize = 0;
    while k < ws.len()
        invariant
            spans_inside(*run),
            outcomes_agree(*serial, *run),
            is_monotone(run.trace@),
            ws@ == windows(*run),
            all@ =~= all_windows(*run),
            forall|x: Window| #[trigger] ws@.contains(x) == all@.contains(x),
            k <= ws@.len(),
            covered == (if k == 0 {
                0
            } else {
                ws@[k - 1].end
            }),
            sound_before(*run, k as int),
        decreases ws.len() - k,
    {
        let window = ws[k];
        proof {
            assert(ws@.contains(window));
            let j = choose|j: int| 0 <= j < all@.len() && all@[j] == window;
            assert(run.spans@[j].1.start <= run.spans@[j].1.end <= run.trace@.len());
        }
        if window.start != covered {
            assert(splits(windows(*run), k as int));
            return Err(Divergence::SplitPublication { ordinal: window.ordinal });
        }
        covered = window.end;
        assert(!splits(windows(*run), k as int));
        if stamp_comes_first(&run.trace, window.start, window.end) {
            assert(leads(run.trace@, windows(*run), k as int));
            return Err(Divergence::StampBeforeVersions { ordinal: window.ordinal });
        }
        proof {
            assert(!leads(run.trace@, windows(*run), k as int));
            assert forall|j: int| j < k + 1 implies !(#[trigger] splits(windows(*run), j))
                && !leads(run.trace@, windows(*run), j) by {
                if j < k {
                    assert(!splits(windows(*run), j));
                }
            }
            assert(sound_before(*run, k + 1));
        }
        k += 1;
    }
    assert(is_atomic(*run)) by {
        assert forall|j: int|
            !(#[trigger] splits(windows(*run), j)) && !leads(run.trace@, windows(*run), j) by {
            if j >= ws@.len() {
                assert(!splits(windows(*run), j));
            }
        }
    }
    Ok(())
}

fn stamp_comes_first(trace: &Vec<Observation>, start: usize, end: usize) -> (leads: bool)
    requires
        start <= end <= trace@.len(),
    ensures
        leads == stamp_leads(trace@, start as int, end as int),
{
    let mut seen: bool = false;
    let ghost mut first: int = 0;
    let mut i: usize = start;
    while i < end
        invariant
            start <= i <= end <= trace@.len(),
            seen ==> start <= first < i && trace@[first] is StampPublished,
            !seen ==> forall|k: int|
                start <= k < i ==> !((#[trigger] trace@[k]) is StampPublished),
            forall|a: int, b: int|
                start <= a < b < i && (#[trigger] trace@[a]) is StampPublished ==> !((
                #[trigger] trace@[b]) is VersionPublished),
        decreases end - i,
    {
        match trace[i] {
            Observation::StampPublished { .. } => {
                if !seen {
                    seen = true;
                    proof {
                        first = i as int;
                    }
                }
            },
            Observation::VersionPublished { .. } => {
                if seen {
                    assert(trace@[first] is StampPublished && trace@[i as int] is VersionPublished);
                    return true;
                }
            },
            _ => {},
        }
        i += 1;
    }
    false
}

/// What a trace shows is read from its first observation to its last: what two
/// traces show one after the other is what the first shows, and after it what
/// the second does.
pub proof fn a_trace_is_read_in_order(
    first: Seq<Observation>,
    second: Seq<Observation>,
    backing: BackingId,
    fence: ResourceId,
)
    ensures
        history(first + second, backing) == history(first, backing) + history(second, backing),
        refusals_in(first + second) == refusals_in(first) + refusals_in(second),
        fence_count(first + second, fence) == fence_count(first, fence) + fence_count(
            second,
            fence,
        ),
    decreases second.len(),
{
    let both = first + second;
    if second.len() == 0 {
        assert(both =~= first);
        assert(history(first, backing) + history(second, backing) =~= history(first, backing));
        assert(refusals_in(first) + refusals_in(second) =~= refusals_in(first));
    } else {
        let rest = second.drop_last();
        a_trace_is_read_in_order(first, rest, backing, fence);
        assert(both.drop_last() =~= first + rest);
        assert(both.last() == second.last());
        assert(history(both, backing) =~= history(first, backing) + history(second, backing));
        assert(refusals_in(both) =~= refusals_in(first) + refusals_in(second));
    }
}

/// One observation shows what it says and nothing else: a version to its own
/// backing, an update to its own fence, a refusal as it was given.
pub proof fn an_observation_shows_what_it_says(
    seen: Observation,
    backing: BackingId,
    slot: StampSlot,
    event: ResourceId,
)
    ensures
        ({
            let one = seq![seen];
            &&& history(one, backing) == match seen {
                Observation::VersionPublished { backing: own, version } => if own == backing {
                    seq![version]
                } else {
                    Seq::<ContentVersion>::empty()
                },
                _ => Seq::<ContentVersion>::empty(),
            }
            &&& refusals_in(one) == match seen {
                Observation::Refused { ingress, reason } => seq![(ingress, reason)],
                _ => Seq::<(IngressOrdinal, Refusal)>::empty(),
            }
            &&& fence_count(one, event) == match seen {
                Observation::FenceUpdated { fence } => if fence == event {
                    1nat
                } else {
                    0
                },
                _ => 0,
            }
            &&& stamp_rest(one, slot) == match seen {
                Observation::StampPublished { slot: own, value } => if own == slot {
                    Some(value)
                } else {
                    None
                },
                _ => None,
            }
            &&& event_rest(one, event) == match seen {
                Observation::EventAdvanced { event: own, to } => if own == event {
                    to
                } else {
                    0
                },
                _ => 0,
            }
        }),
{
    let one = seq![seen];
    assert(one.drop_last() =~= Seq::<Observation>::empty());
    assert(one.last() == seen);
    reveal_with_fuel(history, 2);
    reveal_with_fuel(refusals_in, 2);
    reveal_with_fuel(fence_count, 2);
    reveal_with_fuel(stamp_rest, 2);
    reveal_with_fuel(event_rest, 2);
    assert(history(one, backing) =~= history(one, backing));
}

/// A word rests at a later value once one is published into it, and nothing
/// else moves it.
pub proof fn a_word_rests_at_its_latest_value(
    trace: Seq<Observation>,
    seen: Observation,
    slot: StampSlot,
)
    ensures
        ({
            let before = stamp_rest(trace, slot);
            let after = stamp_rest(trace.push(seen), slot);
            match seen {
                Observation::StampPublished { slot: own, value } => if own != slot {
                    after == before
                } else {
                    match before {
                        None => after == Some(value),
                        Some(at) => (value.is_after(at) ==> after == Some(value)) && (
                        !value.is_after(at) ==> after == before),
                    }
                },
                _ => after == before,
            }
        }),
{
    assert(trace.push(seen).drop_last() =~= trace);
}

/// An event rests at the highest value it advanced to: at or above each of
/// them, and at one of them unless there is none.
pub proof fn an_event_rests_at_its_highest_value(trace: Seq<Observation>, event: ResourceId) -> (by:
    Option<int>)
    ensures
        forall|i: int|
            0 <= i < trace.len() ==> ((#[trigger] trace[i]) matches Observation::EventAdvanced {
                event: own,
                to,
            } ==> own == event ==> event_rest(trace, event) >= to),
        match by {
            Some(i) => 0 <= i < trace.len() && (trace[i] matches Observation::EventAdvanced {
                event: own,
                to,
            } && own == event && to == event_rest(trace, event)),
            None => event_rest(trace, event) == 0,
        },
    decreases trace.len(),
{
    if trace.len() == 0 {
        None
    } else {
        let rest = trace.drop_last();
        let by = an_event_rests_at_its_highest_value(rest, event);
        assert forall|i: int| 0 <= i < trace.len() implies ((
        #[trigger] trace[i]) matches Observation::EventAdvanced { event: own, to } ==> own == event
            ==> event_rest(trace, event) >= to) by {
            if i < rest.len() {
                assert(rest[i] == trace[i]);
            }
        }
        if event_rest(trace, event) != event_rest(rest, event) {
            Some(trace.len() - 1)
        } else {
            by
        }
    }
}

/// Runs that agree completed the same transactions, published the same versions
/// of each backing in the same order, came to rest at the same words and
/// events, updated the same fences as often, refused the same work and told the
/// guest the same on every channel.
pub proof fn runs_that_agree_show_the_same(
    serial: Run,
    parallel: Run,
    o: IngressOrdinal,
    refused: (IngressOrdinal, Refusal),
    backing: BackingId,
    slot: StampSlot,
    object: ResourceId,
    domain: ChannelId,
)
    requires
        agree(serial, parallel),
    ensures
        crate::schedule::order_of(serial).len() == crate::schedule::order_of(parallel).len(),
        crate::schedule::order_of(serial).contains(o) == crate::schedule::order_of(
            parallel,
        ).contains(o),
        history(serial.trace@, backing) == history(parallel.trace@, backing),
        stamp_rest(serial.trace@, slot) == stamp_rest(parallel.trace@, slot),
        event_rest(serial.trace@, object) == event_rest(parallel.trace@, object),
        fence_count(serial.trace@, object) == fence_count(parallel.trace@, object),
        refusals_in(serial.trace@).len() == refusals_in(parallel.trace@).len(),
        refusals_in(serial.trace@).contains(refused) == refusals_in(parallel.trace@).contains(
            refused,
        ),
        serial.releases@.filter(|r: ChannelRelease| r.domain == domain)
            == parallel.releases@.filter(|r: ChannelRelease| r.domain == domain),
{
    lemma_sorted_members(crate::schedule::order_of(serial));
    lemma_sorted_members(crate::schedule::order_of(parallel));
    lemma_sorted_members(refusals_in(serial.trace@));
    lemma_sorted_members(refusals_in(parallel.trace@));
    assert(in_key_order(crate::schedule::order_of(serial)).contains(o) == in_key_order(
        crate::schedule::order_of(parallel),
    ).contains(o));
    assert(in_key_order(refusals_in(serial.trace@)).contains(refused) == in_key_order(
        refusals_in(parallel.trace@),
    ).contains(refused));
    assert(crate::schedule::released_on(serial.releases@, domain) == crate::schedule::released_on(
        parallel.releases@,
        domain,
    ));
}

/// A run that agrees with a serial one advances every event it publishes: of
/// two publications of one event the later is the higher.
pub proof fn an_agreeing_run_advances_its_events(serial: Run, parallel: Run, i: int, j: int)
    requires
        agree(serial, parallel),
        0 <= i < j < parallel.trace@.len(),
    ensures
        parallel.trace@[i] matches Observation::EventAdvanced { event: a, to: low }
            ==> parallel.trace@[j] matches Observation::EventAdvanced { event: b, to: high } ==> a
            == b ==> low < high,
{
    let trace = parallel.trace@;
    if let Observation::EventAdvanced { event, to } = trace[i] {
        if let Observation::EventAdvanced { event: b, to: high } = trace[j] {
            if b == event {
                lemma_last_event(trace, event, i, j);
                assert(!goes_back(trace, j));
            }
        }
    }
}

/// The last value an event advanced to is at or above each before it.
proof fn lemma_last_event(trace: Seq<Observation>, event: ResourceId, i: int, n: int)
    requires
        is_monotone(trace),
        0 <= i < n <= trace.len(),
        trace[i] is EventAdvanced,
        trace[i]->EventAdvanced_event == event,
    ensures
        last_event(trace.take(n), event) matches Some(at) && at >= trace[i]->EventAdvanced_to,
    decreases n,
{
    assert(trace.take(n).drop_last() =~= trace.take(n - 1));
    assert(trace.take(n).last() == trace[n - 1]);
    if i < n - 1 {
        lemma_last_event(trace, event, i, n - 1);
        assert(!goes_back(trace, n - 1));
    }
}

/// A run that agrees with a serial one publishes a completion's versions before
/// its stamps.
pub proof fn an_agreeing_run_publishes_versions_first(
    serial: Run,
    parallel: Run,
    k: int,
    i: int,
    j: int,
)
    requires
        agree(serial, parallel),
        0 <= k < parallel.spans@.len(),
        parallel.spans@[k].1.start <= i < j < parallel.spans@[k].1.end,
        parallel.trace@[j] is VersionPublished,
    ensures
        !(parallel.trace@[i] is StampPublished),
{
    let all = all_windows(parallel);
    lemma_sorted_members(all);
    let w = all[k];
    assert(all.contains(w));
    assert(windows(parallel).contains(w));
    let m = choose|m: int| 0 <= m < windows(parallel).len() && windows(parallel)[m] == w;
    assert(!splits(windows(parallel), m) && !leads(parallel.trace@, windows(parallel), m));
    assert(w.start <= i && j < w.end);
    if parallel.trace@[i] is StampPublished {
        assert(stamp_leads(parallel.trace@, w.start as int, w.end as int));
    }
}

/// A run agrees with itself exactly when every publication advances and every
/// completion is whole.
pub proof fn a_sound_run_agrees_with_itself(run: Run)
    ensures
        agree(run, run) <==> is_monotone(run.trace@) && is_atomic(run),
{
}

/// Sorting puts lower keys first.
pub proof fn sorting_puts_lower_keys_first<T: Keyed>(items: Seq<T>, i: int, j: int)
    requires
        0 <= i < j < in_key_order(items).len(),
    ensures
        in_key_order(items)[i].key() <= in_key_order(items)[j].key(),
    decreases items.len(),
{
    let init = items.drop_last();
    let before = in_key_order(init);
    assert forall|a: int, b: int| 0 <= a < b < before.len() implies (#[trigger] before[a]).key()
        <= (#[trigger] before[b]).key() by {
        sorting_puts_lower_keys_first(init, a, b);
    }
    lemma_placed_sorted(before, items.last());
}

proof fn lemma_placed_sorted<T: Keyed>(sorted: Seq<T>, item: T)
    requires
        forall|a: int, b: int|
            0 <= a < b < sorted.len() ==> (#[trigger] sorted[a]).key() <= (
            #[trigger] sorted[b]).key(),
    ensures
        forall|a: int, b: int|
            0 <= a < b < placed(sorted, item).len() ==> (#[trigger] placed(sorted, item)[a]).key()
                <= (#[trigger] placed(sorted, item)[b]).key(),
    decreases sorted.len(),
{
    let after = placed(sorted, item);
    if sorted.len() == 0 || sorted.last().key() <= item.key() {
        assert forall|a: int, b: int| 0 <= a < b < after.len() implies (#[trigger] after[a]).key()
            <= (#[trigger] after[b]).key() by {
            if b < sorted.len() {
                assert(sorted[a].key() <= sorted[b].key());
            } else if a < sorted.len() - 1 {
                assert(sorted[a].key() <= sorted[sorted.len() - 1].key());
            }
        }
    } else {
        let init = sorted.drop_last();
        assert forall|a: int, b: int| 0 <= a < b < init.len() implies (#[trigger] init[a]).key()
            <= (#[trigger] init[b]).key() by {
            assert(sorted[a].key() <= sorted[b].key());
        }
        lemma_placed_sorted(init, item);
        lemma_placed_members(init, item);
        let before = placed(init, item);
        assert forall|a: int, b: int| 0 <= a < b < after.len() implies (#[trigger] after[a]).key()
            <= (#[trigger] after[b]).key() by {
            if b < before.len() {
                assert(before[a].key() <= before[b].key());
            } else {
                assert(before.contains(before[a]));
                if before[a] != item {
                    let m = choose|m: int| 0 <= m < init.len() && init[m] == before[a];
                    assert(sorted[m].key() <= sorted[sorted.len() - 1].key());
                }
            }
        }
    }
}

/// A difference that is reported is one: the two runs do not agree, and where it
/// names a backing, a word, an event, a fence or a channel, that is where they
/// differ.
pub proof fn a_reported_difference_is_one(serial: Run, parallel: Run, d: Divergence)
    requires
        differ_by(serial, parallel, d),
    ensures
        !agree(serial, parallel),
        d matches Divergence::ContentHistory { backing, serial: a, parallel: b } ==> a@ != b@
            && a@ == history(serial.trace@, backing) && b@ == history(parallel.trace@, backing),
        d matches Divergence::StampOutcome { slot, serial: a, parallel: b } ==> a != b && a
            == stamp_rest(serial.trace@, slot) && b == stamp_rest(parallel.trace@, slot),
        d matches Divergence::EventOutcome { event, serial: a, parallel: b } ==> a != b && a
            == event_rest(serial.trace@, event) && b == event_rest(parallel.trace@, event),
        d matches Divergence::FenceUpdates { fence, serial: a, parallel: b } ==> a != b && a
            == fence_count(serial.trace@, fence) && b == fence_count(parallel.trace@, fence),
        d matches Divergence::PublicationOrder { serial: a, parallel: b, .. } ==> a@ != b@,
        d matches Divergence::DifferentTransactions { serial: a, parallel: b } ==> a@ != b@,
        d matches Divergence::Refusals { serial: a, parallel: b } ==> a@ != b@,
{
    match d {
        Divergence::SplitPublication { ordinal } => {
            let k = choose|k: int|
                #[trigger] splits(windows(parallel), k) && sound_before(parallel, k)
                    && windows(parallel)[k].ordinal == ordinal;
            assert(splits(windows(parallel), k));
        },
        Divergence::StampBeforeVersions { ordinal } => {
            let k = choose|k: int|
                !(#[trigger] splits(windows(parallel), k)) && leads(
                    parallel.trace@,
                    windows(parallel),
                    k,
                ) && sound_before(parallel, k) && windows(parallel)[k].ordinal == ordinal;
            assert(!splits(windows(parallel), k));
        },
        Divergence::NonMonotonePublication { at } => {
            assert(goes_back(parallel.trace@, at as int));
        },
        _ => {},
    }
}

/// The difference reported is the first kind there is: runs that completed
/// different transactions are reported for that, whatever else differs, and
/// runs with different histories for those before any word, event or fence.
pub proof fn a_reported_difference_is_the_first(serial: Run, parallel: Run, d: Divergence)
    requires
        differ_by(serial, parallel, d),
    ensures
        !same_transactions(serial, parallel) <==> d is DifferentTransactions,
        d is StampOutcome || d is EventOutcome || d is FenceUpdates || d is Refusals || d
            is PublicationOrder || d is NonMonotonePublication || d is SplitPublication || d
            is StampBeforeVersions ==> same_content(serial.trace@, parallel.trace@),
        d is EventOutcome || d is FenceUpdates || d is Refusals || d is PublicationOrder ==> same_stamps(
            serial.trace@,
            parallel.trace@,
        ),
        d is FenceUpdates || d is Refusals || d is PublicationOrder ==> same_events(
            serial.trace@,
            parallel.trace@,
        ),
        d is Refusals || d is PublicationOrder ==> same_fences(serial.trace@, parallel.trace@),
        d is PublicationOrder ==> same_refusals(serial.trace@, parallel.trace@),
        d is SplitPublication || d is StampBeforeVersions ==> is_monotone(parallel.trace@),
{
}

/// Of the backings or slots that differ the lowest is reported, those the serial
/// run shows before those it does not.
pub proof fn the_lowest_difference_is_reported(
    serial: Run,
    parallel: Run,
    d: Divergence,
    backing: BackingId,
    slot: StampSlot,
)
    requires
        differ_by(serial, parallel, d),
    ensures
        d matches Divergence::ContentHistory { backing: reported, .. } ==> history(
            serial.trace@,
            backing,
        ) != history(parallel.trace@, backing) ==> {
            let shown = history(serial.trace@, reported).len() > 0;
            let other = history(serial.trace@, backing).len() > 0;
            &&& other ==> shown
            &&& other == shown ==> reported.0 <= backing.0
        },
        d matches Divergence::StampOutcome { slot: reported, .. } ==> stamp_rest(
            serial.trace@,
            slot,
        ) != stamp_rest(parallel.trace@, slot) ==> {
            let shown = stamp_rest(serial.trace@, reported) is Some;
            let other = stamp_rest(serial.trace@, slot) is Some;
            &&& other ==> shown
            &&& other == shown ==> reported.0 <= slot.0
        },
{
    let s = serial.trace@;
    if let Divergence::ContentHistory { backing: reported, .. } = d {
        lemma_shown_backing(s, reported);
        lemma_shown_backing(s, backing);
    }
    if let Divergence::StampOutcome { slot: reported, .. } = d {
        lemma_shown_stamp(s, reported);
        lemma_shown_stamp(s, slot);
    }
}

proof fn lemma_shown_backing(trace: Seq<Observation>, backing: BackingId)
    ensures
        shows_backing(trace, backing) == (history(trace, backing).len() > 0),
    decreases trace.len(),
{
    if trace.len() > 0 {
        let rest = trace.drop_last();
        lemma_shown_backing(rest, backing);
        assert(trace[trace.len() - 1] == trace.last());
        if shows_backing(rest, backing) {
            let i = choose|i: int|
                0 <= i < rest.len() && (#[trigger] rest[i]) is VersionPublished
                    && rest[i]->VersionPublished_backing == backing;
            assert(trace[i] == rest[i]);
        }
        if shows_backing(trace, backing) {
            let i = choose|i: int|
                0 <= i < trace.len() && (#[trigger] trace[i]) is VersionPublished
                    && trace[i]->VersionPublished_backing == backing;
            if i < rest.len() {
                assert(rest[i] == trace[i]);
            }
        }
    }
}

proof fn lemma_shown_stamp(trace: Seq<Observation>, slot: StampSlot)
    ensures
        shows_stamp(trace, slot) == (stamp_rest(trace, slot) is Some),
    decreases trace.len(),
{
    if trace.len() > 0 {
        let rest = trace.drop_last();
        lemma_shown_stamp(rest, slot);
        assert(trace[trace.len() - 1] == trace.last());
        if shows_stamp(rest, slot) {
            let i = choose|i: int|
                0 <= i < rest.len() && (#[trigger] rest[i]) is StampPublished
                    && rest[i]->StampPublished_slot == slot;
            assert(trace[i] == rest[i]);
        }
        if shows_stamp(trace, slot) {
            let i = choose|i: int|
                0 <= i < trace.len() && (#[trigger] trace[i]) is StampPublished
                    && trace[i]->StampPublished_slot == slot;
            if i < rest.len() {
                assert(rest[i] == trace[i]);
            }
        }
    }
}

} // verus!
