//! What one completion adds to what a run shows.
//!
//! A transaction's records show the events they advance and the fences they
//! update, its accesses show versions, and its channel's releases show stamps.
//! Each projection of the trace grows by that transaction's part of it.

use vstd::prelude::*;
use crate::access::{BackingId, ContentVersion};
use crate::exec::{ExecTransaction, ResolvedOperation, StreamRecord, VersionPublication};
use crate::identity::{ResourceId, SessionGeneration, StampSlot, StampValue};
use crate::interpret::{InterpreterModel, Observation};
use crate::prereq::Production;
use crate::publish::Release;

verus! {

/// The trace says what the interpreter holds, and nothing in it went back or
/// was refused.
pub open spec fn is_tracked(m: InterpreterModel) -> bool {
    &&& m.generation == SessionGeneration(1)
    &&& forall|e: ResourceId| #[trigger]
        crate::diverge::event_rest(m.trace, e) == m.event_value(e)
    &&& forall|e: ResourceId| #[trigger]
        crate::diverge::last_event(m.trace, e) is Some ==> crate::diverge::last_event(m.trace, e)->0
            == m.event_value(e)
    &&& forall|slot: StampSlot| #[trigger]
        crate::diverge::last_stamp(m.trace, slot) == crate::ready::standing(m.stamps, slot)
    &&& crate::diverge::is_monotone(m.trace)
    &&& crate::diverge::refusals_in(m.trace).len() == 0
}

/// Neither a stamp nor a version.
pub open spec fn is_quiet(o: Observation) -> bool {
    o is EventAdvanced || o is FenceUpdated
}

/// How often records update a fence.
pub open spec fn updates_in(records: Seq<StreamRecord>, fence: ResourceId) -> nat
    decreases records.len(),
{
    if records.len() == 0 {
        0
    } else {
        let before = updates_in(records.drop_last(), fence);
        match records.last().op {
            ResolvedOperation::Fence(f) => if f.kind is Update && f.fence == fence {
                before + 1
            } else {
                before
            },
            _ => before,
        }
    }
}

/// The signals raise an event to a value, or past it.
pub open spec fn signals_to(signals: Seq<Production>, event: ResourceId, value: u64) -> bool {
    exists|k: int| 0 <= k < signals.len() && (#[trigger] signals[k]) == (Production::Event {
        event,
        value,
    })
}

/// What records do to an event: nothing but raise it to one of their signals.
pub open spec fn event_moved(
    before: u64,
    after: u64,
    signals: Seq<Production>,
    event: ResourceId,
) -> bool {
    &&& after >= before
    &&& after == before || signals_to(signals, event, after)
    &&& forall|v: u64| #[trigger] signals_to(signals, event, v) ==> v <= after
}

/// What applying records leaves.
pub open spec fn all_applied_shows(
    m: InterpreterModel,
    records: Seq<StreamRecord>,
    after: InterpreterModel,
) -> bool {
    &&& is_tracked(after)
    &&& after.stamps == m.stamps
    &&& m.trace.len() <= after.trace.len()
    &&& after.trace.take(m.trace.len() as int) == m.trace
    &&& forall|k: int| m.trace.len() <= k < after.trace.len() ==> is_quiet(#[trigger] after.trace[k])
    &&& forall|b: BackingId| #[trigger]
        crate::diverge::history(after.trace, b) == crate::diverge::history(m.trace, b)
    &&& forall|slot: StampSlot| #[trigger]
        crate::diverge::stamp_rest(after.trace, slot) == crate::diverge::stamp_rest(m.trace, slot)
    &&& forall|f: ResourceId| #[trigger]
        crate::diverge::fence_count(after.trace, f) == crate::diverge::fence_count(m.trace, f)
            + updates_in(records, f)
    &&& forall|e: ResourceId| #[trigger]
        event_moved(
            m.event_value(e),
            after.event_value(e),
            crate::prereq::signals_of(records),
            e,
        )
}

/// A trace with one more observation that does not go back stays monotone.
proof fn lemma_monotone_push(trace: Seq<Observation>, seen: Observation)
    requires
        crate::diverge::is_monotone(trace),
        !crate::diverge::falls_back(trace, seen),
    ensures
        crate::diverge::is_monotone(trace.push(seen)),
{
    let next = trace.push(seen);
    assert forall|k: int| !#[trigger] crate::diverge::goes_back(next, k) by {
        if 0 <= k < trace.len() {
            assert(!crate::diverge::goes_back(trace, k));
            assert(next.take(k) =~= trace.take(k));
        } else if k == trace.len() {
            assert(next.take(k) =~= trace);
        }
    }
}

proof fn lemma_event_applied(m: InterpreterModel, e: crate::sync::EventOp)
    requires
        is_tracked(m),
        e.moves(m.event_value(e.event)),
    ensures
        is_tracked(m.applied(ResolvedOperation::Event(e))),
{
    let after = m.applied(ResolvedOperation::Event(e));
    let seen = Observation::EventAdvanced { event: e.event, to: e.value };
    assert(after.trace.drop_last() =~= m.trace);
    assert(after.trace.last() == seen);
    assert(crate::diverge::last_event(m.trace, e.event) is Some ==> crate::diverge::last_event(
        m.trace,
        e.event,
    )->0 == m.event_value(e.event));
    lemma_monotone_push(m.trace, seen);
    assert forall|x: ResourceId| #[trigger]
        crate::diverge::event_rest(after.trace, x) == after.event_value(x) by {
        assert(crate::diverge::event_rest(m.trace, x) == m.event_value(x));
    }
    assert forall|x: ResourceId| #[trigger]
        crate::diverge::last_event(after.trace, x) is Some implies crate::diverge::last_event(
        after.trace,
        x,
    )->0 == after.event_value(x) by {
        assert(crate::diverge::last_event(m.trace, x) is Some ==> crate::diverge::last_event(
            m.trace,
            x,
        )->0 == m.event_value(x));
    }
    assert forall|slot: StampSlot| #[trigger]
        crate::diverge::last_stamp(after.trace, slot) == crate::ready::standing(
            after.stamps,
            slot,
        ) by {
        assert(crate::diverge::last_stamp(m.trace, slot) == crate::ready::standing(m.stamps, slot));
    }
}

/// An observation that is neither an event's, nor a stamp's, nor a refusal
/// leaves the trace saying what the interpreter holds.
proof fn lemma_tracked_push(m: InterpreterModel, after: InterpreterModel, seen: Observation)
    requires
        is_tracked(m),
        after.trace == m.trace.push(seen),
        after.events == m.events,
        after.stamps == m.stamps,
        after.generation == m.generation,
        seen is FenceUpdated || seen is VersionPublished,
    ensures
        is_tracked(after),
{
    assert(after.trace.drop_last() =~= m.trace);
    lemma_monotone_push(m.trace, seen);
    assert forall|x: ResourceId| #[trigger]
        crate::diverge::event_rest(after.trace, x) == after.event_value(x) by {
        assert(crate::diverge::event_rest(m.trace, x) == m.event_value(x));
    }
    assert forall|x: ResourceId| #[trigger]
        crate::diverge::last_event(after.trace, x) is Some implies crate::diverge::last_event(
        after.trace,
        x,
    )->0 == after.event_value(x) by {
        assert(crate::diverge::last_event(m.trace, x) is Some ==> crate::diverge::last_event(
            m.trace,
            x,
        )->0 == m.event_value(x));
    }
    assert forall|slot: StampSlot| #[trigger]
        crate::diverge::last_stamp(after.trace, slot) == crate::ready::standing(
            after.stamps,
            slot,
        ) by {
        assert(crate::diverge::last_stamp(m.trace, slot) == crate::ready::standing(m.stamps, slot));
    }
}

proof fn lemma_signals_push(records: Seq<StreamRecord>, event: ResourceId, v: u64)
    requires
        records.len() > 0,
    ensures
        signals_to(crate::prereq::signals_of(records), event, v) == (signals_to(
            crate::prereq::signals_of(records.drop_last()),
            event,
            v,
        ) || crate::prereq::signal_of(records.last().op) == Some(
            Production::Event { event, value: v },
        )),
{
    let before = crate::prereq::signals_of(records.drop_last());
    let after = crate::prereq::signals_of(records);
    let p = Production::Event { event, value: v };
    if signals_to(before, event, v) {
        let k = choose|k: int| 0 <= k < before.len() && (#[trigger] before[k]) == p;
        assert(after[k] == p);
    }
    if crate::prereq::signal_of(records.last().op) == Some(p) {
        assert(after[before.len() as int] == p);
    }
    if signals_to(after, event, v) {
        let k = choose|k: int| 0 <= k < after.len() && (#[trigger] after[k]) == p;
        if k < before.len() {
            assert(before[k] == p);
        }
    }
}

pub proof fn lemma_all_applied(m: InterpreterModel, records: Seq<StreamRecord>)
    requires
        is_tracked(m),
    ensures
        all_applied_shows(m, records, m.all_applied(records)),
    decreases records.len(),
{
    let after = m.all_applied(records);
    if records.len() == 0 {
        assert(after.trace.take(m.trace.len() as int) =~= m.trace);
        assert forall|e: ResourceId| #[trigger]
            event_moved(
                m.event_value(e),
                after.event_value(e),
                crate::prereq::signals_of(records),
                e,
            ) by {}
    } else {
        let init = records.drop_last();
        let mid = m.all_applied(init);
        let op = records.last().op;
        lemma_all_applied(m, init);
        assert(after == mid.applied(op));
        lemma_applied(mid, op);
        assert(after.trace.take(m.trace.len() as int) =~= m.trace) by {
            assert(after.trace.take(mid.trace.len() as int) == mid.trace);
            assert(after.trace.take(m.trace.len() as int) =~= mid.trace.take(
                m.trace.len() as int,
            ));
        }
        assert forall|k: int| m.trace.len() <= k < after.trace.len() implies is_quiet(
            #[trigger] after.trace[k],
        ) by {
            if k < mid.trace.len() {
                assert(after.trace.take(mid.trace.len() as int)[k] == mid.trace[k]);
            }
        }
        assert forall|b: BackingId| #[trigger]
            crate::diverge::history(after.trace, b) == crate::diverge::history(m.trace, b) by {
            assert(crate::diverge::history(mid.trace, b) == crate::diverge::history(m.trace, b));
        }
        assert forall|slot: StampSlot| #[trigger]
            crate::diverge::stamp_rest(after.trace, slot) == crate::diverge::stamp_rest(
                m.trace,
                slot,
            ) by {
            assert(crate::diverge::stamp_rest(mid.trace, slot) == crate::diverge::stamp_rest(
                m.trace,
                slot,
            ));
        }
        assert forall|f: ResourceId| #[trigger]
            crate::diverge::fence_count(after.trace, f) == crate::diverge::fence_count(m.trace, f)
                + updates_in(records, f) by {
            assert(crate::diverge::fence_count(mid.trace, f) == crate::diverge::fence_count(
                m.trace,
                f,
            ) + updates_in(init, f));
        }
        assert forall|e: ResourceId| #[trigger]
            event_moved(
                m.event_value(e),
                after.event_value(e),
                crate::prereq::signals_of(records),
                e,
            ) by {
            let before = crate::prereq::signals_of(init);
            assert(event_moved(m.event_value(e), mid.event_value(e), before, e));
            assert forall|v: u64| #[trigger]
                signals_to(crate::prereq::signals_of(records), e, v) implies v
                <= after.event_value(e) by {
                lemma_signals_push(records, e, v);
            }
            lemma_signals_push(records, e, after.event_value(e));
        }
    }
}

/// What one record shows.
proof fn lemma_applied(m: InterpreterModel, op: ResolvedOperation)
    requires
        is_tracked(m),
    ensures
        is_tracked(m.applied(op)),
        m.applied(op).stamps == m.stamps,
        m.trace.len() <= m.applied(op).trace.len() <= m.trace.len() + 1,
        m.applied(op).trace.take(m.trace.len() as int) == m.trace,
        m.applied(op).trace.len() > m.trace.len() ==> is_quiet(m.applied(op).trace.last()),
        forall|b: BackingId| #[trigger]
            crate::diverge::history(m.applied(op).trace, b) == crate::diverge::history(m.trace, b),
        forall|slot: StampSlot| #[trigger]
            crate::diverge::stamp_rest(m.applied(op).trace, slot) == crate::diverge::stamp_rest(
                m.trace,
                slot,
            ),
        forall|f: ResourceId| #[trigger]
            crate::diverge::fence_count(m.applied(op).trace, f) == crate::diverge::fence_count(
                m.trace,
                f,
            ) + (if op is Fence && op->Fence_0.kind is Update && op->Fence_0.fence == f {
                1nat
            } else {
                0nat
            }),
        forall|e: ResourceId|
            (#[trigger] m.applied(op).event_value(e)) == (if op is Event && op->Event_0.event == e
                && op->Event_0.moves(m.event_value(e)) {
                op->Event_0.value
            } else {
                m.event_value(e)
            }),
{
    let after = m.applied(op);
    assert(m.trace.take(m.trace.len() as int) =~= m.trace);
    match op {
        ResolvedOperation::Event(e) => {
            if e.moves(m.event_value(e.event)) {
                lemma_event_applied(m, e);
                assert(after.trace.drop_last() =~= m.trace);
                assert(after.trace.take(m.trace.len() as int) =~= m.trace);
            }
        },
        ResolvedOperation::Fence(f) => {
            if f.kind is Update {
                let seen = Observation::FenceUpdated { fence: f.fence };
                assert(after.trace == m.trace.push(seen));
                assert(after.trace.drop_last() =~= m.trace);
                assert(after.trace.take(m.trace.len() as int) =~= m.trace);
                lemma_tracked_push(m, after, seen);
            }
        },
        _ => {},
    }
}

/// The versions a transaction shows of a backing.
pub open spec fn versions_of(tx: ExecTransaction, backing: BackingId) -> Seq<ContentVersion> {
    crate::diverge::history(
        crate::interpret::versions_seen(crate::exec::publications(tx.accesses@)),
        backing,
    )
}

/// How often a transaction updates a fence.
pub open spec fn updates_of(tx: ExecTransaction, fence: ResourceId) -> nat {
    updates_in(crate::exec::all_records(tx.streams@), fence)
}

/// What a transaction signals.
pub open spec fn signals_by(tx: ExecTransaction) -> Seq<Production> {
    crate::prereq::signals_of(crate::exec::all_records(tx.streams@))
}

/// What showing versions leaves.
proof fn lemma_versions(
    m: InterpreterModel,
    after: InterpreterModel,
    versions: Seq<VersionPublication>,
)
    requires
        is_tracked(m),
        after.trace == m.trace + crate::interpret::versions_seen(versions),
        after.events == m.events,
        after.stamps == m.stamps,
        after.generation == m.generation,
    ensures
        is_tracked(after),
        forall|b: BackingId| #[trigger]
            crate::diverge::history(after.trace, b) == crate::diverge::history(m.trace, b)
                + crate::diverge::history(crate::interpret::versions_seen(versions), b),
        forall|slot: StampSlot| #[trigger]
            crate::diverge::stamp_rest(after.trace, slot) == crate::diverge::stamp_rest(
                m.trace,
                slot,
            ),
        forall|f: ResourceId| #[trigger]
            crate::diverge::fence_count(after.trace, f) == crate::diverge::fence_count(m.trace, f),
    decreases versions.len(),
{
    let seen = crate::interpret::versions_seen(versions);
    if versions.len() == 0 {
        assert(after.trace =~= m.trace);
        assert(seen =~= Seq::<Observation>::empty());
        assert forall|b: BackingId| #[trigger]
            crate::diverge::history(after.trace, b) == crate::diverge::history(m.trace, b)
                + crate::diverge::history(seen, b) by {
            assert(crate::diverge::history(m.trace, b) + crate::diverge::history(seen, b)
                =~= crate::diverge::history(m.trace, b));
        }
        assert forall|e: ResourceId| #[trigger]
            crate::diverge::event_rest(after.trace, e) == after.event_value(e) by {
            assert(crate::diverge::event_rest(m.trace, e) == m.event_value(e));
        }
        assert forall|e: ResourceId| #[trigger]
            crate::diverge::last_event(after.trace, e) is Some implies crate::diverge::last_event(
            after.trace,
            e,
        )->0 == after.event_value(e) by {
            assert(m.event_value(e) == after.event_value(e));
            assert(crate::diverge::last_event(m.trace, e) is Some ==> crate::diverge::last_event(
                m.trace,
                e,
            )->0 == m.event_value(e));
        }
    } else {
        let init = versions.drop_last();
        let some = crate::interpret::versions_seen(init);
        let last = Observation::VersionPublished {
            backing: versions.last().backing,
            version: versions.last().to,
        };
        let mid = InterpreterModel { trace: m.trace + some, ..m };
        lemma_versions(m, mid, init);
        assert(seen =~= some.push(last));
        assert(after.trace =~= mid.trace.push(last));
        assert(after.trace.drop_last() =~= mid.trace);
        assert(seen.drop_last() =~= some);
        lemma_tracked_push(mid, after, last);
        assert forall|b: BackingId| #[trigger]
            crate::diverge::history(after.trace, b) == crate::diverge::history(m.trace, b)
                + crate::diverge::history(seen, b) by {
            assert(crate::diverge::history(mid.trace, b) == crate::diverge::history(m.trace, b)
                + crate::diverge::history(some, b));
            assert(crate::diverge::history(after.trace, b) =~= crate::diverge::history(m.trace, b)
                + crate::diverge::history(seen, b));
        }
        assert forall|slot: StampSlot| #[trigger]
            crate::diverge::stamp_rest(after.trace, slot) == crate::diverge::stamp_rest(
                m.trace,
                slot,
            ) by {
            assert(crate::diverge::stamp_rest(mid.trace, slot) == crate::diverge::stamp_rest(
                m.trace,
                slot,
            ));
        }
        assert forall|f: ResourceId| #[trigger]
            crate::diverge::fence_count(after.trace, f) == crate::diverge::fence_count(
                m.trace,
                f,
            ) by {
            assert(crate::diverge::fence_count(mid.trace, f) == crate::diverge::fence_count(
                m.trace,
                f,
            ));
        }
    }
}

/// What running a transaction's work shows.
pub open spec fn work_shows(
    m: InterpreterModel,
    tx: ExecTransaction,
    after: InterpreterModel,
) -> bool {
    &&& is_tracked(after)
    &&& after.stamps == m.stamps
    &&& m.trace.len() <= after.trace.len()
    &&& after.trace.take(m.trace.len() as int) == m.trace
    &&& forall|k: int|
        m.trace.len() <= k < after.trace.len() ==> !((#[trigger] after.trace[k]) is StampPublished)
    &&& forall|b: BackingId| #[trigger]
        crate::diverge::history(after.trace, b) == crate::diverge::history(m.trace, b)
            + versions_of(tx, b)
    &&& forall|slot: StampSlot| #[trigger]
        crate::diverge::stamp_rest(after.trace, slot) == crate::diverge::stamp_rest(m.trace, slot)
    &&& forall|f: ResourceId| #[trigger]
        crate::diverge::fence_count(after.trace, f) == crate::diverge::fence_count(m.trace, f)
            + updates_of(tx, f)
    &&& forall|e: ResourceId| #[trigger]
        event_moved(m.event_value(e), after.event_value(e), signals_by(tx), e)
}

pub proof fn lemma_worked(m: InterpreterModel, tx: ExecTransaction)
    requires
        is_tracked(m),
    ensures
        work_shows(m, tx, m.worked(tx)),
{
    let records = crate::exec::all_records(tx.streams@);
    let mid = m.all_applied(records);
    let after = m.worked(tx);
    let versions = crate::exec::publications(tx.accesses@);
    lemma_all_applied(m, records);
    lemma_versions(mid, after, versions);
    assert(after.trace.take(m.trace.len() as int) =~= m.trace) by {
        assert(after.trace.take(m.trace.len() as int) =~= mid.trace.take(m.trace.len() as int));
    }
    assert forall|k: int| m.trace.len() <= k < after.trace.len() implies !((
    #[trigger] after.trace[k]) is StampPublished) by {
        if k < mid.trace.len() {
            assert(after.trace[k] == mid.trace[k]);
            assert(is_quiet(mid.trace[k]));
        }
    }
    assert forall|b: BackingId| #[trigger]
        crate::diverge::history(after.trace, b) == crate::diverge::history(m.trace, b)
            + versions_of(tx, b) by {
        assert(crate::diverge::history(mid.trace, b) == crate::diverge::history(m.trace, b));
    }
    assert forall|slot: StampSlot| #[trigger]
        crate::diverge::stamp_rest(after.trace, slot) == crate::diverge::stamp_rest(
            m.trace,
            slot,
        ) by {
        assert(crate::diverge::stamp_rest(mid.trace, slot) == crate::diverge::stamp_rest(
            m.trace,
            slot,
        ));
    }
    assert forall|f: ResourceId| #[trigger]
        crate::diverge::fence_count(after.trace, f) == crate::diverge::fence_count(m.trace, f)
            + updates_of(tx, f) by {
        assert(crate::diverge::fence_count(mid.trace, f) == crate::diverge::fence_count(m.trace, f)
            + updates_in(records, f));
    }
    assert forall|e: ResourceId| #[trigger]
        event_moved(m.event_value(e), after.event_value(e), signals_by(tx), e) by {
        assert(event_moved(m.event_value(e), mid.event_value(e), signals_by(tx), e));
        assert(after.event_value(e) == mid.event_value(e));
    }
}

/// Where values put into a slot leave it.
pub open spec fn rest_of(values: Seq<StampValue>) -> Option<StampValue>
    decreases values.len(),
{
    if values.len() == 0 {
        None
    } else {
        match rest_of(values.drop_last()) {
            Some(at) => Some(at.latest(values.last())),
            None => Some(values.last()),
        }
    }
}

/// The trace shows exactly these values of each slot.
pub open spec fn shows_values(
    m: InterpreterModel,
    releases: Seq<crate::schedule::ChannelRelease>,
) -> bool {
    &&& forall|slot: StampSlot| #[trigger]
        crate::diverge::stamp_rest(m.trace, slot) == rest_of(
            crate::stamped::values_in(releases, slot),
        )
    &&& forall|slot: StampSlot| #[trigger]
        crate::ready::standing(m.stamps, slot) == crate::settled::last_of(
            crate::stamped::values_in(releases, slot),
        )
}

/// What showing stamps leaves.
pub open spec fn stamps_show(m: InterpreterModel, after: InterpreterModel) -> bool {
    &&& is_tracked(after)
    &&& after.events == m.events
    &&& m.trace.len() <= after.trace.len()
    &&& after.trace.take(m.trace.len() as int) == m.trace
    &&& forall|k: int|
        m.trace.len() <= k < after.trace.len() ==> (#[trigger] after.trace[k]) is StampPublished
    &&& forall|b: BackingId| #[trigger]
        crate::diverge::history(after.trace, b) == crate::diverge::history(m.trace, b)
    &&& forall|f: ResourceId| #[trigger]
        crate::diverge::fence_count(after.trace, f) == crate::diverge::fence_count(m.trace, f)
}

proof fn lemma_stamped(
    m: InterpreterModel,
    releases: Seq<crate::schedule::ChannelRelease>,
    release: crate::schedule::ChannelRelease,
)
    requires
        is_tracked(m),
        shows_values(m, releases),
        release.stamp is Some ==> crate::stamped::climbs(
            crate::stamped::values_in(releases.push(release), release.stamp->0.slot),
        ),
    ensures
        stamps_show(m, m.stamped(release.stamp)),
        shows_values(m.stamped(release.stamp), releases.push(release)),
{
    let after = m.stamped(release.stamp);
    let more = releases.push(release);
    assert(more.drop_last() =~= releases);
    match release.stamp {
        None => {
            assert(after.trace =~= m.trace);
            assert(after =~= m);
            assert(after.trace.take(m.trace.len() as int) =~= m.trace);
            assert forall|slot: StampSlot| #[trigger]
                crate::stamped::values_in(more, slot) == crate::stamped::values_in(
                    releases,
                    slot,
                ) by {
                assert(crate::stamped::values_in(releases, slot) + crate::stamped::put(
                    release.stamp,
                    slot,
                ) =~= crate::stamped::values_in(releases, slot));
            }
        },
        Some(stamp) => {
            let seen = Observation::StampPublished { slot: stamp.slot, value: stamp.value };
            assert(after.trace =~= m.trace.push(seen));
            assert(after.trace.drop_last() =~= m.trace);
            assert(after.trace.take(m.trace.len() as int) =~= m.trace);
            let before = crate::stamped::values_in(releases, stamp.slot);
            let grown = crate::stamped::values_in(more, stamp.slot);
            assert(grown =~= before.push(stamp.value));
            assert(crate::ready::standing(m.stamps, stamp.slot) == crate::settled::last_of(before));
            assert(crate::diverge::last_stamp(m.trace, stamp.slot) == crate::ready::standing(
                m.stamps,
                stamp.slot,
            ));
            if before.len() > 0 {
                assert(grown[before.len() as int].is_after(grown[before.len() - 1]));
            }
            lemma_monotone_push(m.trace, seen);
            assert forall|slot: StampSlot| #[trigger]
                crate::diverge::stamp_rest(after.trace, slot) == rest_of(
                    crate::stamped::values_in(more, slot),
                ) by {
                lemma_values_push(releases, release, slot);
                assert(crate::diverge::stamp_rest(m.trace, slot) == rest_of(
                    crate::stamped::values_in(releases, slot),
                ));
            }
            assert forall|slot: StampSlot| #[trigger]
                crate::ready::standing(after.stamps, slot) == crate::settled::last_of(
                    crate::stamped::values_in(more, slot),
                ) by {
                lemma_values_push(releases, release, slot);
                assert(crate::ready::standing(m.stamps, slot) == crate::settled::last_of(
                    crate::stamped::values_in(releases, slot),
                ));
            }
            assert forall|slot: StampSlot| #[trigger]
                crate::diverge::last_stamp(after.trace, slot) == crate::ready::standing(
                    after.stamps,
                    slot,
                ) by {
                assert(crate::diverge::last_stamp(m.trace, slot) == crate::ready::standing(
                    m.stamps,
                    slot,
                ));
            }
            assert forall|e: ResourceId| #[trigger]
                crate::diverge::event_rest(after.trace, e) == after.event_value(e) by {
                assert(crate::diverge::event_rest(m.trace, e) == m.event_value(e));
            }
            assert forall|e: ResourceId| #[trigger]
                crate::diverge::last_event(after.trace, e) is Some implies crate::diverge::last_event(
                after.trace,
                e,
            )->0 == after.event_value(e) by {
                assert(crate::diverge::last_event(m.trace, e) is Some
                    ==> crate::diverge::last_event(m.trace, e)->0 == m.event_value(e));
            }
        },
    }
}

proof fn lemma_values_push(
    releases: Seq<crate::schedule::ChannelRelease>,
    release: crate::schedule::ChannelRelease,
    slot: StampSlot,
)
    requires
        release.stamp is Some,
    ensures
        crate::stamped::values_in(releases.push(release), slot) == (if slot
            == release.stamp->0.slot {
            crate::stamped::values_in(releases, slot).push(release.stamp->0.value)
        } else {
            crate::stamped::values_in(releases, slot)
        }),
        crate::stamped::values_in(releases, slot).push(release.stamp->0.value).drop_last()
            == crate::stamped::values_in(releases, slot),
{
    let values = crate::stamped::values_in(releases, slot);
    assert(releases.push(release).drop_last() =~= releases);
    if slot == release.stamp->0.slot {
        assert(values + crate::stamped::put(release.stamp, slot) =~= values.push(
            release.stamp->0.value,
        ));
    } else {
        assert(values + crate::stamped::put(release.stamp, slot) =~= values);
    }
    assert(values.push(release.stamp->0.value).drop_last() =~= values);
}

/// All of one channel's releases have been shown.
pub proof fn lemma_all_stamped(
    m: InterpreterModel,
    releases: Seq<crate::schedule::ChannelRelease>,
    d: crate::identity::ChannelId,
    fresh: Seq<Release>,
)
    requires
        is_tracked(m),
        shows_values(m, releases),
        forall|slot: StampSlot| #[trigger]
            crate::stamped::climbs(
                crate::stamped::values_in(
                    releases + crate::schedule::released_as(d, fresh),
                    slot,
                ),
            ),
    ensures
        stamps_show(m, crate::schedule::all_stamped(m, fresh)),
        shows_values(
            crate::schedule::all_stamped(m, fresh),
            releases + crate::schedule::released_as(d, fresh),
        ),
    decreases fresh.len(),
{
    let all = releases + crate::schedule::released_as(d, fresh);
    let after = crate::schedule::all_stamped(m, fresh);
    if fresh.len() == 0 {
        assert(all =~= releases);
        assert(after.trace.take(m.trace.len() as int) =~= m.trace);
    } else {
        let init = fresh.drop_last();
        let some = releases + crate::schedule::released_as(d, init);
        let release = crate::schedule::ChannelRelease {
            domain: d,
            sequence: fresh.last().sequence,
            stamp: fresh.last().stamp,
        };
        assert(all =~= some.push(release));
        assert(all.drop_last() =~= some);
        assert forall|slot: StampSlot| #[trigger]
            crate::stamped::climbs(crate::stamped::values_in(some, slot)) by {
            let values = crate::stamped::values_in(some, slot);
            let longer = crate::stamped::values_in(all, slot);
            assert(crate::stamped::climbs(longer));
            assert forall|x: int, y: int| 0 <= x && y == x + 1 && y < values.len() implies (
            #[trigger] values[y]).is_after(#[trigger] values[x]) by {
                assert(longer[x] == values[x] && longer[y] == values[y]);
            }
        }
        lemma_all_stamped(m, releases, d, init);
        let mid = crate::schedule::all_stamped(m, init);
        if release.stamp is Some {
            assert(crate::stamped::climbs(
                crate::stamped::values_in(all, release.stamp->0.slot),
            ));
        }
        lemma_stamped(mid, some, release);
        assert(after == mid.stamped(release.stamp));
        assert(after.trace.take(m.trace.len() as int) =~= m.trace) by {
            assert(after.trace.take(m.trace.len() as int) =~= mid.trace.take(
                m.trace.len() as int,
            )) by {
                assert(after.trace.take(mid.trace.len() as int) == mid.trace);
            }
        }
        assert forall|k: int| m.trace.len() <= k < after.trace.len() implies (
        #[trigger] after.trace[k]) is StampPublished by {
            if k < mid.trace.len() {
                assert(after.trace.take(mid.trace.len() as int)[k] == mid.trace[k]);
            }
        }
        assert forall|b: BackingId| #[trigger]
            crate::diverge::history(after.trace, b) == crate::diverge::history(m.trace, b) by {
            assert(crate::diverge::history(mid.trace, b) == crate::diverge::history(m.trace, b));
        }
        assert forall|f: ResourceId| #[trigger]
            crate::diverge::fence_count(after.trace, f) == crate::diverge::fence_count(
                m.trace,
                f,
            ) by {
            assert(crate::diverge::fence_count(mid.trace, f) == crate::diverge::fence_count(
                m.trace,
                f,
            ));
        }
    }
}

} // verus!
