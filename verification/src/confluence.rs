//! Every permitted schedule means what the serial one meant.
//!
//! An eligible batch completes whatever is chosen. Where its waits also decide
//! the order of what it shows, whatever order that was, the run agrees with the
//! serial one: the same transactions, none of them refused, the same content
//! history of every backing, every word, event and fence at rest where it was,
//! and every channel telling the guest the same things in the same order.

use vstd::prelude::*;
use crate::access::{BackingId, ContentVersion};
use crate::exec::{ExecTransaction, Prerequisite};
use crate::identity::{
    ChannelId, IngressOrdinal, ResourceId, SessionGeneration, StampSlot, StampWait,
};
use crate::interpret::InterpreterModel;
use crate::prereq::Production;
use crate::ready::Readiness;
use crate::schedule::{Progress, Run};

verus! {

/// What two transactions show of a backing depends on which goes first.
pub open spec fn versions_clash(
    batch: Seq<ExecTransaction>,
    i: int,
    j: int,
    b: BackingId,
) -> bool {
    !crate::words::commute(
        crate::shown::versions_of(batch[j], b),
        crate::shown::versions_of(batch[i], b),
    )
}

/// Waits order every two transactions whose versions of one backing would
/// depend on which goes first.
pub open spec fn versions_ordered(batch: Seq<ExecTransaction>) -> bool {
    forall|i: int, j: int, b: BackingId|
        0 <= i < j < batch.len() && #[trigger] versions_clash(
            batch,
            i,
            j,
            b,
        ) ==> crate::follow::always_after(batch, j, batch[i].ingress)
}

/// The batch is of the generation an interpreter starts in.
pub open spec fn first_generation(batch: Seq<ExecTransaction>) -> bool {
    forall|i: int|
        0 <= i < batch.len() ==> (#[trigger] batch[i]).session == SessionGeneration(1)
}

/// The batch has one meaning, whatever order its work finishes in.
///
/// Eligibility alone lets every schedule complete the batch. That the schedules
/// show the same things asks more: the batch is of the generation an
/// interpreter starts in, its waits order what it shows of each backing and what
/// is put into each completion word, a word always advances, and a wait for one
/// stays answered.
pub open spec fn has_one_meaning(batch: Seq<ExecTransaction>) -> bool {
    &&& crate::schedule::in_order(batch)
    &&& crate::eligible::is_eligible(batch)
    &&& first_generation(batch)
    &&& versions_ordered(batch)
    &&& crate::follow::slots_ordered(batch)
    &&& crate::stamped::slots_climb(batch)
    &&& crate::stamped::waits_stay_answered(batch)
}

/// The versions of a backing, transaction by transaction.
spec fn version_words(batch: Seq<ExecTransaction>, b: BackingId) -> spec_fn(IngressOrdinal) -> Seq<
    ContentVersion,
> {
    |o: IngressOrdinal| crate::shown::versions_of(crate::schedule::tx_of(batch, o), b)
}

/// The updates of a fence, transaction by transaction.
spec fn fence_words(batch: Seq<ExecTransaction>, f: ResourceId) -> spec_fn(IngressOrdinal) -> Seq<
    ResourceId,
> {
    |o: IngressOrdinal|
        Seq::new(crate::shown::updates_of(crate::schedule::tx_of(batch, o), f), |k: int| f)
}

/// The transaction at `i` has completed and signals the event to the value.
spec fn signalled_by(
    batch: Seq<ExecTransaction>,
    done: Seq<IngressOrdinal>,
    i: int,
    e: ResourceId,
    v: u64,
) -> bool {
    0 <= i < batch.len() && done.contains(batch[i].ingress) && crate::shown::signals_to(
        crate::shown::signals_by(batch[i]),
        e,
        v,
    )
}

/// A completed transaction signals the event to the value.
spec fn signalled(
    batch: Seq<ExecTransaction>,
    done: Seq<IngressOrdinal>,
    e: ResourceId,
    v: u64,
) -> bool {
    exists|i: int| signalled_by(batch, done, i, e, v)
}

/// An event stands at the highest value signalled.
spec fn event_stands(
    batch: Seq<ExecTransaction>,
    done: Seq<IngressOrdinal>,
    m: InterpreterModel,
    e: ResourceId,
) -> bool {
    &&& m.event_value(e) == 0 || signalled(batch, done, e, m.event_value(e))
    &&& forall|v: u64| #[trigger] signalled(batch, done, e, v) ==> v <= m.event_value(e)
}

/// The slot holds what the transactions before some place put into it.
spec fn holds_first_values(batch: Seq<ExecTransaction>, p: Progress, slot: StampSlot) -> bool {
    exists|m: int|
        0 <= m <= batch.len() && crate::stamped::values_in(p.releases, slot)
            == #[trigger] crate::stamped::slot_list(batch, slot, m)
}

/// The spans are the completions, end to end, versions before stamps.
spec fn spans_stand(done: Seq<IngressOrdinal>, p: Progress) -> bool {
    &&& p.spans.len() == done.len()
    &&& p.interp.trace.len() == (if p.spans.len() == 0 {
        0
    } else {
        p.spans.last().end
    })
    &&& forall|k: int|
        0 <= k < p.spans.len() ==> {
            &&& (#[trigger] p.spans[k]).ordinal == done[k]
            &&& 0 <= p.spans[k].start <= p.spans[k].end <= p.interp.trace.len()
            &&& p.spans[k].start == (if k == 0 {
                0
            } else {
                p.spans[k - 1].end
            })
            &&& !crate::diverge::stamp_leads(p.interp.trace, p.spans[k].start, p.spans[k].end)
        }
}

/// What the run shows is each completed transaction's part of it.
spec fn is_the_parts(
    batch: Seq<ExecTransaction>,
    done: Seq<IngressOrdinal>,
    m: InterpreterModel,
) -> bool {
    &&& forall|b: BackingId| #[trigger]
        crate::diverge::history(m.trace, b) == crate::words::joined(version_words(batch, b), done)
    &&& forall|f: ResourceId| #[trigger]
        crate::diverge::fence_count(m.trace, f) == crate::words::joined(
            fence_words(batch, f),
            done,
        ).len()
    &&& forall|e: ResourceId| #[trigger] event_stands(batch, done, m, e)
}

/// Everything a run has done is accounted for by which transactions have
/// completed, and in what order.
spec fn is_sound(
    batch: Seq<ExecTransaction>,
    done: Seq<IngressOrdinal>,
    p: Progress,
    r: Readiness,
) -> bool {
    &&& done.no_duplicates()
    &&& forall|k: int|
        0 <= k < done.len() ==> crate::schedule::holds(batch, #[trigger] done[k])
    &&& crate::drained::is_drained(batch, done, p)
    &&& crate::settled::is_settled(batch, done, p.releases, r)
    &&& crate::shown::is_tracked(p.interp)
    &&& crate::shown::shows_values(p.interp, p.releases)
    &&& is_the_parts(batch, done, p.interp)
    &&& spans_stand(done, p)
}

proof fn lemma_sound_start(batch: Seq<ExecTransaction>)
    requires
        has_one_meaning(batch),
    ensures
        is_sound(
            batch,
            Seq::empty(),
            crate::schedule::progress_after(batch, Seq::empty()),
            crate::schedule::readiness_after(batch, Seq::empty()),
        ),
{
    let none = Seq::<IngressOrdinal>::empty();
    let p = crate::schedule::progress_after(batch, none);
    crate::drained::lemma_drained_start(batch);
    crate::settled::lemma_settled_start(batch);
    assert forall|k: int| !#[trigger] crate::diverge::goes_back(p.interp.trace, k) by {}
    assert forall|e: ResourceId| #[trigger] event_stands(batch, none, p.interp, e) by {
        assert forall|v: u64| !#[trigger] signalled(batch, none, e, v) by {
            if signalled(batch, none, e, v) {
                let i = choose|i: int| signalled_by(batch, none, i, e, v);
                assert(none.contains(batch[i].ingress));
            }
        }
    }
}

/// What a permitted schedule has put into a slot is what the transactions before
/// some place put there.
proof fn lemma_first_values(
    batch: Seq<ExecTransaction>,
    done: Seq<IngressOrdinal>,
    slot: StampSlot,
)
    requires
        has_one_meaning(batch),
        crate::schedule::permitted(batch, done),
        crate::drained::is_drained(
            batch,
            done,
            crate::schedule::progress_after(batch, done),
        ),
    ensures
        holds_first_values(batch, crate::schedule::progress_after(batch, done), slot),
{
    let p = crate::schedule::progress_after(batch, done);
    crate::completion::lemma_stamp_order(batch, done, slot);
    crate::heard::lemma_words_are_own(batch, done, p);
    crate::heard::lemma_stampers_told(batch, done, p, slot);
    let m = crate::heard::lemma_ordered_list(
        batch,
        slot,
        crate::completion::stamped_by(batch, done, slot),
    );
}

/// What a slot holds climbs.
proof fn lemma_values_climb(batch: Seq<ExecTransaction>, p: Progress, slot: StampSlot)
    requires
        has_one_meaning(batch),
        holds_first_values(batch, p, slot),
    ensures
        crate::stamped::climbs(crate::stamped::values_in(p.releases, slot)),
{
    let m = choose|m: int|
        0 <= m <= batch.len() && crate::stamped::values_in(p.releases, slot)
            == #[trigger] crate::stamped::slot_list(batch, slot, m);
    crate::stamped::lemma_list_climbs(batch, slot, m);
}

/// A ready transaction is not refused.
proof fn lemma_runs(
    batch: Seq<ExecTransaction>,
    done: Seq<IngressOrdinal>,
    p: Progress,
    r: Readiness,
    i: int,
)
    requires
        has_one_meaning(batch),
        is_sound(batch, done, p, r),
        forall|slot: StampSlot| #[trigger] holds_first_values(batch, p, slot),
        0 <= i < batch.len(),
        forall|x: IngressOrdinal|
            #[trigger] crate::settled::held_behind(batch, i, x) && crate::settled::comes_before(
                batch,
                i,
                x,
            ) ==> done.contains(x),
        forall|w: StampWait| #[trigger]
            crate::schedule::stamp_waits_of(batch[i].prerequisites@).contains(w)
                ==> crate::stamped::answered_in(
                crate::stamped::values_in(p.releases, w.slot),
                w,
            ),
    ensures
        p.interp.refusal(batch[i]) is None,
{
    let ps = batch[i].prerequisites@;
    let m = p.interp;
    assert forall|k: int| 0 <= k < ps.len() implies m.met(#[trigger] ps[k]) by {
        match ps[k] {
            Prerequisite::Stamp(w) => {
                crate::answered::lemma_prerequisite_point(ps, k);
                assert(crate::stamped::stays_answered(
                    crate::stamped::slot_list(batch, w.slot, batch.len() as int),
                    w,
                ));
                assert(holds_first_values(batch, p, w.slot));
                let n = choose|n: int|
                    0 <= n <= batch.len() && crate::stamped::values_in(p.releases, w.slot)
                        == #[trigger] crate::stamped::slot_list(batch, w.slot, n);
                crate::stamped::lemma_still_met(batch, w, n);
                assert(crate::ready::standing(m.stamps, w.slot) == crate::settled::last_of(
                    crate::stamped::values_in(p.releases, w.slot),
                ));
            },
            Prerequisite::Event { event, value } => {
                let found = crate::answered::lemma_event_answered(batch, i, k);
                let by = found.0;
                let o = batch[by].ingress;
                assert(crate::settled::comes_before(batch, i, o));
                assert(crate::settled::held_behind(batch, i, o));
                let signals = crate::shown::signals_by(batch[by]);
                let signal = signals[found.1];
                match signal {
                    Production::Event { event: produced, value: at } => {
                        assert(crate::shown::signals_to(signals, event, at));
                        assert(signalled_by(batch, done, by, event, at));
                        assert(event_stands(batch, done, m, event));
                        assert(signalled(batch, done, event, at));
                    },
                    Production::Stamp { .. } => {},
                }
            },
            Prerequisite::Fence { .. } => {
                assert(!crate::eligible::waits_for_fence(batch, i));
                assert(crate::eligible::has_fence(ps));
            },
        }
    }
}

/// The spans with one more completion.
proof fn lemma_spans_step(
    done: Seq<IngressOrdinal>,
    p: Progress,
    tx: ExecTransaction,
    worked: InterpreterModel,
)
    requires
        spans_stand(done, p),
        p.interp.performed(tx) == worked,
        crate::shown::work_shows(p.interp, tx, worked),
        crate::shown::stamps_show(worked, p.finished(tx).interp),
    ensures
        spans_stand(done.push(tx.ingress), p.finished(tx)),
{
    let next = done.push(tx.ingress);
    let after = p.finished(tx);
    let before = p.interp.trace;
    let mid = worked.trace;
    let trace = after.interp.trace;
    assert forall|k: int| 0 <= k < before.len() implies trace[k] == before[k] by {
        assert(trace.take(mid.len() as int)[k] == mid[k]);
        assert(mid.take(before.len() as int)[k] == before[k]);
    }
    assert forall|k: int| 0 <= k < after.spans.len() implies {
        &&& (#[trigger] after.spans[k]).ordinal == next[k]
        &&& 0 <= after.spans[k].start <= after.spans[k].end <= trace.len()
        &&& after.spans[k].start == (if k == 0 {
            0
        } else {
            after.spans[k - 1].end
        })
        &&& !crate::diverge::stamp_leads(trace, after.spans[k].start, after.spans[k].end)
    } by {
        if k < p.spans.len() {
            let span = p.spans[k];
            assert(after.spans[k] == span);
            if k > 0 {
                assert(after.spans[k - 1] == p.spans[k - 1]);
            }
            if crate::diverge::stamp_leads(trace, span.start, span.end) {
                let (x, y) = choose|x: int, y: int|
                    span.start <= x < y < span.end && (#[trigger] trace[x]) is StampPublished && (
                    #[trigger] trace[y]) is VersionPublished;
                assert(before[x] is StampPublished && before[y] is VersionPublished);
            }
        } else {
            let span = after.spans[k];
            if k > 0 {
                assert(after.spans[k - 1] == p.spans[k - 1]);
            }
            if crate::diverge::stamp_leads(trace, span.start, span.end) {
                let (x, y) = choose|x: int, y: int|
                    span.start <= x < y < span.end && (#[trigger] trace[x]) is StampPublished && (
                    #[trigger] trace[y]) is VersionPublished;
                if x < mid.len() {
                    assert(trace.take(mid.len() as int)[x] == mid[x]);
                    assert(!(mid[x] is StampPublished));
                } else {
                    assert(trace[y] is StampPublished);
                }
            }
        }
    }
}

/// The events with one more completion.
proof fn lemma_events_step(
    batch: Seq<ExecTransaction>,
    done: Seq<IngressOrdinal>,
    m: InterpreterModel,
    after: InterpreterModel,
    i: int,
    e: ResourceId,
)
    requires
        crate::schedule::in_order(batch),
        0 <= i < batch.len(),
        event_stands(batch, done, m, e),
        crate::shown::event_moved(
            m.event_value(e),
            after.event_value(e),
            crate::shown::signals_by(batch[i]),
            e,
        ),
    ensures
        event_stands(batch, done.push(batch[i].ingress), after, e),
{
    let next = done.push(batch[i].ingress);
    assert forall|v: u64| #[trigger]
        signalled(batch, next, e, v) == (signalled(batch, done, e, v) || crate::shown::signals_to(
            crate::shown::signals_by(batch[i]),
            e,
            v,
        )) by {
        if signalled(batch, next, e, v) {
            let j = choose|j: int| signalled_by(batch, next, j, e, v);
            crate::drained::lemma_push_contains(done, batch[i].ingress, batch[j].ingress);
            if done.contains(batch[j].ingress) {
                assert(signalled_by(batch, done, j, e, v));
            } else if j < i {
                assert(batch[j].ingress.0 < batch[i].ingress.0);
            } else if i < j {
                assert(batch[i].ingress.0 < batch[j].ingress.0);
            }
        }
        if signalled(batch, done, e, v) {
            let j = choose|j: int| signalled_by(batch, done, j, e, v);
            crate::drained::lemma_push_contains(done, batch[i].ingress, batch[j].ingress);
            assert(signalled_by(batch, next, j, e, v));
        }
        if crate::shown::signals_to(crate::shown::signals_by(batch[i]), e, v) {
            crate::drained::lemma_push_contains(done, batch[i].ingress, batch[i].ingress);
            assert(signalled_by(batch, next, i, e, v));
        }
    }
    let value = after.event_value(e);
    assert(signalled(batch, next, e, value) == (signalled(batch, done, e, value)
        || crate::shown::signals_to(crate::shown::signals_by(batch[i]), e, value)));
}

/// What the run shows with one more completion.
proof fn lemma_parts_step(
    batch: Seq<ExecTransaction>,
    done: Seq<IngressOrdinal>,
    m: InterpreterModel,
    worked: InterpreterModel,
    after: InterpreterModel,
    i: int,
)
    requires
        crate::schedule::in_order(batch),
        0 <= i < batch.len(),
        is_the_parts(batch, done, m),
        crate::shown::work_shows(m, batch[i], worked),
        crate::shown::stamps_show(worked, after),
    ensures
        is_the_parts(batch, done.push(batch[i].ingress), after),
{
    let tx = batch[i];
    let next = done.push(tx.ingress);
    crate::schedule::lemma_tx_of(batch, i);
    assert(next.drop_last() =~= done);
    assert forall|b: BackingId| #[trigger]
        crate::diverge::history(after.trace, b) == crate::words::joined(
            version_words(batch, b),
            next,
        ) by {
        assert(crate::diverge::history(worked.trace, b) == crate::diverge::history(m.trace, b)
            + crate::shown::versions_of(tx, b));
        assert(crate::diverge::history(m.trace, b) == crate::words::joined(
            version_words(batch, b),
            done,
        ));
    }
    assert forall|f: ResourceId| #[trigger]
        crate::diverge::fence_count(after.trace, f) == crate::words::joined(
            fence_words(batch, f),
            next,
        ).len() by {
        assert(crate::diverge::fence_count(worked.trace, f) == crate::diverge::fence_count(
            m.trace,
            f,
        ) + crate::shown::updates_of(tx, f));
        assert(crate::diverge::fence_count(m.trace, f) == crate::words::joined(
            fence_words(batch, f),
            done,
        ).len());
    }
    assert forall|e: ResourceId| #[trigger] event_stands(batch, next, after, e) by {
        assert(event_stands(batch, done, m, e));
        assert(crate::shown::event_moved(
            m.event_value(e),
            worked.event_value(e),
            crate::shown::signals_by(tx),
            e,
        ));
        assert(after.event_value(e) == worked.event_value(e));
        lemma_events_step(batch, done, m, after, i, e);
    }
}

/// A ready transaction is outstanding, and every stamp it waited for has been
/// put into its slot.
proof fn lemma_ready_answers(
    batch: Seq<ExecTransaction>,
    done: Seq<IngressOrdinal>,
    p: Progress,
    r: Readiness,
    o: IngressOrdinal,
) -> (i: int)
    requires
        has_one_meaning(batch),
        forall|slot: StampSlot| #[trigger] holds_first_values(batch, p, slot),
        crate::settled::is_settled(batch, done, p.releases, r),
        crate::schedule::ready_list(r.rows).contains(o),
    ensures
        0 <= i < batch.len(),
        batch[i].ingress == o,
        !done.contains(o),
        crate::ready::is_pending(r.rows, o),
        forall|x: IngressOrdinal|
            #[trigger] crate::settled::held_behind(batch, i, x) && crate::settled::comes_before(
                batch,
                i,
                x,
            ) ==> done.contains(x),
        forall|w: StampWait| #[trigger]
            crate::schedule::stamp_waits_of(batch[i].prerequisites@).contains(w)
                ==> crate::stamped::answered_in(
                crate::stamped::values_in(p.releases, w.slot),
                w,
            ),
{
    let i = crate::settled::lemma_ready(batch, done, p.releases, r, o);
    assert forall|w: StampWait| #[trigger]
        crate::schedule::stamp_waits_of(batch[i].prerequisites@).contains(
            w,
        ) implies crate::stamped::answered_in(crate::stamped::values_in(p.releases, w.slot), w) by {
        let values = crate::stamped::values_in(p.releases, w.slot);
        assert(holds_first_values(batch, p, w.slot));
        lemma_values_climb(batch, p, w.slot);
        crate::heard::lemma_climbing_stands(values);
        assert(crate::heard::is_heard(values, w));
    }
    i
}

/// Work shows no word.
proof fn lemma_still_shows(p: Progress, tx: ExecTransaction, worked: InterpreterModel)
    requires
        crate::shown::shows_values(p.interp, p.releases),
        crate::shown::work_shows(p.interp, tx, worked),
    ensures
        crate::shown::shows_values(worked, p.releases),
{
    assert forall|slot: StampSlot| #[trigger]
        crate::diverge::stamp_rest(worked.trace, slot) == crate::shown::rest_of(
            crate::stamped::values_in(p.releases, slot),
        ) by {
        assert(crate::diverge::stamp_rest(p.interp.trace, slot) == crate::shown::rest_of(
            crate::stamped::values_in(p.releases, slot),
        ));
    }
}

/// Completing a ready transaction leaves everything accounted for.
proof fn lemma_sound_step(
    batch: Seq<ExecTransaction>,
    done: Seq<IngressOrdinal>,
    p: Progress,
    r: Readiness,
    next: Seq<IngressOrdinal>,
)
    requires
        has_one_meaning(batch),
        crate::schedule::permitted(batch, next),
        next.len() > 0,
        done == next.drop_last(),
        p == crate::schedule::progress_after(batch, done),
        r == crate::schedule::readiness_after(batch, done),
        is_sound(batch, done, p, r),
    ensures
        is_sound(
            batch,
            next,
            crate::schedule::progress_after(batch, next),
            crate::schedule::readiness_after(batch, next),
        ),
{
    let o = next.last();
    crate::completion::lemma_permitted_so_far(batch, next);
    assert forall|slot: StampSlot| #[trigger] holds_first_values(batch, p, slot) by {
        lemma_first_values(batch, done, slot);
    }
    let i = lemma_ready_answers(batch, done, p, r, o);
    crate::schedule::lemma_tx_of(batch, i);
    let tx = batch[i];
    let after = p.finished(tx);
    let fresh = p.releases_of(tx);
    lemma_runs(batch, done, p, r, i);
    crate::drained::lemma_drained_step(batch, done, p, i);
    lemma_own_words(batch, next, p, tx, i);
    crate::settled::lemma_settled_step(batch, done, p.releases, r, o, tx.domain, fresh);
    let worked = p.interp.worked(tx);
    crate::shown::lemma_worked(p.interp, tx);
    lemma_still_shows(p, tx, worked);
    assert forall|slot: StampSlot| #[trigger]
        crate::stamped::climbs(
            crate::stamped::values_in(
                p.releases + crate::schedule::released_as(tx.domain, fresh),
                slot,
            ),
        ) by {
        lemma_first_values(batch, next, slot);
        lemma_values_climb(batch, after, slot);
    }
    crate::shown::lemma_all_stamped(worked, p.releases, tx.domain, fresh);
    assert(after.interp == crate::schedule::all_stamped(worked, fresh));
    lemma_spans_step(done, p, tx, worked);
    lemma_parts_step(batch, done, p.interp, worked, after.interp, i);
    crate::completion::lemma_done_step(batch, done, i);
}

/// What a transaction that is not refused releases carries its own words.
proof fn lemma_own_words(
    batch: Seq<ExecTransaction>,
    next: Seq<IngressOrdinal>,
    p: Progress,
    tx: ExecTransaction,
    i: int,
)
    requires
        crate::schedule::in_order(batch),
        0 <= i < batch.len(),
        tx == batch[i],
        crate::drained::is_drained(batch, next, p.finished(tx)),
    ensures
        crate::schedule::words_of(batch, tx.domain, p.releases_of(tx)) == p.releases_of(tx),
{
    let fresh = p.releases_of(tx);
    let words = crate::schedule::words_of(batch, tx.domain, fresh);
    let all = p.finished(tx).releases;
    crate::heard::lemma_words_are_own(batch, next, p.finished(tx));
    assert forall|k: int| 0 <= k < fresh.len() implies words[k] == fresh[k] by {
        let at = p.releases.len() + k;
        assert(all[at] == crate::schedule::released_as(tx.domain, fresh)[k]);
        assert(crate::heard::worded_releases(batch, all)[at] == all[at]);
    }
    assert(words =~= fresh);
}

/// A permitted schedule leaves everything accounted for.
proof fn lemma_sound(batch: Seq<ExecTransaction>, done: Seq<IngressOrdinal>)
    requires
        has_one_meaning(batch),
        crate::schedule::permitted(batch, done),
    ensures
        is_sound(
            batch,
            done,
            crate::schedule::progress_after(batch, done),
            crate::schedule::readiness_after(batch, done),
        ),
    decreases done.len(),
{
    if done.len() == 0 {
        assert(done =~= Seq::<IngressOrdinal>::empty());
        lemma_sound_start(batch);
    } else {
        let init = done.drop_last();
        crate::completion::lemma_permitted_so_far(batch, done);
        lemma_sound(batch, init);
        lemma_sound_step(
            batch,
            init,
            crate::schedule::progress_after(batch, init),
            crate::schedule::readiness_after(batch, init),
            done,
        );
    }
}

proof fn lemma_one_value_commutes<T>(a: Seq<T>, b: Seq<T>)
    requires
        forall|x: int, y: int|
            0 <= x < a.len() && 0 <= y < b.len() ==> (#[trigger] a[x]) == (#[trigger] b[y]),
    ensures
        crate::words::commute(a, b),
{
    if a.len() == 0 {
        assert(a + b =~= b + a);
    } else if b.len() == 0 {
        assert(a + b =~= b + a);
    } else {
        let v = a[0];
        assert forall|y: int| 0 <= y < b.len() implies (#[trigger] b[y]) == v by {}
        assert forall|x: int| 0 <= x < a.len() implies (#[trigger] a[x]) == v by {
            assert(a[x] == b[0]);
        }
        assert(a + b =~= b + a);
    }
}

proof fn lemma_content_kept(batch: Seq<ExecTransaction>, order: Seq<IngressOrdinal>, b: BackingId)
    requires
        has_one_meaning(batch),
        crate::schedule::permitted(batch, order),
        order.no_duplicates(),
        forall|k: int| 0 <= k < order.len() ==> crate::schedule::holds(batch, #[trigger] order[k]),
    ensures
        crate::words::keeps(version_words(batch, b), order),
{
    let words = version_words(batch, b);
    assert forall|x: int, y: int|
        0 <= x < y < order.len() && (#[trigger] order[x]).0 > (#[trigger] order[y]).0 implies crate::words::commute(
        words(order[x]),
        words(order[y]),
    ) by {
        let j = crate::schedule::lemma_index(batch, order[x]);
        let i = crate::schedule::lemma_index(batch, order[y]);
        assert(i < j) by {
            if j < i {
                assert(batch[j].ingress.0 < batch[i].ingress.0);
            }
        }
        if versions_clash(batch, i, j, b) {
            crate::follow::what_is_always_after_completes_after(
                batch,
                order,
                x,
                j,
                batch[i].ingress,
            );
            let c = choose|c: int| 0 <= c < order.take(x).len() && order.take(x)[c] == order[y];
            assert(order[c] == order[y]);
        }
    }
}

proof fn lemma_spans_climb(done: Seq<IngressOrdinal>, p: Progress, a: int, b: int)
    requires
        spans_stand(done, p),
        0 <= a <= b < p.spans.len(),
    ensures
        p.spans[a].start <= p.spans[b].start,
    decreases b,
{
    if a < b {
        lemma_spans_climb(done, p, a, b - 1);
        assert(p.spans[b - 1].start <= p.spans[b - 1].end);
        assert(p.spans[b].start == p.spans[b - 1].end);
    }
}

/// The observations of a sound run's completions are contiguous.
proof fn lemma_atomic(done: Seq<IngressOrdinal>, p: Progress, run: Run)
    requires
        spans_stand(done, p),
        crate::schedule::did(run, p),
    ensures
        crate::diverge::is_atomic(run),
        crate::schedule::order_of(run) == done,
{
    let spans = crate::schedule::spans_of(run.spans@);
    let all = crate::diverge::all_windows(run);
    assert forall|k: int| 0 <= k < all.len() implies (#[trigger] all[k]).start == p.spans[k].start
        && all[k].end == p.spans[k].end by {
        assert(spans[k] == p.spans[k]);
    }
    assert forall|a: int, b: int| 0 <= a < b < all.len() implies crate::diverge::Keyed::key(
        #[trigger] all[a],
    ) <= crate::diverge::Keyed::key(#[trigger] all[b]) by {
        lemma_spans_climb(done, p, a, b);
    }
    crate::words::lemma_already_sorted(all);
    let ws = crate::diverge::windows(run);
    assert(ws == all);
    assert forall|k: int|
        !(#[trigger] crate::diverge::splits(ws, k)) && !crate::diverge::leads(
            run.trace@,
            ws,
            k,
        ) by {
        if 0 <= k < ws.len() {
            assert(p.spans[k].ordinal == done[k]);
            if k > 0 {
                assert(p.spans[k - 1].ordinal == done[k - 1]);
            }
        }
    }
    let order = crate::schedule::order_of(run);
    assert forall|k: int| 0 <= k < order.len() implies order[k] == done[k] by {
        assert(spans[k] == p.spans[k]);
        assert(p.spans[k].ordinal == done[k]);
    }
    assert(order =~= done);
}

/// Both runs put the same values into every slot.
proof fn lemma_same_values(
    batch: Seq<ExecTransaction>,
    a: Seq<IngressOrdinal>,
    b: Seq<IngressOrdinal>,
    slot: StampSlot,
)
    requires
        has_one_meaning(batch),
        crate::schedule::permitted(batch, a),
        crate::schedule::permitted(batch, b),
        crate::drained::is_drained(batch, a, crate::schedule::progress_after(batch, a)),
        crate::drained::is_drained(batch, b, crate::schedule::progress_after(batch, b)),
        forall|i: int| 0 <= i < batch.len() ==> a.contains((#[trigger] batch[i]).ingress),
        forall|i: int| 0 <= i < batch.len() ==> b.contains((#[trigger] batch[i]).ingress),
    ensures
        crate::stamped::values_in(crate::schedule::progress_after(batch, a).releases, slot)
            == crate::stamped::values_in(
            crate::schedule::progress_after(batch, b).releases,
            slot,
        ),
{
    lemma_all_values(batch, a, slot);
    lemma_all_values(batch, b, slot);
}

/// Once everything has completed a slot holds all that is put into it.
proof fn lemma_all_values(
    batch: Seq<ExecTransaction>,
    done: Seq<IngressOrdinal>,
    slot: StampSlot,
)
    requires
        has_one_meaning(batch),
        crate::schedule::permitted(batch, done),
        crate::drained::is_drained(
            batch,
            done,
            crate::schedule::progress_after(batch, done),
        ),
        forall|i: int| 0 <= i < batch.len() ==> done.contains((#[trigger] batch[i]).ingress),
    ensures
        crate::stamped::values_in(crate::schedule::progress_after(batch, done).releases, slot)
            == crate::stamped::slot_list(batch, slot, batch.len() as int),
{
    let p = crate::schedule::progress_after(batch, done);
    let order = crate::completion::stamped_by(batch, done, slot);
    crate::completion::lemma_stamp_order(batch, done, slot);
    crate::heard::lemma_words_are_own(batch, done, p);
    crate::heard::lemma_stampers_told(batch, done, p, slot);
    let m = crate::heard::lemma_ordered_list(batch, slot, order);
    assert forall|j: int| m <= j < batch.len() implies !crate::stamped::stamps_slot(
        #[trigger] batch[j],
        slot,
    ) by {
        if crate::stamped::stamps_slot(batch[j], slot) {
            assert(crate::stamped::told_through(batch, done, j));
            assert(order.contains(j));
        }
    }
    crate::stamped::lemma_list_gap(batch, slot, m, batch.len() as int);
}

/// Both runs leave every event where it was.
proof fn lemma_same_event(
    batch: Seq<ExecTransaction>,
    a: Seq<IngressOrdinal>,
    m: InterpreterModel,
    b: Seq<IngressOrdinal>,
    n: InterpreterModel,
    e: ResourceId,
)
    requires
        event_stands(batch, a, m, e),
        event_stands(batch, b, n, e),
        forall|o: IngressOrdinal| #[trigger] a.contains(o) == b.contains(o),
    ensures
        m.event_value(e) == n.event_value(e),
{
    assert forall|v: u64| #[trigger] signalled(batch, a, e, v) == signalled(batch, b, e, v) by {
        if signalled(batch, a, e, v) {
            let i = choose|i: int| signalled_by(batch, a, i, e, v);
            assert(a.contains(batch[i].ingress) == b.contains(batch[i].ingress));
            assert(signalled_by(batch, b, i, e, v));
        }
        if signalled(batch, b, e, v) {
            let i = choose|i: int| signalled_by(batch, b, i, e, v);
            assert(a.contains(batch[i].ingress) == b.contains(batch[i].ingress));
            assert(signalled_by(batch, a, i, e, v));
        }
    }
    assert(signalled(batch, a, e, m.event_value(e)) == signalled(batch, b, e, m.event_value(e)));
    assert(signalled(batch, a, e, n.event_value(e)) == signalled(batch, b, e, n.event_value(e)));
}

/// Every permitted schedule, driven until nothing is ready, means what the
/// serial one meant.
///
/// Every transaction completes in both runs, none is refused, and the two runs
/// agree.
pub proof fn every_permitted_schedule_means_what_the_serial_one_meant(
    batch: Seq<ExecTransaction>,
    serial: Run,
    parallel: Run,
)
    requires
        has_one_meaning(batch),
        crate::schedule::did(
            serial,
            crate::schedule::progress_after(batch, crate::schedule::ordinals(batch)),
        ),
        crate::schedule::did(
            parallel,
            crate::schedule::progress_after(batch, crate::schedule::order_of(parallel)),
        ),
        crate::schedule::permitted(batch, crate::schedule::order_of(parallel)),
        crate::schedule::exhausted(batch, crate::schedule::order_of(parallel)),
    ensures
        crate::diverge::agree(serial, parallel),
        crate::words::is_shuffle(
            crate::schedule::order_of(parallel),
            crate::schedule::ordinals(batch),
        ),
        crate::diverge::refusals_in(serial.trace@).len() == 0,
        crate::diverge::refusals_in(parallel.trace@).len() == 0,
{
    let base = crate::schedule::ordinals(batch);
    let order = crate::schedule::order_of(parallel);
    let p = crate::schedule::progress_after(batch, base);
    let q = crate::schedule::progress_after(batch, order);
    crate::heard::climbing_slots_answer(batch);
    crate::completion::an_eligible_batch_stamps_before_it_waits(batch);
    crate::completion::ingress_order_is_permitted(batch);
    crate::completion::lemma_all_complete(batch, order);
    lemma_sound(batch, base);
    lemma_sound(batch, order);
    crate::words::lemma_ordinals_ascend(batch);
    assert forall|o: IngressOrdinal| #[trigger] base.contains(o) == order.contains(o) by {
        assert(order.contains(o) == base.contains(o));
    }
    assert forall|i: int| 0 <= i < batch.len() implies base.contains((#[trigger] batch[i]).ingress) by {
        assert(base[i] == batch[i].ingress);
    }
    assert forall|i: int| 0 <= i < batch.len() implies order.contains(
        (#[trigger] batch[i]).ingress,
    ) by {
        assert(base.contains(batch[i].ingress) == order.contains(batch[i].ingress));
    }
    lemma_atomic(base, p, serial);
    lemma_atomic(order, q, parallel);
    crate::words::lemma_sorts_back(order, base);
    crate::words::lemma_already_sorted(base);
    assert(crate::diverge::same_content(serial.trace@, parallel.trace@)) by {
        assert forall|b: BackingId| #[trigger]
            crate::diverge::history(p.interp.trace, b) == crate::diverge::history(
                q.interp.trace,
                b,
            ) by {
            assert(crate::diverge::history(p.interp.trace, b) == crate::words::joined(
                version_words(batch, b),
                base,
            ));
            assert(crate::diverge::history(q.interp.trace, b) == crate::words::joined(
                version_words(batch, b),
                order,
            ));
            lemma_content_kept(batch, order, b);
            crate::words::lemma_shuffled_words(version_words(batch, b), order, base);
        }
    }
    assert(crate::diverge::same_fences(serial.trace@, parallel.trace@)) by {
        assert forall|f: ResourceId| #[trigger]
            crate::diverge::fence_count(p.interp.trace, f) == crate::diverge::fence_count(
                q.interp.trace,
                f,
            ) by {
            assert(crate::diverge::fence_count(p.interp.trace, f) == crate::words::joined(
                fence_words(batch, f),
                base,
            ).len());
            assert(crate::diverge::fence_count(q.interp.trace, f) == crate::words::joined(
                fence_words(batch, f),
                order,
            ).len());
            let words = fence_words(batch, f);
            assert forall|x: int, y: int|
                0 <= x < y < order.len() && (#[trigger] order[x]).0 > (
                #[trigger] order[y]).0 implies crate::words::commute(
                words(order[x]),
                words(order[y]),
            ) by {
                lemma_one_value_commutes(words(order[x]), words(order[y]));
            }
            crate::words::lemma_shuffled_words(words, order, base);
        }
    }
    assert(crate::diverge::same_events(serial.trace@, parallel.trace@)) by {
        assert forall|e: ResourceId| #[trigger]
            crate::diverge::event_rest(p.interp.trace, e) == crate::diverge::event_rest(
                q.interp.trace,
                e,
            ) by {
            assert(crate::diverge::event_rest(q.interp.trace, e) == q.interp.event_value(e));
            assert(event_stands(batch, base, p.interp, e));
            assert(event_stands(batch, order, q.interp, e));
            lemma_same_event(batch, base, p.interp, order, q.interp, e);
        }
    }
    assert(crate::diverge::same_stamps(serial.trace@, parallel.trace@)) by {
        assert forall|slot: StampSlot| #[trigger]
            crate::diverge::stamp_rest(p.interp.trace, slot) == crate::diverge::stamp_rest(
                q.interp.trace,
                slot,
            ) by {
            lemma_same_values(batch, base, order, slot);
            assert(crate::diverge::stamp_rest(q.interp.trace, slot) == crate::shown::rest_of(
                crate::stamped::values_in(q.releases, slot),
            ));
        }
    }
    assert(crate::diverge::same_publications(serial.releases@, parallel.releases@)) by {
        assert forall|d: ChannelId| #[trigger]
            crate::schedule::released_on(p.releases, d) == crate::schedule::released_on(
                q.releases,
                d,
            ) by {
            assert(crate::drained::channel_drained(batch, base, p, d));
            assert(crate::drained::channel_drained(batch, order, q, d));
            crate::drained::a_channel_tells_what_completed(batch, base, order, d);
        }
    }
    assert(crate::diverge::refusals_in(serial.trace@) =~= crate::diverge::refusals_in(
        parallel.trace@,
    ));
}

} // verus!
