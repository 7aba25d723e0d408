//! A batch of a closed generation.
//!
//! The interpreter refuses all of it, so the guest sees no word of it, and every
//! schedule refuses the same transactions and tells the guest nothing but that
//! their positions are past.

use vstd::prelude::*;
use crate::access::BackingId;
use crate::exec::{ExecTransaction, PublicationContract};
use crate::identity::{
    ChannelId, IngressOrdinal, ResourceId, SessionGeneration, StampSlot,
};
use crate::interpret::{Observation, Refusal};
use crate::schedule::{ChannelRelease, Progress, Run, Span};

verus! {

/// No transaction is of the generation an interpreter starts in.
pub open spec fn is_stale(batch: Seq<ExecTransaction>) -> bool {
    forall|i: int|
        0 <= i < batch.len() ==> (#[trigger] batch[i]).session != SessionGeneration(1)
}

/// The transaction without its stamp.
spec fn muted(tx: ExecTransaction) -> ExecTransaction {
    ExecTransaction { publication: PublicationContract { stamp: None }, ..tx }
}

/// The batch without its stamps.
spec fn all_muted(batch: Seq<ExecTransaction>) -> Seq<ExecTransaction> {
    batch.map_values(|tx: ExecTransaction| muted(tx))
}

/// What refusing these transactions shows.
spec fn turned(done: Seq<IngressOrdinal>) -> Seq<Observation> {
    done.map_values(
        |o: IngressOrdinal| Observation::Refused { ingress: o, reason: Refusal::StaleGeneration },
    )
}

/// The refusals, by transaction.
spec fn refusals_of(done: Seq<IngressOrdinal>) -> Seq<(IngressOrdinal, Refusal)> {
    done.map_values(|o: IngressOrdinal| (o, Refusal::StaleGeneration))
}

/// One observation for each completion, in order.
spec fn unit_spans(done: Seq<IngressOrdinal>) -> Seq<Span> {
    Seq::new(done.len(), |k: int| Span { ordinal: done[k], start: k, end: k + 1 })
}

/// Everything so far has been refused.
spec fn is_refused(batch: Seq<ExecTransaction>, done: Seq<IngressOrdinal>, p: Progress) -> bool {
    &&& crate::drained::is_drained(all_muted(batch), done, p)
    &&& p.interp.generation == SessionGeneration(1)
    &&& p.interp.trace == turned(done)
    &&& p.spans == unit_spans(done)
    &&& forall|k: int| 0 <= k < p.releases.len() ==> (#[trigger] p.releases[k]).stamp is None
}

proof fn lemma_muted(batch: Seq<ExecTransaction>)
    requires
        crate::schedule::in_order(batch),
    ensures
        crate::schedule::in_order(all_muted(batch)),
        all_muted(batch).len() == batch.len(),
        forall|i: int|
            0 <= i < batch.len() ==> (#[trigger] all_muted(batch)[i]) == muted(batch[i]),
{
    let quiet = all_muted(batch);
    assert forall|i: int, j: int| 0 <= i < j < quiet.len() implies (#[trigger] quiet[i]).ingress.0 < (
    #[trigger] quiet[j]).ingress.0 by {
        assert(batch[i].ingress.0 < batch[j].ingress.0);
    }
    assert forall|i: int, j: int|
        0 <= i < j < quiet.len() && (#[trigger] quiet[i]).domain == (
        #[trigger] quiet[j]).domain implies quiet[i].domain_sequence.0
        < quiet[j].domain_sequence.0 by {
        assert(batch[i].domain == batch[j].domain);
    }
}

proof fn lemma_muted_queues(batch: Seq<ExecTransaction>, n: int)
    requires
        0 <= n <= batch.len(),
    ensures
        crate::schedule::queues_of(all_muted(batch), n) == crate::schedule::queues_of(batch, n),
    decreases n,
{
    if n > 0 {
        lemma_muted_queues(batch, n - 1);
        assert(all_muted(batch)[n - 1] == muted(batch[n - 1]));
    }
}

/// A stamp that is not owed is not there.
proof fn lemma_silent_releases(
    batch: Seq<ExecTransaction>,
    done: Seq<IngressOrdinal>,
    p: Progress,
    k: int,
)
    requires
        crate::schedule::in_order(batch),
        crate::drained::is_drained(all_muted(batch), done, p),
        0 <= k < p.releases.len(),
    ensures
        p.releases[k].stamp is None,
{
    lemma_muted(batch);
    let i = crate::stamped::lemma_release_owner(all_muted(batch), done, p, k);
    assert(all_muted(batch)[i] == muted(batch[i]));
}

proof fn lemma_refused_start(batch: Seq<ExecTransaction>)
    requires
        crate::schedule::in_order(batch),
    ensures
        is_refused(
            batch,
            Seq::empty(),
            crate::schedule::progress_after(batch, Seq::empty()),
        ),
{
    let none = Seq::<IngressOrdinal>::empty();
    let p = crate::schedule::progress_after(batch, none);
    lemma_muted_queues(batch, batch.len() as int);
    crate::drained::lemma_drained_start(all_muted(batch));
    assert(crate::schedule::Progress::start(all_muted(batch)) == p);
    assert(p.interp.trace =~= turned(none));
    assert(p.spans =~= unit_spans(none));
}

proof fn lemma_refused_step(
    batch: Seq<ExecTransaction>,
    done: Seq<IngressOrdinal>,
    p: Progress,
    i: int,
)
    requires
        crate::schedule::in_order(batch),
        is_stale(batch),
        is_refused(batch, done, p),
        0 <= i < batch.len(),
        !done.contains(batch[i].ingress),
    ensures
        is_refused(batch, done.push(batch[i].ingress), p.finished(batch[i])),
{
    lemma_muted(batch);
    let tx = batch[i];
    let quiet = muted(tx);
    let next = done.push(tx.ingress);
    let after = p.finished(tx);
    let fresh = p.releases_of(tx);
    assert(all_muted(batch)[i] == quiet);
    assert(p.interp.refusal(tx) == Some(Refusal::StaleGeneration));
    assert(p.owed(quiet) == quiet.publication.stamp);
    crate::drained::lemma_drained_step(all_muted(batch), done, p, i);
    assert(p.finished(quiet) == after);
    assert forall|k: int| 0 <= k < after.releases.len() implies (
    #[trigger] after.releases[k]).stamp is None by {
        lemma_silent_releases(batch, next, after, k);
    }
    lemma_unstamped(p.interp.performed(tx), fresh, p.releases, tx.domain);
    assert(after.interp.trace =~= turned(next));
    assert(after.spans =~= unit_spans(next));
}

/// Releasing positions without stamps shows nothing.
proof fn lemma_unstamped(
    m: crate::interpret::InterpreterModel,
    fresh: Seq<crate::publish::Release>,
    before: Seq<ChannelRelease>,
    d: ChannelId,
)
    requires
        forall|k: int|
            0 <= k < (before + crate::schedule::released_as(d, fresh)).len() ==> (#[trigger] (before
                + crate::schedule::released_as(d, fresh))[k]).stamp is None,
    ensures
        crate::schedule::all_stamped(m, fresh).trace == m.trace,
        crate::schedule::all_stamped(m, fresh).generation == m.generation,
    decreases fresh.len(),
{
    if fresh.len() > 0 {
        let init = fresh.drop_last();
        let all = before + crate::schedule::released_as(d, fresh);
        let some = before + crate::schedule::released_as(d, init);
        assert forall|k: int| 0 <= k < some.len() implies (#[trigger] some[k]).stamp is None by {
            assert(some[k] == all[k]);
        }
        lemma_unstamped(m, init, before, d);
        assert(all[(before.len() + init.len()) as int].stamp is None);
        assert(crate::schedule::all_stamped(m, fresh).trace =~= m.trace);
    }
}

proof fn lemma_refused(batch: Seq<ExecTransaction>, done: Seq<IngressOrdinal>)
    requires
        crate::schedule::in_order(batch),
        is_stale(batch),
        crate::schedule::permitted(batch, done),
    ensures
        is_refused(batch, done, crate::schedule::progress_after(batch, done)),
    decreases done.len(),
{
    if done.len() == 0 {
        assert(done =~= Seq::<IngressOrdinal>::empty());
        lemma_refused_start(batch);
    } else {
        let init = done.drop_last();
        crate::completion::lemma_permitted_so_far(batch, done);
        lemma_refused(batch, init);
        let i = crate::completion::lemma_last_completed(batch, done);
        crate::schedule::lemma_tx_of(batch, i);
        lemma_refused_step(batch, init, crate::schedule::progress_after(batch, init), i);
    }
}

/// What a refused run shows: no version, stamp, event or fence, and nothing
/// that could go back.
proof fn lemma_turned(done: Seq<IngressOrdinal>)
    ensures
        forall|b: BackingId| #[trigger] crate::diverge::history(turned(done), b).len() == 0,
        forall|s: StampSlot| #[trigger] crate::diverge::stamp_rest(turned(done), s) is None,
        forall|e: ResourceId| #[trigger] crate::diverge::event_rest(turned(done), e) == 0,
        forall|f: ResourceId| #[trigger] crate::diverge::fence_count(turned(done), f) == 0,
        crate::diverge::refusals_in(turned(done)) == refusals_of(done),
    decreases done.len(),
{
    if done.len() == 0 {
        assert(refusals_of(done) =~= Seq::<(IngressOrdinal, Refusal)>::empty());
    } else {
        let init = done.drop_last();
        lemma_turned(init);
        assert(turned(done).drop_last() =~= turned(init));
        assert(refusals_of(init).push((done.last(), Refusal::StaleGeneration)) =~= refusals_of(
            done,
        ));
        assert forall|b: BackingId| #[trigger]
            crate::diverge::history(turned(done), b).len() == 0 by {
            assert(crate::diverge::history(turned(init), b).len() == 0);
        }
        assert forall|s: StampSlot| #[trigger]
            crate::diverge::stamp_rest(turned(done), s) is None by {
            assert(crate::diverge::stamp_rest(turned(init), s) is None);
        }
        assert forall|e: ResourceId| #[trigger]
            crate::diverge::event_rest(turned(done), e) == 0 by {
            assert(crate::diverge::event_rest(turned(init), e) == 0);
        }
        assert forall|f: ResourceId| #[trigger]
            crate::diverge::fence_count(turned(done), f) == 0 by {
            assert(crate::diverge::fence_count(turned(init), f) == 0);
        }
    }
}

/// Refusals sort as their transactions do.
proof fn lemma_placed_refusal(sorted: Seq<IngressOrdinal>, o: IngressOrdinal)
    ensures
        crate::diverge::placed(refusals_of(sorted), (o, Refusal::StaleGeneration)) == refusals_of(
            crate::diverge::placed(sorted, o),
        ),
    decreases sorted.len(),
{
    let pairs = refusals_of(sorted);
    let pair = (o, Refusal::StaleGeneration);
    if sorted.len() == 0 || crate::diverge::Keyed::key(sorted.last())
        <= crate::diverge::Keyed::key(o) {
        assert(pairs.push(pair) =~= refusals_of(sorted.push(o)));
    } else {
        let init = sorted.drop_last();
        lemma_placed_refusal(init, o);
        assert(pairs.drop_last() =~= refusals_of(init));
        let before = crate::diverge::placed(init, o);
        assert(refusals_of(before).push(pairs.last()) =~= refusals_of(before.push(sorted.last())));
    }
}

proof fn lemma_sorted_refusals(done: Seq<IngressOrdinal>)
    ensures
        crate::diverge::in_key_order(refusals_of(done)) == refusals_of(
            crate::diverge::in_key_order(done),
        ),
    decreases done.len(),
{
    let pairs = refusals_of(done);
    if done.len() == 0 {
        assert(crate::diverge::in_key_order(pairs) =~= refusals_of(
            crate::diverge::in_key_order(done),
        ));
    } else {
        let init = done.drop_last();
        lemma_sorted_refusals(init);
        assert(pairs.drop_last() =~= refusals_of(init));
        lemma_placed_refusal(crate::diverge::in_key_order(init), done.last());
    }
}

/// A refused run is monotone and atomic.
proof fn lemma_refused_run(done: Seq<IngressOrdinal>, p: Progress, run: Run)
    requires
        p.interp.trace == turned(done),
        p.spans == unit_spans(done),
        crate::schedule::did(run, p),
    ensures
        crate::diverge::is_monotone(run.trace@),
        crate::diverge::is_atomic(run),
        crate::schedule::order_of(run) == done,
{
    let spans = crate::schedule::spans_of(run.spans@);
    let all = crate::diverge::all_windows(run);
    assert(spans == p.spans);
    assert(spans.len() == done.len());
    assert forall|k: int| 0 <= k < all.len() implies (#[trigger] all[k]).start == k && all[k].end
        == k + 1 by {
        assert(spans[k] == unit_spans(done)[k]);
    }
    crate::words::lemma_already_sorted(all);
    let ws = crate::diverge::windows(run);
    assert(ws == all);
    assert forall|k: int|
        !(#[trigger] crate::diverge::splits(ws, k)) && !crate::diverge::leads(
            run.trace@,
            ws,
            k,
        ) by {}
    assert forall|k: int| !#[trigger] crate::diverge::goes_back(run.trace@, k) by {
        if 0 <= k < run.trace@.len() {
            assert(turned(done)[k] is Refused);
        }
    }
    let order = crate::schedule::order_of(run);
    assert forall|k: int| 0 <= k < order.len() implies order[k] == done[k] by {
        assert(spans[k] == unit_spans(done)[k]);
    }
    assert(order =~= done);
}

/// A batch of a closed generation is refused alike in every schedule: every
/// transaction of it once, and nothing else is shown.
///
/// It need not be eligible: its stamp waits, if it has any, are for stamps of
/// earlier transactions that leave their slots where the waits are answered.
pub proof fn a_closed_generation_is_refused_alike(
    batch: Seq<ExecTransaction>,
    serial: Run,
    parallel: Run,
)
    requires
        crate::schedule::in_order(batch),
        is_stale(batch),
        crate::completion::stamps_come_first(batch),
        crate::heard::stamps_answer(batch),
        crate::schedule::did(
            serial,
            crate::schedule::progress_after(batch, crate::schedule::ordinals(batch)),
        ),
        crate::schedule::did(
            parallel,
            crate::schedule::progress_after(batch, crate::schedule::order_of(parallel)),
        ),
        crate::schedule::permitted(batch, crate::schedule::order_of(parallel)),
        crate::schedule::exhausted(batch, crate::schedule::order_of(parallel)),
    ensures
        crate::diverge::agree(serial, parallel),
        crate::words::is_shuffle(
            crate::schedule::order_of(parallel),
            crate::schedule::ordinals(batch),
        ),
        parallel.trace@ == crate::schedule::order_of(parallel).map_values(
            |o: IngressOrdinal|
                Observation::Refused { ingress: o, reason: Refusal::StaleGeneration },
        ),
{
    let base = crate::schedule::ordinals(batch);
    let order = crate::schedule::order_of(parallel);
    let p = crate::schedule::progress_after(batch, base);
    let q = crate::schedule::progress_after(batch, order);
    crate::completion::lemma_serial_permitted(batch, batch.len() as int);
    assert(base.take(batch.len() as int) =~= base);
    lemma_refused(batch, base);
    lemma_refused(batch, order);
    crate::completion::lemma_all_complete(batch, order);
    crate::words::lemma_ordinals_ascend(batch);
    lemma_refused_run(base, p, serial);
    lemma_refused_run(order, q, parallel);
    crate::words::lemma_sorts_back(order, base);
    crate::words::lemma_already_sorted(base);
    lemma_turned(base);
    lemma_turned(order);
    lemma_sorted_refusals(base);
    lemma_sorted_refusals(order);
    assert forall|b: BackingId| #[trigger]
        crate::diverge::history(serial.trace@, b) == crate::diverge::history(
            parallel.trace@,
            b,
        ) by {
        assert(crate::diverge::history(turned(order), b).len() == 0);
        assert(crate::diverge::history(serial.trace@, b) =~= crate::diverge::history(
            parallel.trace@,
            b,
        ));
    }
    assert forall|s: StampSlot| #[trigger]
        crate::diverge::stamp_rest(serial.trace@, s) == crate::diverge::stamp_rest(
            parallel.trace@,
            s,
        ) by {
        assert(crate::diverge::stamp_rest(turned(order), s) is None);
    }
    assert forall|e: ResourceId| #[trigger]
        crate::diverge::event_rest(serial.trace@, e) == crate::diverge::event_rest(
            parallel.trace@,
            e,
        ) by {
        assert(crate::diverge::event_rest(turned(order), e) == 0);
    }
    assert forall|f: ResourceId| #[trigger]
        crate::diverge::fence_count(serial.trace@, f) == crate::diverge::fence_count(
            parallel.trace@,
            f,
        ) by {
        assert(crate::diverge::fence_count(turned(order), f) == 0);
    }
    assert(crate::diverge::same_publications(serial.releases@, parallel.releases@)) by {
        assert forall|d: ChannelId| #[trigger]
            crate::schedule::released_on(p.releases, d) == crate::schedule::released_on(
                q.releases,
                d,
            ) by {
            assert(crate::drained::channel_drained(all_muted(batch), base, p, d));
            assert(crate::drained::channel_drained(all_muted(batch), order, q, d));
            assert forall|o: IngressOrdinal| #[trigger] base.contains(o) == order.contains(o) by {
                assert(order.contains(o) == base.contains(o));
            }
            crate::drained::a_channel_tells_what_completed(all_muted(batch), base, order, d);
        }
    }
    assert(parallel.trace@ =~= order.map_values(
        |o: IngressOrdinal| Observation::Refused { ingress: o, reason: Refusal::StaleGeneration },
    ));
}

} // verus!
