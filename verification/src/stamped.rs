//! The values a run has put into each completion word.
//!
//! A channel releases in its own order, up to the first of its transactions that
//! has not completed. So which transactions have stamped their words depends on
//! which have completed, and never on the order they completed in.

use vstd::prelude::*;
use crate::exec::ExecTransaction;
use crate::identity::{
    ChannelId, CompletionStamp, IngressOrdinal, StampSlot, StampValue, StampWait,
};
use crate::publish::{Position, Release};
use crate::schedule::{ChannelRelease, Progress};

verus! {

/// The value a stamp puts into a slot, if it is that slot's.
pub open spec fn put(stamp: Option<CompletionStamp>, slot: StampSlot) -> Seq<StampValue> {
    match stamp {
        Some(s) => if s.slot == slot {
            seq![s.value]
        } else {
            Seq::empty()
        },
        None => Seq::empty(),
    }
}

/// The values these releases put into a slot, in order.
pub open spec fn values_in(releases: Seq<ChannelRelease>, slot: StampSlot) -> Seq<StampValue>
    decreases releases.len(),
{
    if releases.len() == 0 {
        Seq::empty()
    } else {
        values_in(releases.drop_last(), slot) + put(releases.last().stamp, slot)
    }
}

/// The values the first `n` transactions put into a slot, in arrival order.
pub open spec fn slot_list(batch: Seq<ExecTransaction>, slot: StampSlot, n: int) -> Seq<StampValue>
    decreases n,
{
    if n <= 0 {
        Seq::empty()
    } else {
        slot_list(batch, slot, n - 1) + put(batch[n - 1].publication.stamp, slot)
    }
}

/// The transaction stamps the slot.
pub open spec fn stamps_slot(tx: ExecTransaction, slot: StampSlot) -> bool {
    put(tx.publication.stamp, slot).len() > 0
}

/// Every value is after the one before it.
pub open spec fn climbs(values: Seq<StampValue>) -> bool {
    forall|x: int, y: int|
        0 <= x && y == x + 1 && y < values.len() ==> (#[trigger] values[y]).is_after(
            #[trigger] values[x],
        )
}

/// Every stamp a batch puts into a slot advances it.
pub open spec fn slots_climb(batch: Seq<ExecTransaction>) -> bool {
    forall|slot: StampSlot| climbs(#[trigger] slot_list(batch, slot, batch.len() as int))
}

/// A wait that one of the values answers is not unanswered by a later one.
pub open spec fn stays_answered(values: Seq<StampValue>, w: StampWait) -> bool {
    forall|x: int, y: int|
        0 <= x < y < values.len() && (#[trigger] values[x]).has_reached(w.value)
            ==> !w.value.is_after(#[trigger] values[y])
}

/// Every stamp wait of the batch, once answered, stays answered.
pub open spec fn waits_stay_answered(batch: Seq<ExecTransaction>) -> bool {
    forall|i: int, w: StampWait|
        0 <= i < batch.len() && #[trigger] crate::schedule::stamp_waits_of(
            batch[i].prerequisites@,
        ).contains(w) ==> stays_answered(slot_list(batch, w.slot, batch.len() as int), w)
}

/// The transaction's stamp answers the wait.
pub open spec fn answers(tx: ExecTransaction, w: StampWait) -> bool {
    stamps_slot(tx, w.slot) && tx.publication.stamp->0.value.has_reached(w.value)
}

/// Everything of the transaction's channel up to it has completed, so its stamp
/// has been told.
pub open spec fn told_through(
    batch: Seq<ExecTransaction>,
    done: Seq<IngressOrdinal>,
    i: int,
) -> bool {
    forall|x: int|
        0 <= x <= i && (#[trigger] batch[x]).domain == batch[i].domain ==> done.contains(
            batch[x].ingress,
        )
}

/// One of the values answers the wait.
pub open spec fn answered_in(values: Seq<StampValue>, w: StampWait) -> bool {
    exists|k: int| 0 <= k < values.len() && (#[trigger] values[k]).has_reached(w.value)
}

/// A release stands among its channel's.
proof fn lemma_among_its_channels(releases: Seq<ChannelRelease>, k: int)
    requires
        0 <= k < releases.len(),
    ensures
        crate::schedule::released_on(releases, releases[k].domain).contains(releases[k]),
    decreases releases.len(),
{
    reveal(Seq::filter);
    let d = releases[k].domain;
    let init = releases.drop_last();
    let own = crate::schedule::released_on(releases, d);
    let before = crate::schedule::released_on(init, d);
    if k == releases.len() - 1 {
        assert(own[before.len() as int] == releases[k]);
    } else {
        assert(init[k] == releases[k]);
        lemma_among_its_channels(init, k);
        let x = choose|x: int| 0 <= x < before.len() && before[x] == releases[k];
        assert(own[x] == releases[k]);
    }
}

/// What a transaction's channel says when it is released.
pub open spec fn release_of(tx: ExecTransaction) -> ChannelRelease {
    ChannelRelease {
        domain: tx.domain,
        sequence: tx.domain_sequence,
        stamp: tx.publication.stamp,
    }
}

/// Every release of a channel is a completed transaction's, in channel order.
pub proof fn lemma_told(batch: Seq<ExecTransaction>, done: Seq<IngressOrdinal>, d: ChannelId)
    requires
        crate::schedule::in_order(batch),
    ensures
        forall|k: int|
            0 <= k < crate::drained::told(batch, done, d).len() ==> exists|i: int|
                0 <= i < batch.len() && done.contains((#[trigger] batch[i]).ingress)
                    && batch[i].domain == d && (#[trigger] crate::drained::told(
                    batch,
                    done,
                    d,
                )[k]) == release_of(batch[i]),
        forall|a: int, b: int|
            0 <= a < b < crate::drained::told(batch, done, d).len() ==> (
            #[trigger] crate::drained::told(batch, done, d)[a]).sequence.0 < (
            #[trigger] crate::drained::told(batch, done, d)[b]).sequence.0,
{
    let q = crate::drained::all_marks(batch, done, d);
    let told = crate::drained::told(batch, done, d);
    crate::publish::lemma_prefix(q);
    crate::drained::lemma_marks(batch, done, d, batch.len() as int);
    assert forall|k: int| 0 <= k < told.len() implies exists|i: int|
        0 <= i < batch.len() && done.contains((#[trigger] batch[i]).ingress) && batch[i].domain == d
            && (#[trigger] told[k]) == release_of(batch[i]) by {
        assert(q[k].finished);
        let i = choose|i: int|
            0 <= i < batch.len() && (#[trigger] batch[i]).domain == d && q[k]
                == crate::drained::mark(batch[i], done);
        assert(done.contains(batch[i].ingress));
        assert(told[k] == release_of(batch[i]));
    }
    assert forall|a: int, b: int| 0 <= a < b < told.len() implies (#[trigger] told[a]).sequence.0 < (
    #[trigger] told[b]).sequence.0 by {
        assert(q[a].sequence.0 < q[b].sequence.0);
    }
}

/// Every release so far is a completed transaction's.
pub(crate) proof fn lemma_release_owner(
    batch: Seq<ExecTransaction>,
    done: Seq<IngressOrdinal>,
    progress: Progress,
    k: int,
) -> (i: int)
    requires
        crate::schedule::in_order(batch),
        crate::drained::is_drained(batch, done, progress),
        0 <= k < progress.releases.len(),
    ensures
        0 <= i < batch.len(),
        done.contains(batch[i].ingress),
        progress.releases[k] == release_of(batch[i]),
{
    let d = progress.releases[k].domain;
    lemma_among_its_channels(progress.releases, k);
    assert(crate::drained::channel_drained(batch, done, progress, d));
    lemma_told(batch, done, d);
    let told = crate::drained::told(batch, done, d);
    let x = choose|x: int| 0 <= x < told.len() && told[x] == progress.releases[k];
    choose|i: int|
        0 <= i < batch.len() && done.contains((#[trigger] batch[i]).ingress) && batch[i].domain == d
            && told[x] == release_of(batch[i])
}

/// Where a channel is cut: everything of its before that has completed, and
/// what stands there has not.
pub open spec fn is_cut(
    batch: Seq<ExecTransaction>,
    done: Seq<IngressOrdinal>,
    d: ChannelId,
    m: int,
) -> bool {
    &&& 0 <= m <= batch.len()
    &&& forall|j: int|
        0 <= j < m && (#[trigger] batch[j]).domain == d ==> done.contains(batch[j].ingress)
    &&& m < batch.len() ==> batch[m].domain == d && !done.contains(batch[m].ingress)
}

pub(crate) proof fn lemma_cut(
    batch: Seq<ExecTransaction>,
    done: Seq<IngressOrdinal>,
    d: ChannelId,
    from: int,
) -> (m: int)
    requires
        0 <= from <= batch.len(),
        forall|j: int|
            0 <= j < from && (#[trigger] batch[j]).domain == d ==> done.contains(batch[j].ingress),
    ensures
        is_cut(batch, done, d, m),
    decreases batch.len() - from,
{
    if from == batch.len() || (batch[from].domain == d && !done.contains(batch[from].ingress)) {
        from
    } else {
        lemma_cut(batch, done, d, from + 1)
    }
}

/// The marks before a cut are all finished.
proof fn lemma_marks_before_cut(
    batch: Seq<ExecTransaction>,
    done: Seq<IngressOrdinal>,
    d: ChannelId,
    m: int,
)
    requires
        0 <= m <= batch.len(),
        forall|j: int|
            0 <= j < m && (#[trigger] batch[j]).domain == d ==> done.contains(batch[j].ingress),
    ensures
        forall|k: int|
            0 <= k < crate::drained::marks(batch, done, d, m).len() ==> (
            #[trigger] crate::drained::marks(batch, done, d, m)[k]).finished,
    decreases m,
{
    if m > 0 {
        lemma_marks_before_cut(batch, done, d, m - 1);
    }
}

/// What a channel has told is its positions before the cut.
pub(crate) proof fn lemma_told_before_cut(
    batch: Seq<ExecTransaction>,
    done: Seq<IngressOrdinal>,
    d: ChannelId,
    m: int,
)
    requires
        crate::schedule::in_order(batch),
        is_cut(batch, done, d, m),
    ensures
        crate::drained::told(batch, done, d) == crate::schedule::released_as(
            d,
            crate::drained::marks(batch, done, d, m).map_values(
                |p: Position| Release { sequence: p.sequence, stamp: p.stamp },
            ),
        ),
{
    let q = crate::drained::all_marks(batch, done, d);
    let front = crate::drained::marks(batch, done, d, m);
    lemma_marks_before_cut(batch, done, d, m);
    let k = front.len() as int;
    if m < batch.len() {
        let at = crate::drained::lemma_mark_place(batch, done, m, batch.len() as int);
        assert(at == k);
        assert(!q[k].finished);
        assert(q.take(k) == front);
    } else {
        assert(q.take(k) =~= front);
    }
    assert forall|x: int| 0 <= x < k implies (#[trigger] q[x]).finished by {
        assert(q.take(k)[x] == front[x]);
    }
    crate::publish::lemma_prefix(q);
    let p = crate::publish::finished_prefix(q) as int;
    if p < k {
        assert(q[p].finished);
    } else if k < p {
        assert(q[k].finished);
    }
    assert(crate::publish::published_by(q) =~= front.map_values(
        |p: Position| Release { sequence: p.sequence, stamp: p.stamp },
    ));
}

/// The values of fewer transactions are a prefix of the values of more.
pub(crate) proof fn lemma_list_prefix(batch: Seq<ExecTransaction>, slot: StampSlot, m: int, n: int)
    requires
        0 <= m <= n,
    ensures
        slot_list(batch, slot, m).len() <= slot_list(batch, slot, n).len(),
        forall|x: int|
            0 <= x < slot_list(batch, slot, m).len() ==> (#[trigger] slot_list(batch, slot, m)[x])
                == slot_list(batch, slot, n)[x],
    decreases n,
{
    if m < n {
        lemma_list_prefix(batch, slot, m, n - 1);
    }
}

/// Transactions that do not stamp the slot add nothing to its list.
pub(crate) proof fn lemma_list_gap(batch: Seq<ExecTransaction>, slot: StampSlot, m: int, n: int)
    requires
        0 <= m <= n <= batch.len(),
        forall|j: int| m <= j < n ==> !stamps_slot(#[trigger] batch[j], slot),
    ensures
        slot_list(batch, slot, m) == slot_list(batch, slot, n),
    decreases n,
{
    if m < n {
        lemma_list_gap(batch, slot, m, n - 1);
        assert(!stamps_slot(batch[n - 1], slot));
        assert(slot_list(batch, slot, n) =~= slot_list(batch, slot, n - 1));
    }
}

/// The first values of a slot that climbs do.
pub(crate) proof fn lemma_list_climbs(batch: Seq<ExecTransaction>, slot: StampSlot, m: int)
    requires
        slots_climb(batch),
        0 <= m <= batch.len(),
    ensures
        climbs(slot_list(batch, slot, m)),
{
    let some = slot_list(batch, slot, m);
    let list = slot_list(batch, slot, batch.len() as int);
    lemma_list_prefix(batch, slot, m, batch.len() as int);
    assert(climbs(list));
    assert forall|x: int, y: int| 0 <= x && y == x + 1 && y < some.len() implies (
    #[trigger] some[y]).is_after(#[trigger] some[x]) by {
        assert(some[x] == list[x] && some[y] == list[y]);
    }
}

/// A wait that one of a slot's first values has answered is met by the last of
/// them.
pub(crate) proof fn lemma_still_met(batch: Seq<ExecTransaction>, w: StampWait, m: int)
    requires
        0 <= m <= batch.len(),
        stays_answered(slot_list(batch, w.slot, batch.len() as int), w),
        answered_in(slot_list(batch, w.slot, m), w),
    ensures
        slot_list(batch, w.slot, m).len() > 0,
        !w.value.is_after(slot_list(batch, w.slot, m).last()),
{
    let values = slot_list(batch, w.slot, m);
    let list = slot_list(batch, w.slot, batch.len() as int);
    let x = choose|x: int| 0 <= x < values.len() && (#[trigger] values[x]).has_reached(w.value);
    lemma_list_prefix(batch, w.slot, m, batch.len() as int);
    let y = values.len() - 1;
    assert(values[x] == list[x] && values[y] == list[y]);
    if x < y {
        assert(list[x].has_reached(w.value));
        assert(!w.value.is_after(list[y]));
    }
}

} // verus!
