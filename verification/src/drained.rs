//! What a channel has released once some of a batch has completed.
//!
//! A channel's queue and its releases are one list cut in two: the channel's
//! positions in arrival order, each marked finished or not, released up to the
//! first unfinished one. So what a channel has told the guest depends only on
//! which transactions have completed, never on the order they completed in.

use vstd::prelude::*;
use crate::exec::ExecTransaction;
use crate::identity::{ChannelId, ChannelSequence, CompletionStamp, IngressOrdinal};
use crate::publish::{Position, Release};
use crate::schedule::{ChannelRelease, Progress};

verus! {

/// A transaction's position once these have completed, each of them owing its
/// stamp.
pub open spec fn mark(tx: ExecTransaction, done: Seq<IngressOrdinal>) -> Position {
    Position {
        sequence: tx.domain_sequence,
        finished: done.contains(tx.ingress),
        stamp: if done.contains(tx.ingress) { tx.publication.stamp } else { None },
    }
}

/// A channel's positions among the first `n` transactions, in arrival order.
pub open spec fn marks(
    batch: Seq<ExecTransaction>,
    done: Seq<IngressOrdinal>,
    d: ChannelId,
    n: int,
) -> Seq<Position>
    decreases n,
{
    if n <= 0 {
        Seq::empty()
    } else if batch[n - 1].domain == d {
        marks(batch, done, d, n - 1).push(mark(batch[n - 1], done))
    } else {
        marks(batch, done, d, n - 1)
    }
}

/// All of a channel's positions.
pub open spec fn all_marks(
    batch: Seq<ExecTransaction>,
    done: Seq<IngressOrdinal>,
    d: ChannelId,
) -> Seq<Position> {
    marks(batch, done, d, batch.len() as int)
}

/// What a channel has released once these have completed.
pub open spec fn told(
    batch: Seq<ExecTransaction>,
    done: Seq<IngressOrdinal>,
    d: ChannelId,
) -> Seq<ChannelRelease> {
    crate::schedule::released_as(d, crate::publish::published_by(all_marks(batch, done, d)))
}

/// A channel's queue and releases are its positions, cut at the first
/// unfinished one.
pub open spec fn channel_drained(
    batch: Seq<ExecTransaction>,
    done: Seq<IngressOrdinal>,
    progress: Progress,
    d: ChannelId,
) -> bool {
    &&& crate::schedule::queue_in(progress.queues, d) == crate::publish::left_by(
        all_marks(batch, done, d),
    )
    &&& crate::schedule::released_on(progress.releases, d) == told(batch, done, d)
}

/// Every channel is cut at its first unfinished position.
pub open spec fn is_drained(
    batch: Seq<ExecTransaction>,
    done: Seq<IngressOrdinal>,
    progress: Progress,
) -> bool {
    forall|d: ChannelId| #[trigger] channel_drained(batch, done, progress, d)
}

/// Each mark is of a transaction of the channel, in arrival order.
pub proof fn lemma_marks(
    batch: Seq<ExecTransaction>,
    done: Seq<IngressOrdinal>,
    d: ChannelId,
    n: int,
)
    requires
        crate::schedule::in_order(batch),
        0 <= n <= batch.len(),
    ensures
        crate::publish::in_channel_order(marks(batch, done, d, n)),
        forall|k: int|
            0 <= k < marks(batch, done, d, n).len() ==> exists|i: int|
                0 <= i < n && (#[trigger] batch[i]).domain == d && (#[trigger] marks(
                    batch,
                    done,
                    d,
                    n,
                )[k]) == mark(batch[i], done),
    decreases n,
{
    if n > 0 {
        lemma_marks(batch, done, d, n - 1);
        let before = marks(batch, done, d, n - 1);
        let after = marks(batch, done, d, n);
        assert forall|k: int| 0 <= k < after.len() implies exists|i: int|
            0 <= i < n && (#[trigger] batch[i]).domain == d && (#[trigger] after[k]) == mark(
                batch[i],
                done,
            ) by {
            if k < before.len() {
                let i = choose|i: int|
                    0 <= i < n - 1 && (#[trigger] batch[i]).domain == d && before[k] == mark(
                        batch[i],
                        done,
                    );
                assert(after[k] == mark(batch[i], done));
            } else {
                assert(after[k] == mark(batch[n - 1], done));
            }
        }
        if batch[n - 1].domain == d {
            assert forall|a: int, b: int| 0 <= a < b < after.len() implies (
            #[trigger] after[a]).sequence.0 < (#[trigger] after[b]).sequence.0 by {
                if b == before.len() {
                    let i = choose|i: int|
                        0 <= i < n - 1 && (#[trigger] batch[i]).domain == d && before[a] == mark(
                            batch[i],
                            done,
                        );
                    assert(batch[i].domain == batch[n - 1].domain);
                } else {
                    assert(before[a].sequence.0 < before[b].sequence.0);
                }
            }
        }
    }
}

/// A transaction's mark stands in its channel, and everything before it is an
/// earlier transaction's.
pub proof fn lemma_mark_place(
    batch: Seq<ExecTransaction>,
    done: Seq<IngressOrdinal>,
    i: int,
    n: int,
) -> (k: int)
    requires
        crate::schedule::in_order(batch),
        0 <= i < n <= batch.len(),
    ensures
        0 <= k < marks(batch, done, batch[i].domain, n).len(),
        marks(batch, done, batch[i].domain, n)[k] == mark(batch[i], done),
        k == marks(batch, done, batch[i].domain, i).len(),
        marks(batch, done, batch[i].domain, n).take(k) == marks(batch, done, batch[i].domain, i),
    decreases n,
{
    let d = batch[i].domain;
    let after = marks(batch, done, d, n);
    if i == n - 1 {
        let k = marks(batch, done, d, n - 1).len() as int;
        assert(after.take(k) =~= marks(batch, done, d, i));
        k
    } else {
        let k = lemma_mark_place(batch, done, i, n - 1);
        let before = marks(batch, done, d, n - 1);
        assert(after.take(k) =~= before.take(k));
        assert(after[k] == before[k]);
        k
    }
}

/// Before anything has completed, the marks are the queues.
pub(crate) proof fn lemma_first_marks(batch: Seq<ExecTransaction>, d: ChannelId, n: int)
    requires
        0 <= n <= batch.len(),
    ensures
        crate::schedule::queue_in(crate::schedule::queues_of(batch, n), d) == marks(
            batch,
            Seq::empty(),
            d,
            n,
        ),
        forall|k: int|
            0 <= k < marks(batch, Seq::empty(), d, n).len() ==> !(#[trigger] marks(
                batch,
                Seq::empty(),
                d,
                n,
            )[k]).finished,
    decreases n,
{
    if n > 0 {
        lemma_first_marks(batch, d, n - 1);
    }
}

/// One more completion finishes one position of one channel.
proof fn lemma_next_marks(
    batch: Seq<ExecTransaction>,
    done: Seq<IngressOrdinal>,
    i: int,
    d: ChannelId,
    n: int,
)
    requires
        crate::schedule::in_order(batch),
        0 <= i < batch.len(),
        0 <= n <= batch.len(),
    ensures
        marks(batch, done.push(batch[i].ingress), d, n) == (if d == batch[i].domain {
            crate::publish::with_finished(
                marks(batch, done, d, n),
                batch[i].domain_sequence,
                batch[i].publication.stamp,
            )
        } else {
            marks(batch, done, d, n)
        }),
    decreases n,
{
    let next = done.push(batch[i].ingress);
    let sequence = batch[i].domain_sequence;
    let stamp = batch[i].publication.stamp;
    let before = marks(batch, done, d, n);
    let after = marks(batch, next, d, n);
    if n <= 0 {
        assert(after =~= crate::publish::with_finished(before, sequence, stamp));
    } else {
        lemma_next_marks(batch, done, i, d, n - 1);
        let tx = batch[n - 1];
        if tx.domain == d {
            lemma_push_contains(done, batch[i].ingress, tx.ingress);
            if i < n - 1 {
                assert(batch[i].ingress.0 < batch[n - 1].ingress.0);
            } else if n - 1 < i {
                assert(batch[n - 1].ingress.0 < batch[i].ingress.0);
            }
            if d == batch[i].domain {
                if i < n - 1 {
                    assert(batch[i].domain_sequence.0 < batch[n - 1].domain_sequence.0);
                } else if n - 1 < i {
                    assert(batch[n - 1].domain_sequence.0 < batch[i].domain_sequence.0);
                }
                assert(after =~= crate::publish::with_finished(before, sequence, stamp));
            } else {
                assert(after =~= before);
            }
        }
    }
}

pub proof fn lemma_push_contains(done: Seq<IngressOrdinal>, o: IngressOrdinal, x: IngressOrdinal)
    ensures
        done.push(o).contains(x) == (done.contains(x) || x == o),
{
    let next = done.push(o);
    assert(next[done.len() as int] == o);
    if done.contains(x) {
        let k = choose|k: int| 0 <= k < done.len() && done[k] == x;
        assert(next[k] == x);
    }
    if next.contains(x) && x != o {
        let k = choose|k: int| 0 <= k < next.len() && next[k] == x;
        assert(done[k] == x);
    }
}

/// The finished prefix is the only length with everything before it finished
/// and nothing finished at it.
pub(crate) proof fn lemma_prefix_is(q: Seq<Position>, n: int)
    requires
        0 <= n <= q.len(),
        forall|k: int| 0 <= k < n ==> (#[trigger] q[k]).finished,
        n < q.len() ==> !q[n].finished,
    ensures
        crate::publish::finished_prefix(q) == n,
{
    crate::publish::lemma_prefix(q);
    let p = crate::publish::finished_prefix(q) as int;
    if p < n {
        assert(q[p].finished);
    } else if n < p {
        assert(q[n].finished);
    }
}

/// Finishing a position of a queue releases what finishing it in what the
/// queue kept releases.
proof fn lemma_drain_on(
    q: Seq<Position>,
    sequence: ChannelSequence,
    stamp: Option<CompletionStamp>,
)
    requires
        forall|k: int| 0 <= k < crate::publish::finished_prefix(q) ==> (#[trigger] q[k]).sequence
            != sequence,
    ensures
        crate::publish::left_by(crate::publish::with_finished(q, sequence, stamp))
            == crate::publish::left_by(
            crate::publish::with_finished(crate::publish::left_by(q), sequence, stamp),
        ),
        crate::publish::published_by(crate::publish::with_finished(q, sequence, stamp))
            == crate::publish::published_by(q) + crate::publish::published_by(
            crate::publish::with_finished(crate::publish::left_by(q), sequence, stamp),
        ),
{
    crate::publish::lemma_prefix(q);
    let p = crate::publish::finished_prefix(q) as int;
    let next = crate::publish::with_finished(q, sequence, stamp);
    let kept = crate::publish::with_finished(crate::publish::left_by(q), sequence, stamp);
    assert(kept =~= next.skip(p));
    crate::publish::lemma_prefix(kept);
    let r = crate::publish::finished_prefix(kept) as int;
    assert forall|k: int| 0 <= k < p + r implies (#[trigger] next[k]).finished by {
        if k < p {
            assert(q[k].finished);
            assert(q[k].sequence != sequence);
        } else {
            assert(kept[k - p] == next[k]);
        }
    }
    if p + r < next.len() {
        assert(kept[r] == next[p + r]);
    }
    lemma_prefix_is(next, p + r);
    assert(crate::publish::left_by(next) =~= crate::publish::left_by(kept));
    let all = crate::publish::published_by(next);
    let parts = crate::publish::published_by(q) + crate::publish::published_by(kept);
    assert forall|k: int| 0 <= k < p + r implies all[k] == parts[k] by {
        if k < p {
            assert(q[k].sequence != sequence);
            assert(next[k] == q[k]);
        } else {
            assert(kept[k - p] == next[k]);
        }
    }
    assert(all =~= parts);
}

/// One channel's part of two lists is its part of the first and then of the
/// second.
pub proof fn lemma_released_on(a: Seq<ChannelRelease>, b: Seq<ChannelRelease>, d: ChannelId)
    ensures
        crate::schedule::released_on(a + b, d) == crate::schedule::released_on(a, d)
            + crate::schedule::released_on(b, d),
    decreases b.len(),
{
    reveal(Seq::filter);
    if b.len() == 0 {
        assert(a + b =~= a);
        assert(crate::schedule::released_on(a, d) + crate::schedule::released_on(b, d)
            =~= crate::schedule::released_on(a, d));
    } else {
        lemma_released_on(a, b.drop_last(), d);
        assert((a + b).drop_last() =~= a + b.drop_last());
        assert((a + b).last() == b.last());
        assert(crate::schedule::released_on(a + b, d) =~= crate::schedule::released_on(a, d)
            + crate::schedule::released_on(b, d));
    }
}

/// A channel's own releases are all its own.
proof fn lemma_released_as(from: ChannelId, releases: Seq<Release>, d: ChannelId)
    ensures
        crate::schedule::released_on(crate::schedule::released_as(from, releases), d) == (if d
            == from {
            crate::schedule::released_as(from, releases)
        } else {
            Seq::empty()
        }),
    decreases releases.len(),
{
    reveal(Seq::filter);
    let list = crate::schedule::released_as(from, releases);
    if releases.len() == 0 {
        assert(crate::schedule::released_on(list, d) =~= Seq::<ChannelRelease>::empty());
        assert(list =~= Seq::<ChannelRelease>::empty());
    } else {
        lemma_released_as(from, releases.drop_last(), d);
        let init = crate::schedule::released_as(from, releases.drop_last());
        assert(list.drop_last() =~= init);
        assert(init.push(list.last()) =~= list);
    }
}

/// Nothing has completed and every channel holds all its positions.
pub proof fn lemma_drained_start(batch: Seq<ExecTransaction>)
    ensures
        is_drained(batch, Seq::empty(), Progress::start(batch)),
{
    let start = Progress::start(batch);
    let none = Seq::<IngressOrdinal>::empty();
    assert forall|d: ChannelId| #[trigger] channel_drained(batch, none, start, d) by {
        lemma_first_marks(batch, d, batch.len() as int);
        let q = all_marks(batch, none, d);
        lemma_prefix_is(q, 0);
        assert(crate::publish::left_by(q) =~= q);
        reveal(Seq::filter);
        assert(crate::schedule::released_on(start.releases, d) =~= told(batch, none, d));
    }
}

/// A completion finishes its own channel's position and releases what stood
/// finished behind it.
pub proof fn lemma_drained_next(
    batch: Seq<ExecTransaction>,
    done: Seq<IngressOrdinal>,
    progress: Progress,
    after: Progress,
    i: int,
)
    requires
        crate::schedule::in_order(batch),
        0 <= i < batch.len(),
        !done.contains(batch[i].ingress),
        is_drained(batch, done, progress),
        is_next(progress, after, batch[i]),
    ensures
        is_drained(batch, done.push(batch[i].ingress), after),
{
    let tx = batch[i];
    let next = done.push(tx.ingress);
    let q = all_marks(batch, done, tx.domain);
    assert(channel_drained(batch, done, progress, tx.domain));
    crate::publish::lemma_prefix(q);
    lemma_marks(batch, done, tx.domain, batch.len() as int);
    assert forall|k: int| 0 <= k < crate::publish::finished_prefix(q) implies (
    #[trigger] q[k]).sequence != tx.domain_sequence by {
        let j = choose|j: int|
            0 <= j < batch.len() && (#[trigger] batch[j]).domain == tx.domain && q[k] == mark(
                batch[j],
                done,
            );
        assert(q[k].finished);
        assert(j != i);
        if j < i {
            assert(batch[j].domain_sequence.0 < batch[i].domain_sequence.0);
        } else {
            assert(batch[i].domain_sequence.0 < batch[j].domain_sequence.0);
        }
    }
    lemma_drain_on(q, tx.domain_sequence, tx.publication.stamp);
    assert forall|d: ChannelId| #[trigger] channel_drained(batch, next, after, d) by {
        assert(channel_drained(batch, done, progress, d));
        lemma_next_marks(batch, done, i, d, batch.len() as int);
        let fresh = crate::publish::published_by(finished_in(progress, tx));
        lemma_released_on(progress.releases, crate::schedule::released_as(tx.domain, fresh), d);
        lemma_released_as(tx.domain, fresh, d);
        assert(crate::schedule::released_on(after.releases, d) =~= told(batch, next, d));
    }
}

/// The transaction's channel once it has completed and owes its stamp.
pub open spec fn finished_in(progress: Progress, tx: ExecTransaction) -> Seq<Position> {
    crate::publish::with_finished(
        crate::schedule::queue_in(progress.queues, tx.domain),
        tx.domain_sequence,
        tx.publication.stamp,
    )
}

/// The channels once one more transaction has completed and owes its stamp.
pub open spec fn is_next(progress: Progress, after: Progress, tx: ExecTransaction) -> bool {
    &&& after.queues == progress.queues.insert(
        tx.domain,
        crate::publish::left_by(finished_in(progress, tx)),
    )
    &&& after.releases == progress.releases + crate::schedule::released_as(
        tx.domain,
        crate::publish::published_by(finished_in(progress, tx)),
    )
}

/// The same, of a transaction that is not refused.
pub proof fn lemma_drained_step(
    batch: Seq<ExecTransaction>,
    done: Seq<IngressOrdinal>,
    progress: Progress,
    i: int,
)
    requires
        crate::schedule::in_order(batch),
        0 <= i < batch.len(),
        !done.contains(batch[i].ingress),
        is_drained(batch, done, progress),
        progress.owed(batch[i]) == batch[i].publication.stamp,
    ensures
        is_drained(batch, done.push(batch[i].ingress), progress.finished(batch[i])),
{
    assert(is_next(progress, progress.finished(batch[i]), batch[i]));
    lemma_drained_next(batch, done, progress, progress.finished(batch[i]), i);
}

proof fn lemma_same_marks(
    batch: Seq<ExecTransaction>,
    a: Seq<IngressOrdinal>,
    b: Seq<IngressOrdinal>,
    d: ChannelId,
    n: int,
)
    requires
        0 <= n <= batch.len(),
        forall|o: IngressOrdinal| #[trigger] a.contains(o) == b.contains(o),
    ensures
        marks(batch, a, d, n) == marks(batch, b, d, n),
    decreases n,
{
    if n > 0 {
        lemma_same_marks(batch, a, b, d, n - 1);
        assert(a.contains(batch[n - 1].ingress) == b.contains(batch[n - 1].ingress));
    }
}

/// What a channel has told the guest depends on which transactions have
/// completed and not on the order they completed in.
pub proof fn a_channel_tells_what_completed(
    batch: Seq<ExecTransaction>,
    a: Seq<IngressOrdinal>,
    b: Seq<IngressOrdinal>,
    d: ChannelId,
)
    requires
        forall|o: IngressOrdinal| #[trigger] a.contains(o) == b.contains(o),
    ensures
        told(batch, a, d) == told(batch, b, d),
{
    lemma_same_marks(batch, a, b, d, batch.len() as int);
}

} // verus!
