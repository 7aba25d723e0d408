//! No choice among what is ready strands work.
//!
//! Hazards and event waits point backwards, and an eligible batch's stamp waits
//! are for stamps of earlier transactions. So while anything is outstanding the
//! earliest of it is ready, whatever has been completed around it and whether or
//! not any of it was refused.

use vstd::prelude::*;
use crate::exec::ExecTransaction;
use crate::identity::{IngressOrdinal, StampSlot, StampWait};
use crate::schedule::Run;

verus! {

/// A transaction before the one at `i` answers the wait.
pub open spec fn answered_before(batch: Seq<ExecTransaction>, i: int, w: StampWait) -> bool {
    exists|p: int| 0 <= p < i && crate::stamped::answers(#[trigger] batch[p], w)
}

/// Every stamp wait is for a stamp that an earlier transaction carries.
pub open spec fn stamps_come_first(batch: Seq<ExecTransaction>) -> bool {
    forall|i: int, w: StampWait|
        0 <= i < batch.len() && #[trigger] crate::schedule::stamp_waits_of(
            batch[i].prerequisites@,
        ).contains(w) ==> answered_before(batch, i, w)
}

/// An eligible batch's stamp waits are for stamps of earlier transactions.
pub proof fn an_eligible_batch_stamps_before_it_waits(batch: Seq<ExecTransaction>)
    requires
        crate::eligible::is_eligible(batch),
    ensures
        stamps_come_first(batch),
{
    assert forall|i: int, w: StampWait|
        0 <= i < batch.len() && #[trigger] crate::schedule::stamp_waits_of(
            batch[i].prerequisites@,
        ).contains(w) implies answered_before(batch, i, w) by {
        let p = crate::answered::lemma_stamp_answered(batch, i, w);
        assert(crate::stamped::answers(batch[p], w));
    }
}

/// Nothing completes before what a hazard, or the earliest producer of an event
/// it waits for, keeps it behind.
pub open spec fn respects_waits(batch: Seq<ExecTransaction>, order: Seq<IngressOrdinal>) -> bool {
    forall|k: int, i: int, o: IngressOrdinal|
        0 <= k < order.len() && #[trigger] crate::schedule::stands_at(batch, order[k], i)
            && #[trigger] crate::settled::held_behind(batch, i, o) && crate::settled::comes_before(
            batch,
            i,
            o,
        ) ==> order.take(k).contains(o)
}

/// What holds of a schedule at every point, whatever was refused.
spec fn is_on_course(batch: Seq<ExecTransaction>, done: Seq<IngressOrdinal>) -> bool {
    let p = crate::schedule::progress_after(batch, done);
    &&& done.no_duplicates()
    &&& forall|k: int| 0 <= k < done.len() ==> crate::schedule::holds(batch, #[trigger] done[k])
    &&& respects_waits(batch, done)
    &&& crate::drained::is_drained(batch, done, crate::heard::worded(batch, p))
    &&& crate::settled::is_settled(
        batch,
        done,
        crate::heard::worded_releases(batch, p.releases),
        crate::schedule::readiness_after(batch, done),
    )
}

pub(crate) proof fn lemma_done_step(batch: Seq<ExecTransaction>, done: Seq<IngressOrdinal>, i: int)
    requires
        0 <= i < batch.len(),
        !done.contains(batch[i].ingress),
        done.no_duplicates(),
        forall|k: int| 0 <= k < done.len() ==> crate::schedule::holds(batch, #[trigger] done[k]),
    ensures
        done.push(batch[i].ingress).no_duplicates(),
        forall|k: int|
            0 <= k < done.push(batch[i].ingress).len() ==> crate::schedule::holds(
                batch,
                #[trigger] done.push(batch[i].ingress)[k],
            ),
{
    let next = done.push(batch[i].ingress);
    assert forall|a: int, b: int|
        0 <= a < next.len() && 0 <= b < next.len() && a != b implies next[a] != next[b] by {
        if a < done.len() && b < done.len() {
            assert(done[a] != done[b]);
        } else if a < done.len() {
            assert(done.contains(done[a]));
        } else {
            assert(done.contains(done[b]));
        }
    }
    assert forall|k: int| 0 <= k < next.len() implies crate::schedule::holds(
        batch,
        #[trigger] next[k],
    ) by {
        if k < done.len() {
            assert(crate::schedule::holds(batch, done[k]));
        } else {
            assert(crate::schedule::stands_at(batch, next[k], i));
        }
    }
}

/// A schedule is permitted as far as it goes.
pub(crate) proof fn lemma_permitted_so_far(batch: Seq<ExecTransaction>, done: Seq<IngressOrdinal>)
    requires
        crate::schedule::permitted(batch, done),
        done.len() > 0,
    ensures
        crate::schedule::permitted(batch, done.drop_last()),
        crate::schedule::may_follow(batch, done.drop_last()).contains(done.last()),
        done.drop_last().push(done.last()) == done,
{
    let init = done.drop_last();
    assert forall|k: int| 0 <= k < init.len() implies crate::schedule::may_follow(
        batch,
        init.take(k),
    ).contains(#[trigger] init[k]) by {
        assert(init.take(k) =~= done.take(k));
        assert(crate::schedule::may_follow(batch, done.take(k)).contains(done[k]));
    }
    assert(crate::schedule::may_follow(batch, done.take(done.len() - 1)).contains(
        done[done.len() - 1],
    ));
    assert(done.take(done.len() - 1) =~= init);
    assert(init.push(done.last()) =~= done);
}

/// A permitted schedule stays on course.
proof fn lemma_course(batch: Seq<ExecTransaction>, done: Seq<IngressOrdinal>)
    requires
        crate::schedule::in_order(batch),
        crate::schedule::permitted(batch, done),
    ensures
        is_on_course(batch, done),
    decreases done.len(),
{
    if done.len() == 0 {
        let start = crate::schedule::Progress::start(batch);
        assert(done =~= Seq::<IngressOrdinal>::empty());
        crate::heard::lemma_worded_start(batch);
        crate::heard::lemma_worded_releases(batch, start);
        crate::settled::lemma_settled_start(batch);
    } else {
        let init = done.drop_last();
        let o = done.last();
        lemma_permitted_so_far(batch, done);
        lemma_course(batch, init);
        let p = crate::schedule::progress_after(batch, init);
        let r = crate::schedule::readiness_after(batch, init);
        let heard = crate::heard::worded_releases(batch, p.releases);
        let i = crate::settled::lemma_ready(batch, init, heard, r, o);
        crate::schedule::lemma_tx_of(batch, i);
        let tx = batch[i];
        let before = crate::heard::worded(batch, p);
        let after = crate::heard::worded(batch, p.finished(tx));
        let words = crate::schedule::words_of(batch, tx.domain, p.releases_of(tx));
        crate::heard::lemma_worded_next(batch, p, i);
        crate::drained::lemma_drained_next(batch, init, before, after, i);
        crate::heard::lemma_worded_releases(batch, p);
        crate::heard::lemma_worded_releases(batch, p.finished(tx));
        crate::settled::lemma_settled_step(batch, init, heard, r, o, tx.domain, words);
        lemma_done_step(batch, init, i);
        assert forall|k: int, j: int, x: IngressOrdinal|
            0 <= k < done.len() && #[trigger] crate::schedule::stands_at(batch, done[k], j)
                && #[trigger] crate::settled::held_behind(batch, j, x)
                && crate::settled::comes_before(batch, j, x) implies done.take(k).contains(x) by {
            if k < init.len() {
                assert(done.take(k) =~= init.take(k));
                assert(crate::schedule::stands_at(batch, init[k], j));
            } else {
                assert(done.take(k) =~= init);
                if j < i {
                    assert(batch[j].ingress.0 < batch[i].ingress.0);
                } else if i < j {
                    assert(batch[i].ingress.0 < batch[j].ingress.0);
                }
            }
        }
    }
}

/// What is ready is outstanding, what it is held behind has completed, and the
/// stamps it waits for have been heard.
pub(crate) proof fn lemma_ready_at(
    batch: Seq<ExecTransaction>,
    done: Seq<IngressOrdinal>,
    o: IngressOrdinal,
) -> (i: int)
    requires
        crate::schedule::in_order(batch),
        crate::schedule::permitted(batch, done),
        crate::schedule::may_follow(batch, done).contains(o),
    ensures
        0 <= i < batch.len(),
        batch[i].ingress == o,
        !done.contains(o),
        forall|x: IngressOrdinal|
            #[trigger] crate::settled::held_behind(batch, i, x) && crate::settled::comes_before(
                batch,
                i,
                x,
            ) ==> done.contains(x),
        forall|w: StampWait| #[trigger]
            crate::schedule::stamp_waits_of(batch[i].prerequisites@).contains(w) ==> is_heard_after(
                batch,
                done,
                w,
            ),
{
    lemma_course(batch, done);
    crate::settled::lemma_ready(
        batch,
        done,
        crate::heard::worded_releases(
            batch,
            crate::schedule::progress_after(batch, done).releases,
        ),
        crate::schedule::readiness_after(batch, done),
        o,
    )
}

/// Once these have completed the wait has been answered.
pub open spec fn is_heard_after(
    batch: Seq<ExecTransaction>,
    done: Seq<IngressOrdinal>,
    w: StampWait,
) -> bool {
    crate::heard::is_heard(
        crate::stamped::values_in(
            crate::heard::worded_releases(
                batch,
                crate::schedule::progress_after(batch, done).releases,
            ),
            w.slot,
        ),
        w,
    )
}

/// An answered wait was answered by a stamp whose channel has completed up to
/// it.
pub(crate) proof fn lemma_heard_at(
    batch: Seq<ExecTransaction>,
    done: Seq<IngressOrdinal>,
    w: StampWait,
) -> (q: int)
    requires
        crate::schedule::in_order(batch),
        crate::schedule::permitted(batch, done),
        is_heard_after(batch, done, w),
    ensures
        0 <= q < batch.len(),
        crate::stamped::answers(batch[q], w),
        crate::stamped::told_through(batch, done, q),
{
    let p = crate::schedule::progress_after(batch, done);
    lemma_course(batch, done);
    crate::heard::lemma_worded_releases(batch, p);
    crate::heard::lemma_heard_by(batch, done, crate::heard::worded(batch, p), w)
}

/// The transactions that have stamped a slot once these have completed.
pub open spec fn stamped_by(
    batch: Seq<ExecTransaction>,
    done: Seq<IngressOrdinal>,
    slot: StampSlot,
) -> Seq<int> {
    crate::heard::stampers(
        batch,
        crate::heard::worded_releases(batch, crate::schedule::progress_after(batch, done).releases),
        slot,
    )
}

/// A permitted schedule stamps a slot in an order it may be stamped in.
pub(crate) proof fn lemma_stamp_order(
    batch: Seq<ExecTransaction>,
    done: Seq<IngressOrdinal>,
    slot: StampSlot,
)
    requires
        crate::schedule::in_order(batch),
        crate::schedule::permitted(batch, done),
    ensures
        crate::heard::is_stamp_order(batch, slot, stamped_by(batch, done, slot)),
    decreases done.len(),
{
    if done.len() == 0 {
        let start = crate::schedule::Progress::start(batch);
        crate::heard::lemma_worded_start(batch);
        crate::heard::lemma_worded_releases(batch, start);
        crate::heard::lemma_no_stampers(batch, slot);
    } else {
        let init = done.drop_last();
        lemma_permitted_so_far(batch, done);
        lemma_stamp_order(batch, init, slot);
        lemma_course(batch, init);
        lemma_course(batch, done);
        let i = lemma_ready_at(batch, init, done.last());
        crate::schedule::lemma_tx_of(batch, i);
        let tx = batch[i];
        let p = crate::schedule::progress_after(batch, init);
        let words = crate::schedule::words_of(batch, tx.domain, p.releases_of(tx));
        crate::heard::lemma_worded_next(batch, p, i);
        crate::heard::lemma_worded_releases(batch, p);
        crate::heard::lemma_worded_releases(batch, p.finished(tx));
        assert forall|a: int, b: int|
            0 <= a < batch.len() && 0 <= b < batch.len() && batch[a].domain != batch[b].domain
                && #[trigger] crate::follow::tells_first(batch, a, b)
                && crate::stamped::told_through(
                batch,
                done,
                b,
            ) implies crate::stamped::told_through(batch, init, a) by {
            crate::follow::lemma_told_earlier(batch, done, a, b);
        }
        crate::heard::lemma_stamp_order_step(
            batch,
            init,
            crate::heard::worded(batch, p),
            crate::heard::worded(batch, p.finished(tx)),
            crate::schedule::released_as(tx.domain, words),
            i,
            slot,
        );
    }
}

/// The last completion of a permitted schedule is of a transaction that had not
/// completed.
pub(crate) proof fn lemma_last_completed(
    batch: Seq<ExecTransaction>,
    done: Seq<IngressOrdinal>,
) -> (i: int)
    requires
        crate::schedule::in_order(batch),
        crate::schedule::permitted(batch, done),
        done.len() > 0,
    ensures
        0 <= i < batch.len(),
        batch[i].ingress == done.last(),
        !done.drop_last().contains(done.last()),
{
    lemma_permitted_so_far(batch, done);
    lemma_course(batch, done.drop_last());
    crate::settled::lemma_ready(
        batch,
        done.drop_last(),
        crate::heard::worded_releases(
            batch,
            crate::schedule::progress_after(batch, done.drop_last()).releases,
        ),
        crate::schedule::readiness_after(batch, done.drop_last()),
        done.last(),
    )
}

/// No permitted schedule lets work overtake what it waits for.
pub proof fn a_permitted_schedule_respects_waits(
    batch: Seq<ExecTransaction>,
    order: Seq<IngressOrdinal>,
)
    requires
        crate::schedule::in_order(batch),
        crate::schedule::permitted(batch, order),
    ensures
        respects_waits(batch, order),
{
    lemma_course(batch, order);
}

/// The earliest outstanding transaction is ready.
pub(crate) proof fn lemma_earliest_ready(
    batch: Seq<ExecTransaction>,
    done: Seq<IngressOrdinal>,
    i: int,
)
    requires
        crate::schedule::in_order(batch),
        stamps_come_first(batch),
        crate::heard::stamps_answer(batch),
        crate::schedule::permitted(batch, done),
        0 <= i < batch.len(),
        !done.contains(batch[i].ingress),
        forall|j: int| 0 <= j < i ==> done.contains((#[trigger] batch[j]).ingress),
    ensures
        crate::schedule::may_follow(batch, done).contains(batch[i].ingress),
{
    let p = crate::schedule::progress_after(batch, done);
    let r = crate::schedule::readiness_after(batch, done);
    let heard = crate::heard::worded_releases(batch, p.releases);
    lemma_course(batch, done);
    crate::heard::lemma_worded_releases(batch, p);
    assert forall|w: StampWait| #[trigger]
        crate::schedule::stamp_waits_of(batch[i].prerequisites@).contains(
            w,
        ) implies crate::heard::is_heard(crate::stamped::values_in(heard, w.slot), w) by {
        assert(answered_before(batch, i, w));
        let by = choose|by: int|
            0 <= by < i && crate::stamped::answers(#[trigger] batch[by], w);
        assert(crate::stamped::told_through(batch, done, by));
        lemma_stamp_order(batch, done, w.slot);
        crate::heard::lemma_answer_heard(batch, done, crate::heard::worded(batch, p), w, by);
    }
    crate::settled::lemma_earliest_is_ready(batch, done, heard, r, i);
}

/// Where the earliest outstanding transaction stands.
proof fn lemma_earliest_outstanding(
    batch: Seq<ExecTransaction>,
    done: Seq<IngressOrdinal>,
    n: int,
) -> (i: int)
    requires
        0 <= n <= batch.len(),
    ensures
        0 <= i <= n,
        i < n ==> !done.contains(batch[i].ingress),
        forall|j: int| 0 <= j < i ==> done.contains((#[trigger] batch[j]).ingress),
    decreases n,
{
    if n == 0 {
        0
    } else {
        let i = lemma_earliest_outstanding(batch, done, n - 1);
        if i == n - 1 && done.contains(batch[n - 1].ingress) {
            n
        } else {
            i
        }
    }
}

pub(crate) proof fn lemma_all_complete(batch: Seq<ExecTransaction>, order: Seq<IngressOrdinal>)
    requires
        crate::schedule::in_order(batch),
        stamps_come_first(batch),
        crate::heard::stamps_answer(batch),
        crate::schedule::permitted(batch, order),
        crate::schedule::exhausted(batch, order),
    ensures
        crate::words::is_shuffle(order, crate::schedule::ordinals(batch)),
        crate::schedule::readiness_after(batch, order).rows.len() == 0,
{
    let base = crate::schedule::ordinals(batch);
    let rows = crate::schedule::readiness_after(batch, order).rows;
    lemma_course(batch, order);
    let i = lemma_earliest_outstanding(batch, order, batch.len() as int);
    if i < batch.len() {
        lemma_earliest_ready(batch, order, i);
    }
    assert forall|o: IngressOrdinal| #[trigger] order.contains(o) == base.contains(o) by {
        if order.contains(o) {
            let k = choose|k: int| 0 <= k < order.len() && order[k] == o;
            assert(crate::schedule::holds(batch, order[k]));
            let j = crate::schedule::lemma_index(batch, o);
            assert(base[j] == o);
        }
        if base.contains(o) {
            let j = choose|j: int| 0 <= j < base.len() && base[j] == o;
            assert(order.contains(batch[j].ingress));
        }
    }
    if rows.len() > 0 {
        let o = rows[0].ordinal;
        assert(crate::ready::is_pending(rows, o));
        let j = crate::schedule::lemma_index(batch, o);
        assert(base[j] == o);
        assert(base.contains(o));
        assert(order.contains(o));
    }
}

/// An eligible batch, driven by any choice until nothing is ready, completes:
/// every transaction once, and nothing stalls.
///
/// The one thing asked beyond eligibility is that a stamp which answers a wait
/// leaves its slot where the wait is answered, which a slot that comes round
/// past the wait does not.
pub proof fn an_eligible_batch_completes(batch: Seq<ExecTransaction>, run: Run)
    requires
        crate::schedule::in_order(batch),
        crate::eligible::is_eligible(batch),
        crate::heard::stamps_answer(batch),
        crate::schedule::permitted(batch, crate::schedule::order_of(run)),
        crate::schedule::exhausted(batch, crate::schedule::order_of(run)),
        crate::schedule::stalls(batch, run),
    ensures
        run.stalled@.len() == 0,
        crate::words::is_shuffle(
            crate::schedule::order_of(run),
            crate::schedule::ordinals(batch),
        ),
        crate::schedule::order_of(run).len() == batch.len(),
        crate::schedule::readiness_after(batch, crate::schedule::order_of(run)).rows.len() == 0,
{
    let order = crate::schedule::order_of(run);
    an_eligible_batch_stamps_before_it_waits(batch);
    lemma_all_complete(batch, order);
    crate::words::lemma_ordinals_ascend(batch);
    crate::words::lemma_shuffle_len(order, crate::schedule::ordinals(batch));
    if run.stalled@.len() > 0 {
        assert(run.stalled@.contains(run.stalled@[0]));
    }
}

/// A permitted schedule may go on with what is ready.
proof fn lemma_permitted_next(
    batch: Seq<ExecTransaction>,
    done: Seq<IngressOrdinal>,
    o: IngressOrdinal,
)
    requires
        crate::schedule::permitted(batch, done),
        crate::schedule::may_follow(batch, done).contains(o),
    ensures
        crate::schedule::permitted(batch, done.push(o)),
{
    let order = done.push(o);
    assert forall|k: int| 0 <= k < order.len() implies crate::schedule::may_follow(
        batch,
        order.take(k),
    ).contains(#[trigger] order[k]) by {
        if k < done.len() {
            assert(order.take(k) =~= done.take(k));
            assert(crate::schedule::may_follow(batch, done.take(k)).contains(done[k]));
        } else {
            assert(order.take(k) =~= done);
        }
    }
}

/// Ingress order is a permitted schedule, as far as it goes.
pub(crate) proof fn lemma_serial_permitted(batch: Seq<ExecTransaction>, n: int)
    requires
        crate::schedule::in_order(batch),
        stamps_come_first(batch),
        crate::heard::stamps_answer(batch),
        0 <= n <= batch.len(),
    ensures
        crate::schedule::permitted(batch, crate::schedule::ordinals(batch).take(n)),
    decreases n,
{
    let base = crate::schedule::ordinals(batch);
    let order = base.take(n);
    if n > 0 {
        lemma_serial_permitted(batch, n - 1);
        let init = base.take(n - 1);
        assert(!init.contains(batch[n - 1].ingress)) by {
            if init.contains(batch[n - 1].ingress) {
                let k = choose|k: int| 0 <= k < init.len() && init[k] == batch[n - 1].ingress;
                assert(batch[k].ingress.0 < batch[n - 1].ingress.0);
            }
        }
        assert forall|j: int| 0 <= j < n - 1 implies init.contains((#[trigger] batch[j]).ingress) by {
            assert(init[j] == batch[j].ingress);
        }
        lemma_earliest_ready(batch, init, n - 1);
        lemma_permitted_next(batch, init, batch[n - 1].ingress);
        assert(order =~= init.push(batch[n - 1].ingress));
    }
}

/// Ingress order is a permitted schedule of an eligible batch, and leaves
/// nothing ready.
pub proof fn ingress_order_is_permitted(batch: Seq<ExecTransaction>)
    requires
        crate::schedule::in_order(batch),
        crate::eligible::is_eligible(batch),
        crate::heard::stamps_answer(batch),
    ensures
        crate::schedule::permitted(batch, crate::schedule::ordinals(batch)),
        crate::schedule::exhausted(batch, crate::schedule::ordinals(batch)),
{
    let base = crate::schedule::ordinals(batch);
    an_eligible_batch_stamps_before_it_waits(batch);
    lemma_serial_permitted(batch, batch.len() as int);
    assert(base.take(batch.len() as int) =~= base);
    lemma_course(batch, base);
    let p = crate::schedule::progress_after(batch, base);
    let r = crate::schedule::readiness_after(batch, base);
    let heard = crate::heard::worded_releases(batch, p.releases);
    let list = crate::schedule::ready_list(r.rows);
    if list.len() > 0 {
        assert(list.contains(list[0]));
        let i = crate::settled::lemma_ready(batch, base, heard, r, list[0]);
        assert(base[i] == batch[i].ingress);
        assert(base.contains(list[0]));
    }
}

/// Every completion is the lowest that was ready.
pub open spec fn takes_the_lowest(
    batch: Seq<ExecTransaction>,
    order: Seq<IngressOrdinal>,
) -> bool {
    forall|k: int|
        0 <= k < order.len() ==> (#[trigger] order[k]) == crate::schedule::may_follow(
            batch,
            order.take(k),
        )[0]
}

/// Always taking the lowest ready ordinal of an eligible batch reproduces
/// ingress order.
pub proof fn the_lowest_choice_is_ingress_order(
    batch: Seq<ExecTransaction>,
    order: Seq<IngressOrdinal>,
)
    requires
        crate::schedule::in_order(batch),
        crate::eligible::is_eligible(batch),
        crate::heard::stamps_answer(batch),
        crate::schedule::permitted(batch, order),
        crate::schedule::exhausted(batch, order),
        takes_the_lowest(batch, order),
    ensures
        order == crate::schedule::ordinals(batch),
{
    let base = crate::schedule::ordinals(batch);
    an_eligible_batch_stamps_before_it_waits(batch);
    lemma_all_complete(batch, order);
    crate::words::lemma_ordinals_ascend(batch);
    crate::words::lemma_shuffle_len(order, base);
    lemma_lowest_prefix(batch, order, order.len() as int);
    assert(order.take(order.len() as int) =~= order);
    assert(base.take(order.len() as int) =~= base);
}

/// Once the transactions before it have completed, and no others, a
/// transaction is the lowest that is ready.
proof fn lemma_lowest_ready(batch: Seq<ExecTransaction>, k: int)
    requires
        crate::schedule::in_order(batch),
        stamps_come_first(batch),
        crate::heard::stamps_answer(batch),
        0 <= k < batch.len(),
    ensures
        crate::schedule::may_follow(batch, crate::schedule::ordinals(batch).take(k)).len() > 0,
        crate::schedule::may_follow(batch, crate::schedule::ordinals(batch).take(k))[0]
            == batch[k].ingress,
{
    let done = crate::schedule::ordinals(batch).take(k);
    let p = crate::schedule::progress_after(batch, done);
    let r = crate::schedule::readiness_after(batch, done);
    let heard = crate::heard::worded_releases(batch, p.releases);
    let ready = crate::schedule::may_follow(batch, done);
    lemma_serial_permitted(batch, k);
    lemma_course(batch, done);
    assert(!done.contains(batch[k].ingress)) by {
        if done.contains(batch[k].ingress) {
            let x = choose|x: int| 0 <= x < done.len() && done[x] == batch[k].ingress;
            assert(batch[x].ingress.0 < batch[k].ingress.0);
        }
    }
    assert forall|j: int| 0 <= j < k implies done.contains((#[trigger] batch[j]).ingress) by {
        assert(done[j] == batch[j].ingress);
    }
    lemma_earliest_ready(batch, done, k);
    crate::schedule::lemma_ready_list(r.rows);
    let x = choose|x: int| 0 <= x < ready.len() && ready[x] == batch[k].ingress;
    if x > 0 {
        assert(ready.contains(ready[0]));
        let i = crate::settled::lemma_ready(batch, done, heard, r, ready[0]);
        assert(ready[0].0 < ready[x].0);
        if i < k {
            assert(done.contains(batch[i].ingress));
        } else if k < i {
            assert(batch[k].ingress.0 < batch[i].ingress.0);
        }
    }
}

proof fn lemma_lowest_prefix(batch: Seq<ExecTransaction>, order: Seq<IngressOrdinal>, n: int)
    requires
        crate::schedule::in_order(batch),
        stamps_come_first(batch),
        crate::heard::stamps_answer(batch),
        takes_the_lowest(batch, order),
        0 <= n <= order.len(),
        order.len() <= batch.len(),
    ensures
        order.take(n) == crate::schedule::ordinals(batch).take(n),
    decreases n,
{
    let base = crate::schedule::ordinals(batch);
    if n == 0 {
        assert(order.take(0) =~= base.take(0));
    } else {
        lemma_lowest_prefix(batch, order, n - 1);
        lemma_lowest_ready(batch, n - 1);
        assert(order[n - 1] == batch[n - 1].ingress);
        assert(order.take(n) =~= order.take(n - 1).push(order[n - 1]));
        assert(base.take(n) =~= base.take(n - 1).push(batch[n - 1].ingress));
    }
}

/// Each transaction is behind the one before it.
pub open spec fn is_a_chain(batch: Seq<ExecTransaction>) -> bool {
    forall|i: int|
        0 < i < batch.len() ==> #[trigger] crate::eligible::hazard_on(
            batch,
            i,
            batch[i - 1].ingress,
        )
}

/// A chain's transaction completes after every one before it.
proof fn lemma_chained(
    batch: Seq<ExecTransaction>,
    order: Seq<IngressOrdinal>,
    a: int,
    i: int,
    j: int,
)
    requires
        is_a_chain(batch),
        respects_waits(batch, order),
        0 <= i < j < batch.len(),
        0 <= a < order.len(),
        order[a] == batch[j].ingress,
    ensures
        order.take(a).contains(batch[i].ingress),
    decreases j,
{
    let o = batch[j - 1].ingress;
    assert(crate::eligible::hazard_on(batch, j, o));
    assert(crate::settled::held_behind(batch, j, o));
    assert(crate::settled::comes_before(batch, j, o));
    assert(crate::schedule::stands_at(batch, order[a], j));
    let front = order.take(a);
    assert(front.contains(o));
    if i < j - 1 {
        let c = choose|c: int| 0 <= c < front.len() && front[c] == o;
        lemma_chained(batch, order, c, i, j - 1);
        let x = choose|x: int|
            0 <= x < order.take(c).len() && order.take(c)[x] == batch[i].ingress;
        assert(front[x] == batch[i].ingress);
    }
}

/// A hazard chain has exactly one schedule.
pub proof fn a_hazard_chain_has_one_order(
    batch: Seq<ExecTransaction>,
    order: Seq<IngressOrdinal>,
)
    requires
        crate::schedule::in_order(batch),
        crate::eligible::is_eligible(batch),
        crate::heard::stamps_answer(batch),
        is_a_chain(batch),
        crate::schedule::permitted(batch, order),
        crate::schedule::exhausted(batch, order),
    ensures
        order == crate::schedule::ordinals(batch),
{
    let base = crate::schedule::ordinals(batch);
    an_eligible_batch_stamps_before_it_waits(batch);
    lemma_course(batch, order);
    lemma_all_complete(batch, order);
    crate::words::lemma_ordinals_ascend(batch);
    assert forall|a: int, b: int| 0 <= a < b < order.len() implies (#[trigger] order[a]).0 < (
    #[trigger] order[b]).0 by {
        let j = crate::schedule::lemma_index(batch, order[a]);
        let i = crate::schedule::lemma_index(batch, order[b]);
        assert(order[a] != order[b]);
        if i < j {
            lemma_chained(batch, order, a, i, j);
            let c = choose|c: int| 0 <= c < order.take(a).len() && order.take(a)[c] == order[b];
            assert(order[c] == order[b]);
        }
        assert(j < i);
        assert(batch[j].ingress.0 < batch[i].ingress.0);
    }
    assert forall|o: IngressOrdinal| order.contains(o) == base.contains(o) by {}
    crate::ordinal_set::ascending_is_determined(order, base);
}

/// Transactions of one domain that could share memory complete in the order
/// they arrived, whatever a schedule chooses, unless both only read it.
pub proof fn conflicting_transactions_complete_in_arrival_order(
    batch: Seq<ExecTransaction>,
    order: Seq<IngressOrdinal>,
    earlier: int,
    later: int,
    x: int,
    y: int,
    at: int,
)
    requires
        crate::schedule::in_order(batch),
        crate::schedule::permitted(batch, order),
        0 <= earlier < later < batch.len(),
        0 <= x < batch[earlier].accesses@.len(),
        0 <= y < batch[later].accesses@.len(),
        batch[earlier].accesses@[x].domain == batch[later].accesses@[y].domain,
        batch[earlier].accesses@[x].key.meets(batch[later].accesses@[y].key),
        !(batch[earlier].accesses@[x].mode is Read) || !(batch[later].accesses@[y].mode is Read),
        0 <= at < order.len(),
        order[at] == batch[later].ingress,
    ensures
        order.take(at).contains(batch[earlier].ingress),
{
    a_permitted_schedule_respects_waits(batch, order);
    crate::eligible::a_conflict_is_a_hazard(batch, earlier, later, x, y);
    let o = batch[earlier].ingress;
    assert(crate::schedule::stands_at(batch, order[at], later));
    assert(crate::schedule::stands_at(batch, o, earlier));
    assert(crate::settled::held_behind(batch, later, o));
    assert(crate::settled::comes_before(batch, later, o));
}

} // verus!
