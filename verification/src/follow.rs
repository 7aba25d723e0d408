//! What completes only after what.
//!
//! A hazard keeps a transaction behind another, and so does a wait for an event.
//! A stamp is told only once everything of its channel up to it has completed,
//! so a stamp wait keeps its waiter behind whatever each of the stamps that
//! could answer it is told after.

use vstd::prelude::*;
use crate::exec::ExecTransaction;
use crate::identity::{IngressOrdinal, StampSlot, StampWait};

verus! {

/// The transaction at `j` completes only once the ordinal has, as no more than
/// `n` reasons in a row show.
pub open spec fn kept_behind(
    batch: Seq<ExecTransaction>,
    n: nat,
    j: int,
    o: IngressOrdinal,
) -> bool
    decreases n, 0int,
{
    let m = (n - 1) as nat;
    n > 0 && {
        ||| crate::settled::comes_before(batch, j, o) && crate::settled::held_behind(batch, j, o)
        ||| exists|k: int|
            0 <= k < batch.len() && kept_behind(batch, m, j, (#[trigger] batch[k]).ingress)
                && kept_behind(batch, m, k, o)
        ||| exists|w: StampWait| #[trigger]
            crate::schedule::stamp_waits_of(batch[j].prerequisites@).contains(w)
                && answers_told_behind(batch, m, w, o)
    }
}

/// Every stamp that answers the wait is told only once the ordinal has
/// completed, as no more than `n` reasons in a row show.
pub open spec fn answers_told_behind(
    batch: Seq<ExecTransaction>,
    n: nat,
    w: StampWait,
    o: IngressOrdinal,
) -> bool
    decreases n, 2int,
{
    forall|q: int|
        0 <= q < batch.len() && crate::stamped::answers(#[trigger] batch[q], w) ==> told_behind(
            batch,
            n,
            q,
            o,
        )
}

/// The stamp of the transaction at `q` is told only once the ordinal has
/// completed, as no more than `n` reasons in a row show.
pub open spec fn told_behind(
    batch: Seq<ExecTransaction>,
    n: nat,
    q: int,
    o: IngressOrdinal,
) -> bool
    decreases n, 1int,
{
    exists|y: int|
        0 <= y <= q && (#[trigger] batch[y]).domain == batch[q].domain && (batch[y].ingress == o
            || kept_behind(batch, n, y, o))
}

/// The transaction at `j` completes only once the ordinal has.
pub open spec fn always_after(batch: Seq<ExecTransaction>, j: int, o: IngressOrdinal) -> bool {
    exists|n: nat| kept_behind(batch, n, j, o)
}

/// The channel of the transaction at `j` reaches its stamp only once the ordinal
/// has completed: the ordinal is of the channel, or something of the channel
/// completes only after it.
pub open spec fn told_after(batch: Seq<ExecTransaction>, j: int, o: IngressOrdinal) -> bool {
    exists|y: int|
        0 <= y <= j && (#[trigger] batch[y]).domain == batch[j].domain && (batch[y].ingress == o
            || always_after(batch, y, o))
}

/// The stamp of the transaction at `i` is told before that of the one at `j`:
/// everything its channel tells it after has completed first.
pub open spec fn tells_first(batch: Seq<ExecTransaction>, i: int, j: int) -> bool {
    forall|x: int|
        0 <= x <= i && (#[trigger] batch[x]).domain == batch[i].domain ==> told_after(
            batch,
            j,
            batch[x].ingress,
        )
}

/// Stamps of one slot are told in arrival order.
pub open spec fn slots_ordered(batch: Seq<ExecTransaction>) -> bool {
    forall|i: int, j: int, slot: StampSlot|
        0 <= i < j < batch.len() && #[trigger] crate::stamped::stamps_slot(batch[i], slot)
            && #[trigger] crate::stamped::stamps_slot(batch[j], slot) ==> tells_first(batch, i, j)
}

/// Each slot is stamped by one channel.
pub open spec fn one_channel_each(batch: Seq<ExecTransaction>) -> bool {
    forall|i: int, j: int, slot: StampSlot|
        0 <= i < batch.len() && 0 <= j < batch.len() && #[trigger] crate::stamped::stamps_slot(
            batch[i],
            slot,
        ) && #[trigger] crate::stamped::stamps_slot(batch[j], slot) ==> batch[i].domain
            == batch[j].domain
}

/// A channel tells its stamps in order, so slots that are one channel's each are
/// stamped in arrival order.
pub proof fn a_channel_of_its_own_orders_a_slot(batch: Seq<ExecTransaction>)
    requires
        one_channel_each(batch),
    ensures
        slots_ordered(batch),
{
    assert forall|i: int, j: int, slot: StampSlot|
        0 <= i < j < batch.len() && #[trigger] crate::stamped::stamps_slot(batch[i], slot)
            && #[trigger] crate::stamped::stamps_slot(batch[j], slot) implies tells_first(
        batch,
        i,
        j,
    ) by {
        assert forall|x: int|
            0 <= x <= i && (#[trigger] batch[x]).domain == batch[i].domain implies told_after(
            batch,
            j,
            batch[x].ingress,
        ) by {
            assert(batch[x].domain == batch[j].domain);
        }
    }
}

/// A schedule is permitted up to any point.
proof fn lemma_permitted_up_to(
    batch: Seq<ExecTransaction>,
    order: Seq<IngressOrdinal>,
    a: int,
)
    requires
        crate::schedule::permitted(batch, order),
        0 <= a <= order.len(),
    ensures
        crate::schedule::permitted(batch, order.take(a)),
{
    let front = order.take(a);
    assert forall|k: int| 0 <= k < front.len() implies crate::schedule::may_follow(
        batch,
        front.take(k),
    ).contains(#[trigger] front[k]) by {
        assert(front.take(k) =~= order.take(k));
        assert(crate::schedule::may_follow(batch, order.take(k)).contains(order[k]));
    }
}

/// What completed before something that completed earlier completed earlier.
proof fn lemma_earlier_still(
    order: Seq<IngressOrdinal>,
    a: int,
    c: int,
    o: IngressOrdinal,
)
    requires
        0 <= c <= a <= order.len(),
        order.take(c).contains(o),
    ensures
        order.take(a).contains(o),
{
    let x = choose|x: int| 0 <= x < order.take(c).len() && order.take(c)[x] == o;
    assert(order.take(a)[x] == o);
}

/// When a transaction completed, what it was held behind had completed and what
/// it waited for had been heard.
proof fn lemma_was_ready(
    batch: Seq<ExecTransaction>,
    order: Seq<IngressOrdinal>,
    a: int,
    j: int,
)
    requires
        crate::schedule::in_order(batch),
        crate::schedule::permitted(batch, order),
        0 <= a < order.len(),
        0 <= j < batch.len(),
        order[a] == batch[j].ingress,
    ensures
        crate::schedule::permitted(batch, order.take(a)),
        forall|x: IngressOrdinal|
            #[trigger] crate::settled::held_behind(batch, j, x) && crate::settled::comes_before(
                batch,
                j,
                x,
            ) ==> order.take(a).contains(x),
        forall|w: StampWait| #[trigger]
            crate::schedule::stamp_waits_of(batch[j].prerequisites@).contains(w)
                ==> crate::completion::is_heard_after(batch, order.take(a), w),
{
    lemma_permitted_up_to(batch, order, a);
    assert(crate::schedule::may_follow(batch, order.take(a)).contains(order[a]));
    let i = crate::completion::lemma_ready_at(batch, order.take(a), order[a]);
    if i < j {
        assert(batch[i].ingress.0 < batch[j].ingress.0);
    } else if j < i {
        assert(batch[j].ingress.0 < batch[i].ingress.0);
    }
}

/// The reason a transaction is kept behind an ordinal: directly, through another
/// transaction, or by a stamp wait.
proof fn lemma_reason(
    batch: Seq<ExecTransaction>,
    n: nat,
    j: int,
    o: IngressOrdinal,
) -> (r: (int, StampWait))
    requires
        kept_behind(batch, n, j, o),
    ensures
        n > 0,
        ({
            ||| crate::settled::comes_before(batch, j, o) && crate::settled::held_behind(
                batch,
                j,
                o,
            )
            ||| 0 <= r.0 < batch.len() && kept_behind(
                batch,
                (n - 1) as nat,
                j,
                batch[r.0].ingress,
            ) && kept_behind(batch, (n - 1) as nat, r.0, o)
            ||| crate::schedule::stamp_waits_of(batch[j].prerequisites@).contains(r.1)
                && answers_told_behind(batch, (n - 1) as nat, r.1, o)
        }),
{
    let m = (n - 1) as nat;
    let k = choose|k: int|
        0 <= k < batch.len() && kept_behind(batch, m, j, (#[trigger] batch[k]).ingress)
            && kept_behind(batch, m, k, o);
    let w = choose|w: StampWait| #[trigger]
        crate::schedule::stamp_waits_of(batch[j].prerequisites@).contains(w)
            && answers_told_behind(batch, m, w, o);
    (k, w)
}

proof fn lemma_kept_behind(
    batch: Seq<ExecTransaction>,
    order: Seq<IngressOrdinal>,
    a: int,
    n: nat,
    j: int,
    o: IngressOrdinal,
)
    requires
        crate::schedule::in_order(batch),
        crate::schedule::permitted(batch, order),
        0 <= a < order.len(),
        0 <= j < batch.len(),
        order[a] == batch[j].ingress,
        kept_behind(batch, n, j, o),
    ensures
        order.take(a).contains(o),
    decreases n, 0int,
{
    let m = (n - 1) as nat;
    let done = order.take(a);
    let r = lemma_reason(batch, n, j, o);
    lemma_was_ready(batch, order, a, j);
    if crate::settled::comes_before(batch, j, o) && crate::settled::held_behind(batch, j, o) {
    } else if 0 <= r.0 < batch.len() && kept_behind(batch, m, j, batch[r.0].ingress)
        && kept_behind(batch, m, r.0, o) {
        lemma_kept_behind(batch, order, a, m, j, batch[r.0].ingress);
        let c = choose|c: int| 0 <= c < done.len() && done[c] == batch[r.0].ingress;
        assert(order[c] == batch[r.0].ingress);
        lemma_kept_behind(batch, order, c, m, r.0, o);
        lemma_earlier_still(order, a, c, o);
    } else {
        let q = crate::completion::lemma_heard_at(batch, done, r.1);
        assert(told_behind(batch, m, q, o));
        lemma_told_behind(batch, order, a, m, q, o);
    }
}

/// What a told stamp is told behind has completed.
proof fn lemma_told_behind(
    batch: Seq<ExecTransaction>,
    order: Seq<IngressOrdinal>,
    a: int,
    n: nat,
    q: int,
    o: IngressOrdinal,
)
    requires
        crate::schedule::in_order(batch),
        crate::schedule::permitted(batch, order),
        0 <= a <= order.len(),
        0 <= q < batch.len(),
        crate::stamped::told_through(batch, order.take(a), q),
        told_behind(batch, n, q, o),
    ensures
        order.take(a).contains(o),
    decreases n, 1int,
{
    let done = order.take(a);
    let y = choose|y: int|
        0 <= y <= q && (#[trigger] batch[y]).domain == batch[q].domain && (batch[y].ingress == o
            || kept_behind(batch, n, y, o));
    assert(done.contains(batch[y].ingress));
    if batch[y].ingress != o {
        let c = choose|c: int| 0 <= c < done.len() && done[c] == batch[y].ingress;
        assert(order[c] == batch[y].ingress);
        lemma_kept_behind(batch, order, c, n, y, o);
        lemma_earlier_still(order, a, c, o);
    }
}

/// No permitted schedule completes a transaction before what it is always
/// after.
pub proof fn what_is_always_after_completes_after(
    batch: Seq<ExecTransaction>,
    order: Seq<IngressOrdinal>,
    a: int,
    j: int,
    o: IngressOrdinal,
)
    requires
        crate::schedule::in_order(batch),
        crate::schedule::permitted(batch, order),
        0 <= a < order.len(),
        crate::schedule::stands_at(batch, order[a], j),
        always_after(batch, j, o),
    ensures
        order.take(a).contains(o),
{
    let n = choose|n: nat| kept_behind(batch, n, j, o);
    lemma_kept_behind(batch, order, a, n, j, o);
}

/// What a told stamp of another channel is told after had completed before the
/// last of these.
proof fn lemma_told_after(
    batch: Seq<ExecTransaction>,
    order: Seq<IngressOrdinal>,
    x: int,
    j: int,
)
    requires
        crate::schedule::in_order(batch),
        crate::schedule::permitted(batch, order),
        0 <= x < batch.len(),
        0 <= j < batch.len(),
        batch[x].domain != batch[j].domain,
        told_after(batch, j, batch[x].ingress),
        crate::stamped::told_through(batch, order, j),
    ensures
        order.drop_last().contains(batch[x].ingress),
{
    let o = batch[x].ingress;
    let y = choose|y: int|
        0 <= y <= j && (#[trigger] batch[y]).domain == batch[j].domain && (batch[y].ingress == o
            || always_after(batch, y, o));
    if x < y {
        assert(batch[x].ingress.0 < batch[y].ingress.0);
    } else if y < x {
        assert(batch[y].ingress.0 < batch[x].ingress.0);
    }
    assert(order.contains(batch[y].ingress));
    let a = choose|a: int| 0 <= a < order.len() && order[a] == batch[y].ingress;
    assert(crate::schedule::stands_at(batch, order[a], y));
    what_is_always_after_completes_after(batch, order, a, y, o);
    let z = choose|z: int| 0 <= z < order.take(a).len() && order.take(a)[z] == o;
    assert(order.drop_last()[z] == o);
}

/// A stamp that is told before one of another channel had been told before the
/// last of these completed.
pub(crate) proof fn lemma_told_earlier(
    batch: Seq<ExecTransaction>,
    order: Seq<IngressOrdinal>,
    i: int,
    j: int,
)
    requires
        crate::schedule::in_order(batch),
        crate::schedule::permitted(batch, order),
        0 <= i < batch.len(),
        0 <= j < batch.len(),
        batch[i].domain != batch[j].domain,
        tells_first(batch, i, j),
        crate::stamped::told_through(batch, order, j),
    ensures
        crate::stamped::told_through(batch, order.drop_last(), i),
{
    assert forall|x: int|
        0 <= x <= i && (#[trigger] batch[x]).domain
            == batch[i].domain implies order.drop_last().contains(batch[x].ingress) by {
        lemma_told_after(batch, order, x, j);
    }
}

} // verus!
