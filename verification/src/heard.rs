//! The completion words the readiness service has heard.
//!
//! A channel's words are heard in channel order, whether or not the work behind
//! them was refused, and a slot stands at the latest of what has been put into
//! it. So a wait is answered once a word leaves its slot where the wait is
//! answered.

use vstd::prelude::*;
use crate::exec::ExecTransaction;
use crate::identity::{ChannelId, IngressOrdinal, StampSlot, StampValue, StampWait};
use crate::publish::Position;
use crate::schedule::{ChannelRelease, Progress};

verus! {

/// Where a slot stands once these values have been put into it: at the latest.
pub open spec fn stands(values: Seq<StampValue>) -> Option<StampValue>
    decreases values.len(),
{
    if values.len() == 0 {
        None
    } else {
        match stands(values.drop_last()) {
            Some(v) => Some(v.latest(values.last())),
            None => Some(values.last()),
        }
    }
}

/// The slot stands where the wait is answered.
pub open spec fn reached(at: Option<StampValue>, w: StampWait) -> bool {
    at matches Some(v) && v.has_reached(w.value)
}

/// The first `k` values leave the slot where the wait is answered.
pub open spec fn heard_at(values: Seq<StampValue>, w: StampWait, k: int) -> bool {
    0 < k <= values.len() && reached(stands(values.take(k)), w)
}

/// Some of the values, in turn, left the slot where the wait is answered.
pub open spec fn is_heard(values: Seq<StampValue>, w: StampWait) -> bool {
    exists|k: int| heard_at(values, w, k)
}

/// One more value is heard where it leaves the slot.
pub proof fn lemma_heard_push(values: Seq<StampValue>, v: StampValue, w: StampWait)
    ensures
        is_heard(values.push(v), w) == (is_heard(values, w) || reached(
            stands(values.push(v)),
            w,
        )),
{
    let more = values.push(v);
    let n = more.len() as int;
    assert(more.take(n) =~= more);
    if is_heard(values, w) {
        let k = choose|k: int| heard_at(values, w, k);
        assert(more.take(k) =~= values.take(k));
        assert(heard_at(more, w, k));
    }
    if reached(stands(more), w) {
        assert(heard_at(more, w, n));
    }
    if is_heard(more, w) {
        let k = choose|k: int| heard_at(more, w, k);
        if k < n {
            assert(more.take(k) =~= values.take(k));
            assert(heard_at(values, w, k));
        }
    }
}

/// Where a slot stands is one of the values.
proof fn lemma_stands_among(values: Seq<StampValue>)
    requires
        values.len() > 0,
    ensures
        stands(values) is Some,
        values.contains(stands(values)->0),
    decreases values.len(),
{
    let init = values.drop_last();
    assert(values[values.len() - 1] == values.last());
    if init.len() > 0 {
        lemma_stands_among(init);
        let k = choose|k: int| 0 <= k < init.len() && init[k] == stands(init)->0;
        assert(values[k] == init[k]);
    }
}

/// Values each after the one before leave the slot at the last, and answer what
/// one of them answers.
pub proof fn lemma_climbing_stands(values: Seq<StampValue>)
    requires
        crate::stamped::climbs(values),
    ensures
        stands(values) == crate::settled::last_of(values),
        forall|w: StampWait| #[trigger]
            is_heard(values, w) == crate::stamped::answered_in(values, w),
    decreases values.len(),
{
    if values.len() == 0 {
        assert forall|w: StampWait| #[trigger]
            is_heard(values, w) == crate::stamped::answered_in(values, w) by {
            if is_heard(values, w) {
                let k = choose|k: int| heard_at(values, w, k);
            }
        }
    } else {
        let init = values.drop_last();
        let last = values.last();
        assert forall|x: int, y: int| 0 <= x && y == x + 1 && y < init.len() implies (
        #[trigger] init[y]).is_after(#[trigger] init[x]) by {
            assert(values[x] == init[x] && values[y] == init[y]);
        }
        lemma_climbing_stands(init);
        if init.len() > 0 {
            assert(values[values.len() - 1].is_after(values[values.len() - 2]));
            assert(init.last() == values[values.len() - 2]);
        }
        assert(init.push(last) =~= values);
        assert forall|w: StampWait| #[trigger]
            is_heard(values, w) == crate::stamped::answered_in(values, w) by {
            lemma_heard_push(init, last, w);
            assert(is_heard(init, w) == crate::stamped::answered_in(init, w));
            if crate::stamped::answered_in(init, w) {
                let k = choose|k: int|
                    0 <= k < init.len() && (#[trigger] init[k]).has_reached(w.value);
                assert(values[k] == init[k]);
            }
            if crate::stamped::answered_in(values, w) {
                let k = choose|k: int|
                    0 <= k < values.len() && (#[trigger] values[k]).has_reached(w.value);
                if k < init.len() {
                    assert(init[k] == values[k]);
                }
            }
            if last.has_reached(w.value) {
                assert(values[values.len() - 1].has_reached(w.value));
            }
        }
    }
}

/// A channel position carries its own transaction's word.
pub proof fn lemma_word_at(batch: Seq<ExecTransaction>, i: int)
    requires
        crate::schedule::in_order(batch),
        0 <= i < batch.len(),
    ensures
        crate::schedule::has_position(batch, batch[i].domain, batch[i].domain_sequence, i),
        forall|j: int| #[trigger]
            crate::schedule::has_position(batch, batch[i].domain, batch[i].domain_sequence, j)
                ==> j == i,
        crate::schedule::word_at(batch, batch[i].domain, batch[i].domain_sequence)
            == batch[i].publication.stamp,
{
    let d = batch[i].domain;
    let s = batch[i].domain_sequence;
    assert(crate::schedule::has_position(batch, d, s, i));
    assert forall|j: int| #[trigger] crate::schedule::has_position(batch, d, s, j) implies j == i by {
        if j < i {
            assert(batch[j].domain == batch[i].domain);
        } else if i < j {
            assert(batch[i].domain == batch[j].domain);
        }
    }
}

/// A queue with every finished position carrying its word.
spec fn worded_queue(batch: Seq<ExecTransaction>, d: ChannelId, q: Seq<Position>) -> Seq<Position> {
    q.map_values(
        |x: Position|
            Position {
                stamp: if x.finished {
                    crate::schedule::word_at(batch, d, x.sequence)
                } else {
                    None
                },
                ..x
            },
    )
}

/// Releases, each with its position's word.
pub open spec fn worded_releases(
    batch: Seq<ExecTransaction>,
    releases: Seq<ChannelRelease>,
) -> Seq<ChannelRelease> {
    releases.map_values(
        |r: ChannelRelease|
            ChannelRelease { stamp: crate::schedule::word_at(batch, r.domain, r.sequence), ..r },
    )
}

/// A run's channels, as they would stand if nothing were refused.
pub closed spec fn worded(batch: Seq<ExecTransaction>, p: Progress) -> Progress {
    Progress {
        queues: Map::new(
            |d: ChannelId| p.queues.dom().contains(d),
            |d: ChannelId| worded_queue(batch, d, p.queues[d]),
        ),
        releases: worded_releases(batch, p.releases),
        ..p
    }
}

/// What the readiness service has heard.
pub proof fn lemma_worded_releases(batch: Seq<ExecTransaction>, p: Progress)
    ensures
        worded(batch, p).releases == worded_releases(batch, p.releases),
{
}

proof fn lemma_worded_queue_in(batch: Seq<ExecTransaction>, p: Progress, d: ChannelId)
    ensures
        crate::schedule::queue_in(worded(batch, p).queues, d) == worded_queue(
            batch,
            d,
            crate::schedule::queue_in(p.queues, d),
        ),
{
    assert(crate::schedule::queue_in(worded(batch, p).queues, d) =~= worded_queue(
        batch,
        d,
        crate::schedule::queue_in(p.queues, d),
    ));
}

/// Before anything has completed.
pub proof fn lemma_worded_start(batch: Seq<ExecTransaction>)
    ensures
        crate::drained::is_drained(batch, Seq::empty(), worded(batch, Progress::start(batch))),
        worded(batch, Progress::start(batch)).releases == Seq::<ChannelRelease>::empty(),
{
    let none = Seq::<IngressOrdinal>::empty();
    let start = Progress::start(batch);
    let after = worded(batch, start);
    crate::drained::lemma_drained_start(batch);
    assert(after.releases =~= Seq::<ChannelRelease>::empty());
    assert forall|d: ChannelId| #[trigger]
        crate::drained::channel_drained(batch, none, after, d) by {
        assert(crate::drained::channel_drained(batch, none, start, d));
        lemma_worded_queue_in(batch, start, d);
        crate::drained::lemma_first_marks(batch, d, batch.len() as int);
        let q = crate::schedule::queue_in(start.queues, d);
        lemma_unfinished_marks(batch, d, batch.len() as int);
        assert(worded_queue(batch, d, q) =~= q);
        assert(start.releases =~= after.releases);
    }
}

proof fn lemma_unfinished_marks(batch: Seq<ExecTransaction>, d: ChannelId, n: int)
    requires
        0 <= n <= batch.len(),
    ensures
        forall|k: int|
            0 <= k < crate::drained::marks(batch, Seq::empty(), d, n).len() ==> {
                &&& !(#[trigger] crate::drained::marks(batch, Seq::empty(), d, n)[k]).finished
                &&& crate::drained::marks(batch, Seq::empty(), d, n)[k].stamp is None
            },
    decreases n,
{
    if n > 0 {
        lemma_unfinished_marks(batch, d, n - 1);
    }
}

/// One more completion, refused or not, finishes its position with its word.
pub proof fn lemma_worded_next(batch: Seq<ExecTransaction>, p: Progress, i: int)
    requires
        crate::schedule::in_order(batch),
        0 <= i < batch.len(),
    ensures
        crate::drained::is_next(
            worded(batch, p),
            worded(batch, p.finished(batch[i])),
            batch[i],
        ),
        worded(batch, p.finished(batch[i])).releases == worded(batch, p).releases
            + crate::schedule::released_as(
            batch[i].domain,
            crate::schedule::words_of(batch, batch[i].domain, p.releases_of(batch[i])),
        ),
{
    let tx = batch[i];
    let d = tx.domain;
    let before = worded(batch, p);
    let after = worded(batch, p.finished(tx));
    let q = p.finished_queue(tx);
    let wq = crate::drained::finished_in(before, tx);
    lemma_word_at(batch, i);
    lemma_worded_queue_in(batch, p, d);
    assert(wq =~= worded_queue(batch, d, q));
    crate::publish::lemma_prefix(q);
    let n = crate::publish::finished_prefix(q) as int;
    assert forall|k: int| 0 <= k < n implies (#[trigger] wq[k]).finished by {
        assert(q[k].finished);
    }
    crate::drained::lemma_prefix_is(wq, n);
    assert(crate::publish::left_by(wq) =~= worded_queue(batch, d, crate::publish::left_by(q)));
    let fresh = crate::publish::published_by(q);
    let words = crate::schedule::words_of(batch, d, fresh);
    assert(crate::publish::published_by(wq) =~= words) by {
        assert forall|k: int| 0 <= k < n implies #[trigger] crate::publish::published_by(wq)[k]
            == words[k] by {
            assert(q[k].finished);
        }
    }
    assert(after.queues =~= before.queues.insert(d, crate::publish::left_by(wq)));
    assert(after.releases =~= before.releases + crate::schedule::released_as(d, words));
}

/// Where nothing has been refused, the words are the releases' own.
pub proof fn lemma_words_are_own(
    batch: Seq<ExecTransaction>,
    done: Seq<IngressOrdinal>,
    p: Progress,
)
    requires
        crate::schedule::in_order(batch),
        crate::drained::is_drained(batch, done, p),
    ensures
        worded_releases(batch, p.releases) == p.releases,
{
    let words = worded_releases(batch, p.releases);
    assert forall|k: int| 0 <= k < p.releases.len() implies words[k] == p.releases[k] by {
        let i = crate::stamped::lemma_release_owner(batch, done, p, k);
        lemma_word_at(batch, i);
    }
    assert(words =~= p.releases);
}

/// An order in which a slot may be stamped: each transaction once, and after
/// every earlier one whose stamp is told first.
pub open spec fn is_stamp_order(
    batch: Seq<ExecTransaction>,
    slot: StampSlot,
    order: Seq<int>,
) -> bool {
    &&& order.no_duplicates()
    &&& forall|k: int|
        0 <= k < order.len() ==> 0 <= (#[trigger] order[k]) < batch.len()
            && crate::stamped::stamps_slot(batch[order[k]], slot)
    &&& forall|k: int, j: int|
        0 <= k < order.len() && 0 <= j < (#[trigger] order[k])
            && #[trigger] crate::stamped::stamps_slot(batch[j], slot)
            && crate::follow::tells_first(batch, j, order[k]) ==> order.take(k).contains(j)
}

/// The values transactions put into the slot they stamp.
pub open spec fn values_of(batch: Seq<ExecTransaction>, order: Seq<int>) -> Seq<StampValue> {
    Seq::new(order.len(), |k: int| batch[order[k]].publication.stamp->0.value)
}

/// In whatever order the wait's slot may be stamped, a stamp that answers the
/// wait leaves the slot where it is answered.
pub open spec fn is_answered_in_turn(batch: Seq<ExecTransaction>, w: StampWait) -> bool {
    forall|order: Seq<int>|
        #[trigger] is_stamp_order(batch, w.slot, order) && order.len() > 0
            && crate::stamped::answers(batch[order.last()], w) ==> reached(
            stands(values_of(batch, order)),
            w,
        )
}

/// Every stamp that answers a wait of the batch leaves its slot where the wait
/// is answered. Only a slot that has come round past a wait fails this.
pub open spec fn stamps_answer(batch: Seq<ExecTransaction>) -> bool {
    forall|i: int, w: StampWait|
        0 <= i < batch.len() && #[trigger] crate::schedule::stamp_waits_of(
            batch[i].prerequisites@,
        ).contains(w) ==> is_answered_in_turn(batch, w)
}

/// No stamp of a slot stands past one that answers a wait without answering it
/// too: the slot does not come round.
pub open spec fn comes_round(batch: Seq<ExecTransaction>, w: StampWait, p: int, q: int) -> bool {
    &&& 0 <= p < batch.len()
    &&& 0 <= q < batch.len()
    &&& crate::stamped::answers(batch[p], w)
    &&& crate::stamped::stamps_slot(batch[q], w.slot)
    &&& !batch[p].publication.stamp->0.value.is_after(batch[q].publication.stamp->0.value)
    &&& !crate::stamped::answers(batch[q], w)
}

/// A batch whose slots do not come round past a wait answers its waits, whatever
/// order they are stamped in.
pub proof fn slots_that_do_not_come_round_answer(batch: Seq<ExecTransaction>)
    requires
        forall|i: int, w: StampWait, p: int, q: int|
            0 <= i < batch.len() && #[trigger] crate::schedule::stamp_waits_of(
                batch[i].prerequisites@,
            ).contains(w) ==> !#[trigger] comes_round(batch, w, p, q),
    ensures
        stamps_answer(batch),
{
    assert forall|i: int, w: StampWait|
        0 <= i < batch.len() && #[trigger] crate::schedule::stamp_waits_of(
            batch[i].prerequisites@,
        ).contains(w) implies is_answered_in_turn(batch, w) by {
        assert forall|order: Seq<int>|
            #[trigger] is_stamp_order(batch, w.slot, order) && order.len() > 0
                && crate::stamped::answers(batch[order.last()], w) implies reached(
            stands(values_of(batch, order)),
            w,
        ) by {
            let values = values_of(batch, order);
            let init = values.drop_last();
            let p = order[order.len() - 1];
            assert(values.last() == batch[p].publication.stamp->0.value);
            if init.len() > 0 {
                lemma_stands_among(init);
                let k = choose|k: int| 0 <= k < init.len() && init[k] == stands(init)->0;
                let q = order[k];
                assert(init[k] == batch[q].publication.stamp->0.value);
                assert(!comes_round(batch, w, p, q));
            }
        }
    }
}

/// A slot may be stamped as far as it has been.
proof fn lemma_stamp_order_so_far(
    batch: Seq<ExecTransaction>,
    slot: StampSlot,
    order: Seq<int>,
    n: int,
)
    requires
        is_stamp_order(batch, slot, order),
        0 <= n <= order.len(),
    ensures
        is_stamp_order(batch, slot, order.take(n)),
{
    let some = order.take(n);
    assert forall|k: int, j: int|
        0 <= k < some.len() && 0 <= j < (#[trigger] some[k])
            && #[trigger] crate::stamped::stamps_slot(batch[j], slot)
            && crate::follow::tells_first(batch, j, some[k]) implies some.take(k).contains(j) by {
        assert(some.take(k) =~= order.take(k));
        assert(order[k] == some[k]);
    }
    assert forall|k: int| 0 <= k < some.len() implies 0 <= (#[trigger] some[k]) < batch.len()
        && crate::stamped::stamps_slot(batch[some[k]], slot) by {
        assert(order[k] == some[k]);
    }
}

/// Where stamps of one slot are told in arrival order, what has been put into
/// the slot is what the transactions before some place put there.
pub proof fn lemma_ordered_list(
    batch: Seq<ExecTransaction>,
    slot: StampSlot,
    order: Seq<int>,
) -> (m: int)
    requires
        crate::follow::slots_ordered(batch),
        is_stamp_order(batch, slot, order),
    ensures
        0 <= m <= batch.len(),
        values_of(batch, order) == crate::stamped::slot_list(batch, slot, m),
        forall|j: int|
            0 <= j < batch.len() && crate::stamped::stamps_slot(#[trigger] batch[j], slot)
                ==> order.contains(j) == (j < m),
    decreases order.len(),
{
    if order.len() == 0 {
        assert(values_of(batch, order) =~= crate::stamped::slot_list(batch, slot, 0));
        0
    } else {
        let n = order.len() - 1;
        let init = order.take(n);
        let last = order[n];
        lemma_stamp_order_so_far(batch, slot, order, n);
        let m = lemma_ordered_list(batch, slot, init);
        assert(order =~= init.push(last));
        assert(!init.contains(last)) by {
            if init.contains(last) {
                let k = choose|k: int| 0 <= k < init.len() && init[k] == last;
                assert(order[k] == order[n]);
            }
        }
        assert forall|j: int| m <= j < last implies !crate::stamped::stamps_slot(
            #[trigger] batch[j],
            slot,
        ) by {
            if crate::stamped::stamps_slot(batch[j], slot) {
                assert(crate::stamped::stamps_slot(batch[last], slot));
                assert(crate::follow::tells_first(batch, j, order[n]));
                assert(init.contains(j));
            }
        }
        crate::stamped::lemma_list_gap(batch, slot, m, last);
        let before = values_of(batch, init);
        let value = batch[last].publication.stamp->0.value;
        assert(crate::stamped::put(batch[last].publication.stamp, slot) == seq![value]);
        assert(values_of(batch, order) =~= before + seq![value]);
        assert forall|j: int|
            0 <= j < batch.len() && crate::stamped::stamps_slot(
                #[trigger] batch[j],
                slot,
            ) implies order.contains(j) == (j < last + 1) by {
            lemma_int_push(init, last, j);
        }
        last + 1
    }
}

/// Where stamps of one slot are told in arrival order and advance it, every
/// stamp stands when it comes.
pub proof fn climbing_slots_answer(batch: Seq<ExecTransaction>)
    requires
        crate::follow::slots_ordered(batch),
        crate::stamped::slots_climb(batch),
    ensures
        stamps_answer(batch),
{
    assert forall|i: int, w: StampWait|
        0 <= i < batch.len() && #[trigger] crate::schedule::stamp_waits_of(
            batch[i].prerequisites@,
        ).contains(w) implies is_answered_in_turn(batch, w) by {
        assert forall|order: Seq<int>|
            #[trigger] is_stamp_order(batch, w.slot, order) && order.len() > 0
                && crate::stamped::answers(batch[order.last()], w) implies reached(
            stands(values_of(batch, order)),
            w,
        ) by {
            let values = values_of(batch, order);
            let m = lemma_ordered_list(batch, w.slot, order);
            crate::stamped::lemma_list_climbs(batch, w.slot, m);
            lemma_climbing_stands(values);
        }
    }
}

/// How many transactions of a channel stand before a place.
spec fn place(batch: Seq<ExecTransaction>, d: ChannelId, j: int) -> nat
    decreases j,
{
    if j <= 0 {
        0
    } else if batch[j - 1].domain == d {
        place(batch, d, j - 1) + 1
    } else {
        place(batch, d, j - 1)
    }
}

proof fn lemma_place_grows(batch: Seq<ExecTransaction>, d: ChannelId, i: int, j: int)
    requires
        0 <= i <= j,
    ensures
        place(batch, d, i) <= place(batch, d, j),
        i < j && batch[i].domain == d ==> place(batch, d, i) < place(batch, d, j),
    decreases j,
{
    if i < j {
        lemma_place_grows(batch, d, i, j - 1);
    }
}

proof fn lemma_marks_len(
    batch: Seq<ExecTransaction>,
    done: Seq<IngressOrdinal>,
    d: ChannelId,
    n: int,
)
    ensures
        crate::drained::marks(batch, done, d, n).len() == place(batch, d, n),
    decreases n,
{
    if n > 0 {
        lemma_marks_len(batch, done, d, n - 1);
    }
}

/// What a channel tells at a place is that transaction's.
proof fn lemma_told_at(
    batch: Seq<ExecTransaction>,
    done: Seq<IngressOrdinal>,
    d: ChannelId,
    m: int,
) -> (i: int)
    requires
        crate::schedule::in_order(batch),
        0 <= m < crate::drained::told(batch, done, d).len(),
    ensures
        0 <= i < batch.len(),
        batch[i].domain == d,
        crate::drained::told(batch, done, d)[m] == crate::stamped::release_of(batch[i]),
        place(batch, d, i) == m,
{
    let n = batch.len() as int;
    let told = crate::drained::told(batch, done, d);
    let q = crate::drained::all_marks(batch, done, d);
    crate::stamped::lemma_told(batch, done, d);
    crate::publish::lemma_prefix(q);
    let i = choose|i: int|
        0 <= i < batch.len() && done.contains((#[trigger] batch[i]).ingress) && batch[i].domain == d
            && told[m] == crate::stamped::release_of(batch[i]);
    let k = crate::drained::lemma_mark_place(batch, done, i, n);
    lemma_marks_len(batch, done, d, i);
    crate::drained::lemma_marks(batch, done, d, n);
    assert(q[m].sequence == told[m].sequence);
    if k < m {
        assert(q[k].sequence.0 < q[m].sequence.0);
    } else if m < k {
        assert(q[m].sequence.0 < q[k].sequence.0);
    }
    i
}

/// The transactions whose words stamped a slot, in order.
pub closed spec fn stampers(
    batch: Seq<ExecTransaction>,
    releases: Seq<ChannelRelease>,
    slot: StampSlot,
) -> Seq<int>
    decreases releases.len(),
{
    if releases.len() == 0 {
        Seq::empty()
    } else {
        let before = stampers(batch, releases.drop_last(), slot);
        let last = releases.last();
        if crate::stamped::put(last.stamp, slot).len() > 0 {
            before.push(
                choose|i: int| crate::schedule::has_position(batch, last.domain, last.sequence, i),
            )
        } else {
            before
        }
    }
}

/// Each transaction stamps once, and after every earlier one of its channel.
spec fn is_channel_order(batch: Seq<ExecTransaction>, slot: StampSlot, order: Seq<int>) -> bool {
    &&& order.no_duplicates()
    &&& forall|k: int|
        0 <= k < order.len() ==> 0 <= (#[trigger] order[k]) < batch.len()
            && crate::stamped::stamps_slot(batch[order[k]], slot)
    &&& forall|k: int, j: int|
        0 <= k < order.len() && 0 <= j < (#[trigger] order[k]) && batch[j].domain
            == batch[order[k]].domain && #[trigger] crate::stamped::stamps_slot(batch[j], slot)
            ==> order.take(k).contains(j)
}

/// The stampers so far are those whose place their channel has passed.
spec fn are_stampers(
    batch: Seq<ExecTransaction>,
    releases: Seq<ChannelRelease>,
    slot: StampSlot,
    order: Seq<int>,
) -> bool {
    &&& is_channel_order(batch, slot, order)
    &&& values_of(batch, order) == crate::stamped::values_in(releases, slot)
    &&& forall|j: int|
        0 <= j < batch.len() ==> (#[trigger] order.contains(j) == (crate::stamped::stamps_slot(
            batch[j],
            slot,
        ) && place(batch, batch[j].domain, j) < crate::schedule::released_on(
            releases,
            batch[j].domain,
        ).len()))
}

proof fn lemma_stampers(
    batch: Seq<ExecTransaction>,
    done: Seq<IngressOrdinal>,
    p: Progress,
    slot: StampSlot,
    n: int,
)
    requires
        crate::schedule::in_order(batch),
        crate::drained::is_drained(batch, done, p),
        0 <= n <= p.releases.len(),
    ensures
        are_stampers(
            batch,
            p.releases.take(n),
            slot,
            stampers(batch, p.releases.take(n), slot),
        ),
    decreases n,
{
    let now = p.releases.take(n);
    let order = stampers(batch, now, slot);
    reveal(Seq::filter);
    if n == 0 {
        assert(values_of(batch, order) =~= crate::stamped::values_in(now, slot));
        assert forall|j: int| 0 <= j < batch.len() implies (#[trigger] order.contains(j) == (
        crate::stamped::stamps_slot(batch[j], slot) && place(batch, batch[j].domain, j)
            < crate::schedule::released_on(now, batch[j].domain).len())) by {
            assert(crate::schedule::released_on(now, batch[j].domain).len() == 0);
        }
    } else {
        lemma_stampers(batch, done, p, slot, n - 1);
        let was = p.releases.take(n - 1);
        let before = stampers(batch, was, slot);
        let last = p.releases[n - 1];
        let d = last.domain;
        assert(now.drop_last() =~= was);
        assert(now.last() == last);
        let m = crate::schedule::released_on(was, d).len() as int;
        assert(crate::drained::channel_drained(batch, done, p, d));
        assert(now + p.releases.skip(n) =~= p.releases);
        crate::drained::lemma_released_on(now, p.releases.skip(n), d);
        let own = crate::schedule::released_on(now, d);
        assert(own == crate::schedule::released_on(was, d).push(last));
        assert(own[m] == last);
        assert(crate::drained::told(batch, done, d)[m] == last);
        let i = lemma_told_at(batch, done, d, m);
        lemma_word_at(batch, i);
        let put = crate::stamped::put(last.stamp, slot);
        assert(put == crate::stamped::put(batch[i].publication.stamp, slot));
        let values = crate::stamped::values_in(was, slot);
        assert(before.contains(i) ==> place(batch, d, i) < m);
        if put.len() > 0 {
            assert(crate::schedule::has_position(batch, d, last.sequence, i));
            assert(order == before.push(i));
            assert(values_of(batch, order) =~= values_of(batch, before).push(
                batch[i].publication.stamp->0.value,
            ));
            assert(values + put =~= values.push(batch[i].publication.stamp->0.value));
            assert forall|a: int, b: int|
                0 <= a < order.len() && 0 <= b < order.len() && a != b implies order[a]
                != order[b] by {
                if a < before.len() && b < before.len() {
                    assert(before[a] != before[b]);
                } else if a < before.len() {
                    assert(before.contains(before[a]));
                } else {
                    assert(before.contains(before[b]));
                }
            }
            assert forall|k: int, j: int|
                0 <= k < order.len() && 0 <= j < (#[trigger] order[k]) && batch[j].domain
                    == batch[order[k]].domain && #[trigger] crate::stamped::stamps_slot(
                    batch[j],
                    slot,
                ) implies order.take(k).contains(j) by {
                if k < before.len() {
                    assert(order.take(k) =~= before.take(k));
                    assert(before[k] == order[k]);
                } else {
                    assert(order.take(k) =~= before);
                    lemma_place_grows(batch, d, j, i);
                    assert(before.contains(j));
                }
            }
        } else {
            assert(values + put =~= values);
        }
        assert forall|j: int| 0 <= j < batch.len() implies (#[trigger] order.contains(j) == (
        crate::stamped::stamps_slot(batch[j], slot) && place(batch, batch[j].domain, j)
            < crate::schedule::released_on(now, batch[j].domain).len())) by {
            assert(before.contains(j) == (crate::stamped::stamps_slot(batch[j], slot) && place(
                batch,
                batch[j].domain,
                j,
            ) < crate::schedule::released_on(was, batch[j].domain).len()));
            if put.len() > 0 {
                lemma_int_push(before, i, j);
            }
            if batch[j].domain == d {
                if j < i {
                    lemma_place_grows(batch, d, j, i);
                } else if i < j {
                    lemma_place_grows(batch, d, i, j);
                }
            }
        }
    }
}

proof fn lemma_int_push(s: Seq<int>, i: int, j: int)
    ensures
        s.push(i).contains(j) == (s.contains(j) || i == j),
{
    let more = s.push(i);
    assert(more[s.len() as int] == i);
    if s.contains(j) {
        let k = choose|k: int| 0 <= k < s.len() && s[k] == j;
        assert(more[k] == j);
    }
    if more.contains(j) && i != j {
        let k = choose|k: int| 0 <= k < more.len() && more[k] == j;
        assert(s[k] == j);
    }
}

/// A channel has passed a transaction's place once everything of it up to there
/// has completed.
proof fn lemma_told_place(
    batch: Seq<ExecTransaction>,
    done: Seq<IngressOrdinal>,
    p: Progress,
    j: int,
)
    requires
        crate::schedule::in_order(batch),
        crate::drained::is_drained(batch, done, p),
        0 <= j < batch.len(),
    ensures
        (place(batch, batch[j].domain, j) < crate::schedule::released_on(
            p.releases,
            batch[j].domain,
        ).len()) == crate::stamped::told_through(batch, done, j),
{
    let d = batch[j].domain;
    let m = crate::stamped::lemma_cut(batch, done, d, 0);
    crate::stamped::lemma_told_before_cut(batch, done, d, m);
    lemma_marks_len(batch, done, d, m);
    assert(crate::drained::channel_drained(batch, done, p, d));
    if j < m {
        lemma_place_grows(batch, d, j, m);
    } else {
        lemma_place_grows(batch, d, m, j);
        assert(batch[m].domain == d && !done.contains(batch[m].ingress));
    }
}

/// What has stamped a slot is what has been told, and put its values there.
pub proof fn lemma_stampers_told(
    batch: Seq<ExecTransaction>,
    done: Seq<IngressOrdinal>,
    p: Progress,
    slot: StampSlot,
)
    requires
        crate::schedule::in_order(batch),
        crate::drained::is_drained(batch, done, p),
    ensures
        values_of(batch, stampers(batch, p.releases, slot)) == crate::stamped::values_in(
            p.releases,
            slot,
        ),
        stampers(batch, p.releases, slot).no_duplicates(),
        forall|k: int|
            0 <= k < stampers(batch, p.releases, slot).len() ==> 0 <= (#[trigger] stampers(
                batch,
                p.releases,
                slot,
            )[k]) < batch.len() && crate::stamped::stamps_slot(
                batch[stampers(batch, p.releases, slot)[k]],
                slot,
            ),
        forall|j: int|
            0 <= j < batch.len() ==> (#[trigger] stampers(batch, p.releases, slot).contains(j) == (
            crate::stamped::stamps_slot(batch[j], slot) && crate::stamped::told_through(
                batch,
                done,
                j,
            ))),
{
    let n = p.releases.len() as int;
    let order = stampers(batch, p.releases, slot);
    assert(p.releases.take(n) =~= p.releases);
    lemma_stampers(batch, done, p, slot, n);
    assert forall|j: int| 0 <= j < batch.len() implies (#[trigger] order.contains(j) == (
    crate::stamped::stamps_slot(batch[j], slot) && crate::stamped::told_through(
        batch,
        done,
        j,
    ))) by {
        lemma_told_place(batch, done, p, j);
    }
}

/// Before anything is released nothing is stamped.
pub proof fn lemma_no_stampers(batch: Seq<ExecTransaction>, slot: StampSlot)
    ensures
        is_stamp_order(batch, slot, stampers(batch, Seq::empty(), slot)),
{
}

/// What more releases stamp comes after what was stamped.
proof fn lemma_stampers_more(
    batch: Seq<ExecTransaction>,
    a: Seq<ChannelRelease>,
    b: Seq<ChannelRelease>,
    slot: StampSlot,
)
    ensures
        stampers(batch, a + b, slot) == stampers(batch, a, slot) + stampers(batch, b, slot),
    decreases b.len(),
{
    if b.len() == 0 {
        assert(a + b =~= a);
        assert(stampers(batch, a, slot) + stampers(batch, b, slot) =~= stampers(batch, a, slot));
    } else {
        let init = b.drop_last();
        lemma_stampers_more(batch, a, init, slot);
        assert((a + b).drop_last() =~= a + init);
        assert((a + b).last() == b.last());
        assert(stampers(batch, a + b, slot) =~= stampers(batch, a, slot) + stampers(
            batch,
            b,
            slot,
        ));
    }
}

/// One more completion stamps a slot in an order it may be stamped in, where a
/// stamp that is told first had been told before.
pub proof fn lemma_stamp_order_step(
    batch: Seq<ExecTransaction>,
    done: Seq<IngressOrdinal>,
    p: Progress,
    after: Progress,
    fresh: Seq<ChannelRelease>,
    c: int,
    slot: StampSlot,
)
    requires
        crate::schedule::in_order(batch),
        0 <= c < batch.len(),
        crate::drained::is_drained(batch, done, p),
        crate::drained::is_drained(batch, done.push(batch[c].ingress), after),
        after.releases == p.releases + fresh,
        is_stamp_order(batch, slot, stampers(batch, p.releases, slot)),
        forall|i: int, j: int|
            0 <= i < batch.len() && 0 <= j < batch.len() && batch[i].domain != batch[j].domain
                && #[trigger] crate::follow::tells_first(batch, i, j)
                && crate::stamped::told_through(batch, done.push(batch[c].ingress), j)
                ==> crate::stamped::told_through(batch, done, i),
    ensures
        is_stamp_order(batch, slot, stampers(batch, after.releases, slot)),
{
    let next = done.push(batch[c].ingress);
    let before = stampers(batch, p.releases, slot);
    let order = stampers(batch, after.releases, slot);
    let n = after.releases.len() as int;
    lemma_stampers_more(batch, p.releases, fresh, slot);
    lemma_stampers_told(batch, done, p, slot);
    lemma_stampers_told(batch, next, after, slot);
    assert(after.releases.take(n) =~= after.releases);
    lemma_stampers(batch, next, after, slot, n);
    assert forall|k: int, j: int|
        0 <= k < order.len() && 0 <= j < (#[trigger] order[k])
            && #[trigger] crate::stamped::stamps_slot(batch[j], slot)
            && crate::follow::tells_first(batch, j, order[k]) implies order.take(k).contains(j) by {
        let q = order[k];
        if k < before.len() {
            assert(before[k] == order[k]);
            assert(order.take(k) =~= before.take(k));
        } else if batch[j].domain != batch[q].domain {
            assert(order.contains(q));
            assert(crate::stamped::told_through(batch, next, q));
            assert(before.contains(j));
            let x = choose|x: int| 0 <= x < before.len() && before[x] == j;
            assert(order.take(k)[x] == j);
        }
    }
}

/// Where an answered wait was answered: by a stamp that has been told.
pub proof fn lemma_heard_by(
    batch: Seq<ExecTransaction>,
    done: Seq<IngressOrdinal>,
    p: Progress,
    w: StampWait,
) -> (q: int)
    requires
        crate::schedule::in_order(batch),
        crate::drained::is_drained(batch, done, p),
        is_heard(crate::stamped::values_in(p.releases, w.slot), w),
    ensures
        0 <= q < batch.len(),
        crate::stamped::answers(batch[q], w),
        crate::stamped::told_through(batch, done, q),
{
    let values = crate::stamped::values_in(p.releases, w.slot);
    let order = stampers(batch, p.releases, w.slot);
    lemma_stampers_told(batch, done, p, w.slot);
    let k = choose|k: int| heard_at(values, w, k);
    let some = values.take(k);
    lemma_stands_among(some);
    let x = choose|x: int| 0 <= x < some.len() && some[x] == stands(some)->0;
    let q = order[x];
    assert(values[x] == values_of(batch, order)[x]);
    assert(order.contains(q));
    q
}

/// Once a stamp that answers a wait has been told, the wait has been answered.
pub proof fn lemma_answer_heard(
    batch: Seq<ExecTransaction>,
    done: Seq<IngressOrdinal>,
    p: Progress,
    w: StampWait,
    by: int,
)
    requires
        crate::schedule::in_order(batch),
        crate::drained::is_drained(batch, done, p),
        is_stamp_order(batch, w.slot, stampers(batch, p.releases, w.slot)),
        is_answered_in_turn(batch, w),
        0 <= by < batch.len(),
        crate::stamped::answers(batch[by], w),
        crate::stamped::told_through(batch, done, by),
    ensures
        is_heard(crate::stamped::values_in(p.releases, w.slot), w),
{
    let values = crate::stamped::values_in(p.releases, w.slot);
    let order = stampers(batch, p.releases, w.slot);
    lemma_stampers_told(batch, done, p, w.slot);
    assert(order.contains(by));
    let k = choose|k: int| 0 <= k < order.len() && order[k] == by;
    let some = order.take(k + 1);
    lemma_stamp_order_so_far(batch, w.slot, order, k + 1);
    assert(some.last() == by);
    assert(values_of(batch, some) =~= values.take(k + 1));
    assert(heard_at(values, w, k + 1));
}

} // verus!
