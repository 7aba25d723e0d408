//! What an outstanding transaction is still waiting for.
//!
//! Every row of the readiness service is accounted for by which transactions
//! have completed and which values have been put into which slots. So a ready
//! transaction's whole past has completed, and while anything is outstanding
//! the earliest of it is ready.

use vstd::prelude::*;
use crate::exec::ExecTransaction;
use crate::identity::{
    ChannelId, IngressOrdinal, StampSlot, StampValue, StampWait,
};
use crate::publish::Release;
use crate::ready::{Discharge, Readiness, Waiting};
use crate::schedule::ChannelRelease;

verus! {

/// The ordinal is of a transaction before the one at `i`.
pub open spec fn comes_before(batch: Seq<ExecTransaction>, i: int, o: IngressOrdinal) -> bool {
    exists|j: int| 0 <= j < i && (#[trigger] batch[j]).ingress == o
}

/// The transaction at `i` must not overtake the ordinal.
pub open spec fn held_behind(batch: Seq<ExecTransaction>, i: int, o: IngressOrdinal) -> bool {
    crate::eligible::hazard_on(batch, i, o) || crate::schedule::event_producer(
        batch,
        batch[i].ingress,
        o,
    )
}

/// The transaction at `i` still waits for the ordinal to complete.
pub open spec fn owed_hazard(
    batch: Seq<ExecTransaction>,
    done: Seq<IngressOrdinal>,
    i: int,
    o: IngressOrdinal,
) -> bool {
    held_behind(batch, i, o) && comes_before(batch, i, o) && !done.contains(o)
}

/// The transaction at `i` still waits for the stamp.
pub open spec fn owed_stamp(
    batch: Seq<ExecTransaction>,
    releases: Seq<ChannelRelease>,
    i: int,
    w: StampWait,
) -> bool {
    crate::schedule::stamp_waits_of(batch[i].prerequisites@).contains(w)
        && !crate::heard::is_heard(crate::stamped::values_in(releases, w.slot), w)
}

/// The row is what the transaction at `i` still waits for.
pub open spec fn row_is(
    batch: Seq<ExecTransaction>,
    done: Seq<IngressOrdinal>,
    releases: Seq<ChannelRelease>,
    row: Waiting,
    i: int,
) -> bool {
    &&& 0 <= i < batch.len()
    &&& row.ordinal == batch[i].ingress
    &&& row.pipelines.len() == 0
    &&& forall|o: IngressOrdinal| #[trigger]
        row.hazards.contains(o) == owed_hazard(batch, done, i, o)
    &&& forall|w: StampWait| #[trigger]
        row.stamps.contains(w) == owed_stamp(batch, releases, i, w)
}

/// The row is of some transaction of the batch.
pub open spec fn is_a_row(
    batch: Seq<ExecTransaction>,
    done: Seq<IngressOrdinal>,
    releases: Seq<ChannelRelease>,
    row: Waiting,
) -> bool {
    exists|i: int| row_is(batch, done, releases, row, i)
}

/// The last of some values.
pub open spec fn last_of(values: Seq<StampValue>) -> Option<StampValue> {
    if values.len() == 0 { None } else { Some(values.last()) }
}

/// The readiness service holds exactly what is outstanding and what each still
/// waits for.
pub open spec fn is_settled(
    batch: Seq<ExecTransaction>,
    done: Seq<IngressOrdinal>,
    releases: Seq<ChannelRelease>,
    readiness: Readiness,
) -> bool {
    &&& crate::ready::rows_ascending(readiness.rows)
    &&& forall|o: IngressOrdinal| #[trigger]
        crate::ready::is_pending(readiness.rows, o) == (crate::schedule::holds(batch, o)
            && !done.contains(o))
    &&& forall|r: int|
        0 <= r < readiness.rows.len() ==> is_a_row(
            batch,
            done,
            releases,
            #[trigger] readiness.rows[r],
        )
    &&& forall|slot: StampSlot| #[trigger]
        crate::ready::standing(readiness.stamps, slot) == crate::heard::stands(
            crate::stamped::values_in(releases, slot),
        )
}

/// Before anything has completed.
pub proof fn lemma_settled_start(batch: Seq<ExecTransaction>)
    requires
        crate::schedule::in_order(batch),
    ensures
        is_settled(
            batch,
            Seq::empty(),
            Seq::empty(),
            crate::schedule::readiness_after(batch, Seq::empty()),
        ),
{
    let n = batch.len() as int;
    let none = Seq::<IngressOrdinal>::empty();
    let silent = Seq::<ChannelRelease>::empty();
    let readiness = crate::schedule::readiness_after(batch, none);
    let rows = crate::schedule::first_rows(batch, n);
    crate::schedule::lemma_first_rows(batch, n);
    assert forall|o: IngressOrdinal| #[trigger]
        crate::ready::is_pending(rows, o) == (crate::schedule::holds(batch, o) && !none.contains(
            o,
        )) by {
        if crate::schedule::holds(batch, o) {
            let i = choose|i: int| crate::schedule::stands_at(batch, o, i);
            assert(batch[i].ingress == o);
        }
        if exists|i: int| 0 <= i < n && (#[trigger] batch[i]).ingress == o {
            let i = choose|i: int| 0 <= i < n && (#[trigger] batch[i]).ingress == o;
            assert(crate::schedule::stands_at(batch, o, i));
        }
    }
    assert forall|i: int| 0 <= i < rows.len() implies is_a_row(
        batch,
        none,
        silent,
        #[trigger] rows[i],
    ) by {
        let row = rows[i];
        crate::schedule::lemma_first_rows(batch, i);
        assert forall|o: IngressOrdinal| #[trigger]
            row.hazards.contains(o) == owed_hazard(batch, none, i, o) by {}
        assert forall|w: StampWait| #[trigger]
            row.stamps.contains(w) == owed_stamp(batch, silent, i, w) by {
            let values = crate::stamped::values_in(silent, w.slot);
            if crate::heard::is_heard(values, w) {
                let k = choose|k: int| crate::heard::heard_at(values, w, k);
            }
        }
        assert(row_is(batch, none, silent, row, i));
    }
}

/// A transaction has completed and nothing has been announced yet.
proof fn lemma_settled_completed(
    batch: Seq<ExecTransaction>,
    done: Seq<IngressOrdinal>,
    releases: Seq<ChannelRelease>,
    readiness: Readiness,
    o: IngressOrdinal,
)
    requires
        is_settled(batch, done, releases, readiness),
        crate::ready::is_pending(readiness.rows, o),
    ensures
        is_settled(batch, done.push(o), releases, readiness.completed(o)),
{
    let rows = readiness.rows;
    let next = done.push(o);
    let at = choose|at: int| 0 <= at < rows.len() && (#[trigger] rows[at]).ordinal == o;
    crate::ready::lemma_rows_without(rows, at);
    let left = rows.remove(at);
    let after = readiness.completed(o);
    let event = Discharge::Completed(o);
    assert(after.rows == crate::ready::all_after(left, event));
    assert forall|x: IngressOrdinal| #[trigger]
        crate::ready::is_pending(after.rows, x) == (crate::schedule::holds(batch, x)
            && !next.contains(x)) by {
        crate::ready::lemma_pending_completed(readiness, o, x);
        crate::drained::lemma_push_contains(done, o, x);
        assert(crate::ready::is_pending(rows, x) == (crate::schedule::holds(batch, x)
            && !done.contains(x)));
    }
    assert forall|a: int, b: int| 0 <= a < b < after.rows.len() implies (
    #[trigger] after.rows[a]).ordinal.0 < (#[trigger] after.rows[b]).ordinal.0 by {
        let x = if a < at { a } else { a + 1 };
        let y = if b < at { b } else { b + 1 };
        assert(rows[x].ordinal.0 < rows[y].ordinal.0);
    }
    assert forall|r: int| 0 <= r < after.rows.len() implies is_a_row(
        batch,
        next,
        releases,
        #[trigger] after.rows[r],
    ) by {
        let x = if r < at { r } else { r + 1 };
        let row = rows[x];
        let moved = after.rows[r];
        assert(moved == row.after(event));
        assert(is_a_row(batch, done, releases, row));
        let i = choose|i: int| row_is(batch, done, releases, row, i);
        assert forall|y: IngressOrdinal| #[trigger]
            moved.hazards.contains(y) == owed_hazard(batch, next, i, y) by {
            crate::drained::lemma_push_contains(done, o, y);
            assert(row.hazards.contains(y) == owed_hazard(batch, done, i, y));
        }
        assert forall|w: StampWait| #[trigger]
            moved.stamps.contains(w) == owed_stamp(batch, releases, i, w) by {
            assert(row.stamps.contains(w) == owed_stamp(batch, releases, i, w));
        }
        assert(row_is(batch, next, releases, moved, i));
    }
}

/// What a filter keeps is what was there and passes.
proof fn lemma_kept<A>(s: Seq<A>, pass: spec_fn(A) -> bool, x: A)
    ensures
        s.filter(pass).contains(x) == (s.contains(x) && pass(x)),
    decreases s.len(),
{
    reveal(Seq::filter);
    if s.len() > 0 {
        let init = s.drop_last();
        let kept = init.filter(pass);
        let out = s.filter(pass);
        lemma_kept(init, pass, x);
        if s.contains(x) {
            let k = choose|k: int| 0 <= k < s.len() && s[k] == x;
            if k < init.len() {
                assert(init[k] == x);
            }
        }
        if init.contains(x) {
            let k = choose|k: int| 0 <= k < init.len() && init[k] == x;
            assert(s[k] == x);
        }
        assert(s[s.len() - 1] == s.last());
        if kept.contains(x) {
            let k = choose|k: int| 0 <= k < kept.len() && kept[k] == x;
            assert(out[k] == x);
        }
        if pass(s.last()) {
            assert(out[kept.len() as int] == s.last());
        }
        if out.contains(x) {
            let k = choose|k: int| 0 <= k < out.len() && out[k] == x;
            if k < kept.len() {
                assert(kept[k] == x);
            }
        }
    }
}

/// One more stamp has been announced.
proof fn lemma_settled_published(
    batch: Seq<ExecTransaction>,
    done: Seq<IngressOrdinal>,
    releases: Seq<ChannelRelease>,
    readiness: Readiness,
    release: ChannelRelease,
)
    requires
        is_settled(batch, done, releases, readiness),
        release.stamp is Some,
    ensures
        is_settled(batch, done, releases.push(release), readiness.published(release.stamp->0)),
{
    let stamp = release.stamp->0;
    let more = releases.push(release);
    let rows = readiness.rows;
    let after = readiness.published(stamp);
    let before = crate::stamped::values_in(releases, stamp.slot);
    assert(more.drop_last() =~= releases);
    assert forall|slot: StampSlot| #[trigger]
        crate::stamped::values_in(more, slot) == (if slot == stamp.slot {
            crate::stamped::values_in(releases, slot).push(stamp.value)
        } else {
            crate::stamped::values_in(releases, slot)
        }) by {
        let old_values = crate::stamped::values_in(releases, slot);
        let put = crate::stamped::put(release.stamp, slot);
        if slot == stamp.slot {
            assert(old_values + put =~= old_values.push(stamp.value));
        } else {
            assert(old_values + put =~= old_values);
        }
    }
    let grown = crate::stamped::values_in(more, stamp.slot);
    assert(grown == before.push(stamp.value));
    assert(grown.drop_last() =~= before);
    assert(crate::ready::standing(readiness.stamps, stamp.slot) == crate::heard::stands(before));
    let at = crate::ready::slot_after(readiness.stamps, stamp);
    assert(crate::heard::stands(grown) == Some(at));
    let event = Discharge::Published(stamp.slot, at);
    assert(after.rows == crate::ready::all_after(rows, event));
    assert forall|slot: StampSlot| #[trigger]
        crate::ready::standing(after.stamps, slot) == crate::heard::stands(
            crate::stamped::values_in(more, slot),
        ) by {
        assert(crate::ready::standing(readiness.stamps, slot) == crate::heard::stands(
            crate::stamped::values_in(releases, slot),
        ));
        assert(crate::stamped::values_in(more, slot) == crate::stamped::values_in(more, slot));
    }
    assert forall|x: IngressOrdinal| #[trigger]
        crate::ready::is_pending(after.rows, x) == (crate::schedule::holds(batch, x)
            && !done.contains(x)) by {
        crate::ready::lemma_pending_after(rows, event, x);
        assert(crate::ready::is_pending(rows, x) == (crate::schedule::holds(batch, x)
            && !done.contains(x)));
    }
    assert forall|r: int| 0 <= r < after.rows.len() implies is_a_row(
        batch,
        done,
        more,
        #[trigger] after.rows[r],
    ) by {
        let row = rows[r];
        let moved = after.rows[r];
        assert(moved == row.after(event));
        assert(is_a_row(batch, done, releases, row));
        let i = choose|i: int| row_is(batch, done, releases, row, i);
        assert forall|w: StampWait| #[trigger]
            moved.stamps.contains(w) == owed_stamp(batch, more, i, w) by {
            lemma_kept(
                row.stamps,
                |w: StampWait| !crate::ready::point_met(w, stamp.slot, at),
                w,
            );
            assert(row.stamps.contains(w) == owed_stamp(batch, releases, i, w));
            if w.slot == stamp.slot {
                crate::heard::lemma_heard_push(before, stamp.value, w);
            } else {
                assert(crate::stamped::values_in(more, w.slot) == crate::stamped::values_in(
                    releases,
                    w.slot,
                ));
            }
        }
        assert forall|y: IngressOrdinal| #[trigger]
            moved.hazards.contains(y) == owed_hazard(batch, done, i, y) by {
            assert(row.hazards.contains(y) == owed_hazard(batch, done, i, y));
        }
        assert(row_is(batch, done, more, moved, i));
    }
}

/// A release without a stamp announces nothing.
proof fn lemma_settled_silent(
    batch: Seq<ExecTransaction>,
    done: Seq<IngressOrdinal>,
    releases: Seq<ChannelRelease>,
    readiness: Readiness,
    release: ChannelRelease,
)
    requires
        is_settled(batch, done, releases, readiness),
        release.stamp is None,
    ensures
        is_settled(batch, done, releases.push(release), readiness),
{
    let more = releases.push(release);
    assert(more.drop_last() =~= releases);
    assert forall|slot: StampSlot| #[trigger]
        crate::stamped::values_in(more, slot) == crate::stamped::values_in(releases, slot) by {
        let values = crate::stamped::values_in(releases, slot);
        assert(values + crate::stamped::put(release.stamp, slot) =~= values);
    }
    assert forall|slot: StampSlot| #[trigger]
        crate::ready::standing(readiness.stamps, slot) == crate::heard::stands(
            crate::stamped::values_in(more, slot),
        ) by {
        assert(crate::stamped::values_in(more, slot) == crate::stamped::values_in(releases, slot));
    }
    assert forall|r: int| 0 <= r < readiness.rows.len() implies is_a_row(
        batch,
        done,
        more,
        #[trigger] readiness.rows[r],
    ) by {
        let row = readiness.rows[r];
        assert(is_a_row(batch, done, releases, row));
        let i = choose|i: int| row_is(batch, done, releases, row, i);
        assert forall|w: StampWait| #[trigger]
            row.stamps.contains(w) == owed_stamp(batch, more, i, w) by {
            assert(row.stamps.contains(w) == owed_stamp(batch, releases, i, w));
            assert(crate::stamped::values_in(more, w.slot) == crate::stamped::values_in(
                releases,
                w.slot,
            ));
        }
        assert(row_is(batch, done, more, row, i));
    }
}

/// All of one channel's releases have been announced.
proof fn lemma_settled_announced(
    batch: Seq<ExecTransaction>,
    done: Seq<IngressOrdinal>,
    releases: Seq<ChannelRelease>,
    readiness: Readiness,
    d: ChannelId,
    fresh: Seq<Release>,
)
    requires
        is_settled(batch, done, releases, readiness),
    ensures
        is_settled(
            batch,
            done,
            releases + crate::schedule::released_as(d, fresh),
            crate::ready::announced(readiness, fresh),
        ),
    decreases fresh.len(),
{
    let all = releases + crate::schedule::released_as(d, fresh);
    if fresh.len() == 0 {
        assert(all =~= releases);
    } else {
        let init = fresh.drop_last();
        let some = releases + crate::schedule::released_as(d, init);
        let release = ChannelRelease {
            domain: d,
            sequence: fresh.last().sequence,
            stamp: fresh.last().stamp,
        };
        assert(all =~= some.push(release));
        assert(all.drop_last() =~= some);
        lemma_settled_announced(batch, done, releases, readiness, d, init);
        let before = crate::ready::announced(readiness, init);
        match fresh.last().stamp {
            Some(_) => {
                lemma_settled_published(batch, done, some, before, release);
            },
            None => {
                lemma_settled_silent(batch, done, some, before, release);
            },
        }
    }
}

/// One more transaction has completed.
pub proof fn lemma_settled_step(
    batch: Seq<ExecTransaction>,
    done: Seq<IngressOrdinal>,
    releases: Seq<ChannelRelease>,
    readiness: Readiness,
    o: IngressOrdinal,
    d: ChannelId,
    fresh: Seq<Release>,
)
    requires
        is_settled(batch, done, releases, readiness),
        crate::ready::is_pending(readiness.rows, o),
    ensures
        is_settled(
            batch,
            done.push(o),
            releases + crate::schedule::released_as(d, fresh),
            crate::ready::announced(readiness.completed(o), fresh),
        ),
{
    lemma_settled_completed(batch, done, releases, readiness, o);
    lemma_settled_announced(batch, done.push(o), releases, readiness.completed(o), d, fresh);
}

/// A ready transaction is outstanding, and everything it waited for has
/// happened.
pub proof fn lemma_ready(
    batch: Seq<ExecTransaction>,
    done: Seq<IngressOrdinal>,
    releases: Seq<ChannelRelease>,
    readiness: Readiness,
    o: IngressOrdinal,
) -> (i: int)
    requires
        is_settled(batch, done, releases, readiness),
        crate::schedule::ready_list(readiness.rows).contains(o),
    ensures
        0 <= i < batch.len(),
        batch[i].ingress == o,
        !done.contains(o),
        crate::ready::is_pending(readiness.rows, o),
        forall|x: IngressOrdinal|
            #[trigger] held_behind(batch, i, x) && comes_before(batch, i, x) ==> done.contains(x),
        forall|w: StampWait| #[trigger]
            crate::schedule::stamp_waits_of(batch[i].prerequisites@).contains(w)
                ==> crate::heard::is_heard(crate::stamped::values_in(releases, w.slot), w),
{
    let rows = readiness.rows;
    crate::schedule::lemma_ready_list(rows);
    assert(crate::ready::is_unblocked(rows, o));
    let r = choose|r: int|
        0 <= r < rows.len() && (#[trigger] rows[r]).ordinal == o && rows[r].unblocked();
    let row = rows[r];
    assert(crate::ready::is_pending(rows, o));
    assert(is_a_row(batch, done, releases, row));
    let i = choose|i: int| row_is(batch, done, releases, row, i);
    assert forall|x: IngressOrdinal|
        #[trigger] held_behind(batch, i, x) && comes_before(batch, i, x) implies done.contains(x) by {
        assert(!row.hazards.contains(x));
    }
    assert forall|w: StampWait| #[trigger]
        crate::schedule::stamp_waits_of(batch[i].prerequisites@).contains(
            w,
        ) implies crate::heard::is_heard(crate::stamped::values_in(releases, w.slot), w) by {
        assert(!row.stamps.contains(w));
    }
    i
}

/// A transaction behind which nothing earlier is outstanding, and whose stamps
/// have all been put, is ready.
pub proof fn lemma_earliest_is_ready(
    batch: Seq<ExecTransaction>,
    done: Seq<IngressOrdinal>,
    releases: Seq<ChannelRelease>,
    readiness: Readiness,
    i: int,
)
    requires
        crate::schedule::in_order(batch),
        is_settled(batch, done, releases, readiness),
        0 <= i < batch.len(),
        !done.contains(batch[i].ingress),
        forall|j: int| 0 <= j < i ==> done.contains((#[trigger] batch[j]).ingress),
        forall|w: StampWait| #[trigger]
            crate::schedule::stamp_waits_of(batch[i].prerequisites@).contains(w)
                ==> crate::heard::is_heard(crate::stamped::values_in(releases, w.slot), w),
    ensures
        crate::schedule::ready_list(readiness.rows).contains(batch[i].ingress),
{
    let rows = readiness.rows;
    let o = batch[i].ingress;
    crate::schedule::lemma_tx_of(batch, i);
    assert(crate::ready::is_pending(rows, o));
    let r = choose|r: int| 0 <= r < rows.len() && (#[trigger] rows[r]).ordinal == o;
    let row = rows[r];
    assert(is_a_row(batch, done, releases, row));
    let k = choose|k: int| row_is(batch, done, releases, row, k);
    if k < i {
        assert(batch[k].ingress.0 < batch[i].ingress.0);
    } else if i < k {
        assert(batch[i].ingress.0 < batch[k].ingress.0);
    }
    assert(row.hazards =~= Set::<IngressOrdinal>::empty()) by {
        assert forall|x: IngressOrdinal| !row.hazards.contains(x) by {
            if row.hazards.contains(x) {
                assert(owed_hazard(batch, done, i, x));
                let j = choose|j: int| 0 <= j < i && (#[trigger] batch[j]).ingress == x;
                assert(done.contains(batch[j].ingress));
            }
        }
    }
    assert(row.stamps.len() == 0) by {
        if row.stamps.len() > 0 {
            let w = row.stamps[0];
            assert(row.stamps.contains(w));
            assert(owed_stamp(batch, releases, i, w));
        }
    }
    assert(row.unblocked());
    assert(crate::ready::is_unblocked(rows, o));
    crate::schedule::lemma_ready_list(rows);
}

} // verus!
