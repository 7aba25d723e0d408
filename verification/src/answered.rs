//! Who answers an explicit wait of an eligible batch.
//!
//! The scheduler holds a waiter behind the earliest transaction that produces
//! what it waits for. In an eligible batch there is one for every wait, and it
//! arrived before the waiter.

use vstd::prelude::*;
use crate::eligible::WaitEdge;
use crate::exec::{ExecTransaction, Prerequisite};
use crate::identity::{IngressOrdinal, StampWait};
use crate::prereq::{WaitModel, WaitPoint};

verus! {

/// The transaction at `p` answers the wait.
pub open spec fn answers_wait(batch: Seq<ExecTransaction>, p: int, wait: WaitPoint) -> bool {
    0 <= p < batch.len() && crate::prereq::some_answers(
        crate::prereq::node_of(batch[p]).produces,
        wait,
    )
}

/// The edge is a wait of the graph and a transaction that answers it.
spec fn sound_edge(g: WaitModel, e: WaitEdge, j: int) -> bool {
    0 <= j < g.nodes.len() && g.nodes[j].ordinal == e.2 && crate::prereq::some_answers(
        g.nodes[j].produces,
        e.1,
    )
}

proof fn lemma_placed_holds(g: WaitModel, order: Seq<int>, i: int, x: int)
    requires
        order.contains(x) || x == i,
    ensures
        g.placed(order, i).contains(x),
    decreases order.len(),
{
    let out = g.placed(order, i);
    if order.len() == 0 || g.nodes[order.last()].ordinal.0 <= g.nodes[i].ordinal.0 {
        assert(out == order.push(i));
        assert(out[order.len() as int] == i);
        if x != i {
            let k = choose|k: int| 0 <= k < order.len() && order[k] == x;
            assert(out[k] == x);
        }
    } else {
        let init = order.drop_last();
        let before = g.placed(init, i);
        assert(out == before.push(order.last()));
        assert(out[before.len() as int] == order.last());
        if x == i || x != order.last() {
            if x != i {
                let k = choose|k: int| 0 <= k < order.len() && order[k] == x;
                assert(init[k] == x);
            }
            lemma_placed_holds(g, init, i, x);
            let k = choose|k: int| 0 <= k < before.len() && before[k] == x;
            assert(out[k] == x);
        }
    }
}

proof fn lemma_arrival_holds(g: WaitModel, n: int, i: int)
    requires
        0 <= i < n,
    ensures
        g.arrival(n).contains(i),
    decreases n,
{
    if i < n - 1 {
        lemma_arrival_holds(g, n - 1, i);
    }
    lemma_placed_holds(g, g.arrival(n - 1), n - 1, i);
}

proof fn lemma_none_unproduced_of(g: WaitModel, order: Seq<int>, i: int)
    requires
        g.unproduced_by(order).len() == 0,
        order.contains(i),
    ensures
        g.unproduced_of(i, g.nodes[i].waits.len() as int).len() == 0,
    decreases order.len(),
{
    if order.last() != i {
        let k = choose|k: int| 0 <= k < order.len() && order[k] == i;
        assert(order.drop_last()[k] == i);
        lemma_none_unproduced_of(g, order.drop_last(), i);
    }
}

proof fn lemma_wait_produced(g: WaitModel, i: int, n: int, k: int)
    requires
        g.unproduced_of(i, n).len() == 0,
        0 <= k < n,
    ensures
        g.published(g.nodes[i].waits[k]) || g.produced(g.nodes[i].waits[k]),
    decreases n,
{
    if k < n - 1 {
        lemma_wait_produced(g, i, n - 1, k);
    }
}

/// A producer is listed for the wait.
proof fn lemma_producer_listed(
    g: WaitModel,
    waiter: IngressOrdinal,
    wait: WaitPoint,
    n: int,
    j: int,
)
    requires
        0 <= j < n <= g.nodes.len(),
        crate::prereq::some_answers(g.nodes[j].produces, wait),
    ensures
        g.producers_of(waiter, wait, n).contains((waiter, wait, g.nodes[j].ordinal)),
    decreases n,
{
    let out = g.producers_of(waiter, wait, n);
    let before = g.producers_of(waiter, wait, n - 1);
    let e = (waiter, wait, g.nodes[j].ordinal);
    if j == n - 1 {
        assert(out[before.len() as int] == e);
    } else {
        lemma_producer_listed(g, waiter, wait, n - 1, j);
        let k = choose|k: int| 0 <= k < before.len() && before[k] == e;
        assert(out[k] == e);
    }
}

proof fn lemma_producers_sound(
    g: WaitModel,
    waiter: IngressOrdinal,
    wait: WaitPoint,
    n: int,
    k: int,
)
    requires
        0 <= n <= g.nodes.len(),
        0 <= k < g.producers_of(waiter, wait, n).len(),
    ensures
        exists|j: int| #[trigger] sound_edge(g, g.producers_of(waiter, wait, n)[k], j),
    decreases n,
{
    if n > 0 {
        let before = g.producers_of(waiter, wait, n - 1);
        if k < before.len() {
            lemma_producers_sound(g, waiter, wait, n - 1, k);
            let j = choose|j: int| #[trigger] sound_edge(g, before[k], j);
            assert(sound_edge(g, g.producers_of(waiter, wait, n)[k], j));
        } else {
            assert(sound_edge(g, g.producers_of(waiter, wait, n)[k], n - 1));
        }
    }
}

proof fn lemma_part(a: Seq<WaitEdge>, b: Seq<WaitEdge>, e: WaitEdge)
    requires
        a.contains(e) || b.contains(e),
    ensures
        (a + b).contains(e),
{
    if a.contains(e) {
        let k = choose|k: int| 0 <= k < a.len() && a[k] == e;
        assert((a + b)[k] == e);
    } else {
        let k = choose|k: int| 0 <= k < b.len() && b[k] == e;
        assert((a + b)[a.len() + k] == e);
    }
}

proof fn lemma_edge_of_wait(g: WaitModel, i: int, n: int, k: int, j: int)
    requires
        0 <= k < n,
        0 <= j < g.nodes.len(),
        !g.published(g.nodes[i].waits[k]),
        crate::prereq::some_answers(g.nodes[j].produces, g.nodes[i].waits[k]),
    ensures
        g.answers_of_waits(i, n).contains(
            (g.nodes[i].ordinal, g.nodes[i].waits[k], g.nodes[j].ordinal),
        ),
    decreases n,
{
    let wait = g.nodes[i].waits[n - 1];
    let e = (g.nodes[i].ordinal, g.nodes[i].waits[k], g.nodes[j].ordinal);
    let before = g.answers_of_waits(i, n - 1);
    let more = g.producers_of(g.nodes[i].ordinal, wait, g.nodes.len() as int);
    if k < n - 1 {
        lemma_edge_of_wait(g, i, n - 1, k, j);
    } else {
        lemma_producer_listed(g, g.nodes[i].ordinal, wait, g.nodes.len() as int, j);
    }
    if !g.published(wait) {
        lemma_part(before, more, e);
    }
}

proof fn lemma_edges_of_waits_sound(g: WaitModel, i: int, n: int, k: int)
    requires
        0 <= k < g.answers_of_waits(i, n).len(),
    ensures
        exists|j: int| #[trigger] sound_edge(g, g.answers_of_waits(i, n)[k], j),
    decreases n,
{
    if n > 0 {
        let wait = g.nodes[i].waits[n - 1];
        let before = g.answers_of_waits(i, n - 1);
        let more = g.producers_of(g.nodes[i].ordinal, wait, g.nodes.len() as int);
        let e = g.answers_of_waits(i, n)[k];
        if k < before.len() {
            lemma_edges_of_waits_sound(g, i, n - 1, k);
            let j = choose|j: int| #[trigger] sound_edge(g, before[k], j);
            assert(sound_edge(g, e, j));
        } else {
            lemma_producers_sound(
                g,
                g.nodes[i].ordinal,
                wait,
                g.nodes.len() as int,
                k - before.len(),
            );
            let j = choose|j: int| #[trigger] sound_edge(g, more[k - before.len()], j);
            assert(sound_edge(g, e, j));
        }
    }
}

proof fn lemma_edge_listed(g: WaitModel, n: int, i: int, k: int, j: int)
    requires
        0 <= i < n <= g.nodes.len(),
        0 <= k < g.nodes[i].waits.len(),
        0 <= j < g.nodes.len(),
        !g.published(g.nodes[i].waits[k]),
        crate::prereq::some_answers(g.nodes[j].produces, g.nodes[i].waits[k]),
    ensures
        g.answers_of(n).contains((g.nodes[i].ordinal, g.nodes[i].waits[k], g.nodes[j].ordinal)),
    decreases n,
{
    let e = (g.nodes[i].ordinal, g.nodes[i].waits[k], g.nodes[j].ordinal);
    if i < n - 1 {
        lemma_edge_listed(g, n - 1, i, k, j);
    } else {
        lemma_edge_of_wait(g, i, g.nodes[i].waits.len() as int, k, j);
    }
    lemma_part(
        g.answers_of(n - 1),
        g.answers_of_waits(n - 1, g.nodes[n - 1].waits.len() as int),
        e,
    );
}

proof fn lemma_edges_sound(g: WaitModel, n: int, k: int)
    requires
        0 <= k < g.answers_of(n).len(),
    ensures
        exists|j: int| #[trigger] sound_edge(g, g.answers_of(n)[k], j),
    decreases n,
{
    if n > 0 {
        let before = g.answers_of(n - 1);
        let waits = g.nodes[n - 1].waits.len() as int;
        let e = g.answers_of(n)[k];
        if k < before.len() {
            lemma_edges_sound(g, n - 1, k);
            let j = choose|j: int| #[trigger] sound_edge(g, before[k], j);
            assert(sound_edge(g, e, j));
        } else {
            lemma_edges_of_waits_sound(g, n - 1, waits, k - before.len());
            let j = choose|j: int| #[trigger]
                sound_edge(g, g.answers_of_waits(n - 1, waits)[k - before.len()], j);
            assert(sound_edge(g, e, j));
        }
    }
}

/// Every wait among the edges has an earliest producer, and every earliest
/// producer is one of the edges.
proof fn lemma_earliest(edges: Seq<WaitEdge>)
    ensures
        forall|k: int|
            0 <= k < edges.len() ==> crate::eligible::listed(
                crate::eligible::earliest(edges),
                #[trigger] edges[k],
            ),
        forall|k: int|
            0 <= k < crate::eligible::earliest(edges).len() ==> edges.contains(
                #[trigger] crate::eligible::earliest(edges)[k],
            ),
    decreases edges.len(),
{
    if edges.len() > 0 {
        let init = edges.drop_last();
        let last = edges.last();
        let before = crate::eligible::earliest(init);
        let after = crate::eligible::earliest(edges);
        lemma_earliest(init);
        assert(edges[edges.len() - 1] == last);
        assert(after == crate::eligible::lowered(before, last));
        assert forall|k: int| 0 <= k < edges.len() implies crate::eligible::listed(
            after,
            #[trigger] edges[k],
        ) by {
            if k < init.len() {
                assert(init[k] == edges[k]);
                let x = choose|x: int|
                    0 <= x < before.len() && crate::eligible::one_wait(
                        #[trigger] before[x],
                        edges[k],
                    );
                assert(crate::eligible::one_wait(after[x], edges[k]));
            } else if crate::eligible::listed(before, last) {
                let x = choose|x: int|
                    0 <= x < before.len() && crate::eligible::one_wait(#[trigger] before[x], last);
                assert(crate::eligible::one_wait(after[x], last));
            } else {
                assert(crate::eligible::one_wait(after[before.len() as int], last));
            }
        }
        assert forall|k: int| 0 <= k < after.len() implies edges.contains(#[trigger] after[k]) by {
            if k < before.len() {
                assert(init.contains(before[k]));
                let x = choose|x: int| 0 <= x < init.len() && init[x] == before[k];
                assert(edges[x] == before[k]);
            }
        }
    }
}

/// The wait of an eligible batch's transaction has an earliest producer, which
/// arrived before it and answers it.
proof fn lemma_producer(batch: Seq<ExecTransaction>, i: int, wait: WaitPoint) -> (r: (int, int))
    requires
        crate::eligible::is_eligible(batch),
        0 <= i < batch.len(),
        crate::prereq::waits_of(batch[i].prerequisites@).contains(wait),
    ensures
        0 <= r.0 < i,
        answers_wait(batch, r.0, wait),
        0 <= r.1 < crate::eligible::batch_producers(batch).len(),
        crate::eligible::batch_producers(batch)[r.1] == (
            batch[i].ingress,
            wait,
            batch[r.0].ingress,
        ),
{
    let g = crate::eligible::waits_model(batch);
    let n = batch.len() as int;
    let waits = g.nodes[i].waits;
    assert(g.nodes[i] == crate::prereq::node_of(batch[i]));
    let k = choose|k: int| 0 <= k < waits.len() && waits[k] == wait;
    lemma_arrival_holds(g, n, i);
    lemma_none_unproduced_of(g, g.arrival(n), i);
    lemma_wait_produced(g, i, waits.len() as int, k);
    assert(!g.published(wait));
    let j = choose|j: int|
        0 <= j < g.nodes.len() && crate::prereq::some_answers(
            (#[trigger] g.nodes[j]).produces,
            wait,
        );
    lemma_edge_listed(g, n, i, k, j);
    let edges = g.answers_of(n);
    let e = (g.nodes[i].ordinal, wait, g.nodes[j].ordinal);
    let x = choose|x: int| 0 <= x < edges.len() && edges[x] == e;
    lemma_earliest(edges);
    let firsts = crate::eligible::batch_producers(batch);
    assert(crate::eligible::listed(firsts, edges[x]));
    let y = choose|y: int|
        0 <= y < firsts.len() && crate::eligible::one_wait(#[trigger] firsts[y], e);
    assert(edges.contains(firsts[y]));
    let z = choose|z: int| 0 <= z < edges.len() && edges[z] == firsts[y];
    lemma_edges_sound(g, n, z);
    let p = choose|p: int| #[trigger] sound_edge(g, edges[z], p);
    assert(g.nodes[p] == crate::prereq::node_of(batch[p]));
    assert(!crate::eligible::is_forward(firsts, y));
    if p >= i {
        if p > i {
            assert(batch[i].ingress.0 < batch[p].ingress.0);
        }
    }
    (p, y)
}

proof fn lemma_stamp_point(ps: Seq<Prerequisite>, w: StampWait)
    requires
        crate::schedule::stamp_waits_of(ps).contains(w),
    ensures
        crate::prereq::waits_of(ps).contains(WaitPoint::Stamp { slot: w.slot, value: w.value }),
        ps.contains(Prerequisite::Stamp(w)),
    decreases ps.len(),
{
    if ps.len() > 0 {
        let init = ps.drop_last();
        let before = crate::schedule::stamp_waits_of(init);
        let all = crate::schedule::stamp_waits_of(ps);
        let points = crate::prereq::waits_of(init);
        let out = crate::prereq::waits_of(ps);
        let point = WaitPoint::Stamp { slot: w.slot, value: w.value };
        let k = choose|k: int| 0 <= k < all.len() && all[k] == w;
        if k < before.len() {
            assert(before[k] == w);
            lemma_stamp_point(init, w);
            let x = choose|x: int| 0 <= x < points.len() && points[x] == point;
            assert(out[x] == point);
            let y = choose|y: int| 0 <= y < init.len() && init[y] == Prerequisite::Stamp(w);
            assert(ps[y] == Prerequisite::Stamp(w));
        } else {
            assert(ps[ps.len() - 1] == Prerequisite::Stamp(w));
            assert(out[points.len() as int] == point);
        }
    }
}

/// A stamp prerequisite is one of the stamp waits, and its point one of the
/// points.
pub proof fn lemma_prerequisite_point(ps: Seq<Prerequisite>, k: int)
    requires
        0 <= k < ps.len(),
    ensures
        ps[k] matches Prerequisite::Stamp(w) ==> crate::schedule::stamp_waits_of(ps).contains(w),
        ps[k] matches Prerequisite::Event { event, value } ==> crate::prereq::waits_of(ps).contains(
            WaitPoint::Event { event, value },
        ),
    decreases ps.len(),
{
    let init = ps.drop_last();
    let before = crate::schedule::stamp_waits_of(init);
    let all = crate::schedule::stamp_waits_of(ps);
    let points = crate::prereq::waits_of(init);
    let out = crate::prereq::waits_of(ps);
    if k < ps.len() - 1 {
        assert(init[k] == ps[k]);
        lemma_prerequisite_point(init, k);
        match ps[k] {
            Prerequisite::Stamp(w) => {
                let x = choose|x: int| 0 <= x < before.len() && before[x] == w;
                assert(all[x] == w);
            },
            Prerequisite::Event { event, value } => {
                let point = WaitPoint::Event { event, value };
                let x = choose|x: int| 0 <= x < points.len() && points[x] == point;
                assert(out[x] == point);
            },
            Prerequisite::Fence { .. } => {},
        }
    } else {
        match ps[k] {
            Prerequisite::Stamp(w) => {
                assert(all[before.len() as int] == w);
            },
            Prerequisite::Event { event, value } => {
                assert(out[points.len() as int] == (WaitPoint::Event { event, value }));
            },
            Prerequisite::Fence { .. } => {},
        }
    }
}

/// A stamp wait is answered by the stamp of an earlier transaction.
pub proof fn lemma_stamp_answered(batch: Seq<ExecTransaction>, i: int, w: StampWait) -> (p: int)
    requires
        crate::eligible::is_eligible(batch),
        0 <= i < batch.len(),
        crate::schedule::stamp_waits_of(batch[i].prerequisites@).contains(w),
    ensures
        0 <= p < i,
        crate::stamped::answers(batch[p], w),
{
    let wait = WaitPoint::Stamp { slot: w.slot, value: w.value };
    lemma_stamp_point(batch[i].prerequisites@, w);
    let r = lemma_producer(batch, i, wait);
    let p = r.0;
    let stamps = crate::prereq::stamp_of(batch[p].publication.stamp);
    let signals = crate::prereq::signals_of(crate::exec::all_records(batch[p].streams@));
    let k = choose|k: int|
        0 <= k < (stamps + signals).len() && (#[trigger] (stamps + signals)[k]).answers(wait);
    if k >= stamps.len() {
        lemma_signals_are_events(
            crate::exec::all_records(batch[p].streams@),
            k - stamps.len(),
        );
    }
    p
}

proof fn lemma_signals_are_events(records: Seq<crate::exec::StreamRecord>, k: int)
    requires
        0 <= k < crate::prereq::signals_of(records).len(),
    ensures
        crate::prereq::signals_of(records)[k] is Event,
    decreases records.len(),
{
    if records.len() > 0 {
        if k < crate::prereq::signals_of(records.drop_last()).len() {
            lemma_signals_are_events(records.drop_last(), k);
        }
    }
}

/// An event wait is answered by a signal of an earlier transaction, and the
/// scheduler holds the waiter behind it.
pub proof fn lemma_event_answered(batch: Seq<ExecTransaction>, i: int, k: int) -> (r: (int, int))
    requires
        crate::eligible::is_eligible(batch),
        0 <= i < batch.len(),
        0 <= k < batch[i].prerequisites@.len(),
        batch[i].prerequisites@[k] is Event,
    ensures
        0 <= r.0 < i,
        crate::schedule::event_producer(batch, batch[i].ingress, batch[r.0].ingress),
        0 <= r.1 < crate::prereq::signals_of(crate::exec::all_records(batch[r.0].streams@)).len(),
        crate::prereq::signals_of(crate::exec::all_records(batch[r.0].streams@))[r.1].answers(
            WaitPoint::Event {
                event: batch[i].prerequisites@[k]->event,
                value: batch[i].prerequisites@[k]->value,
            },
        ),
{
    let wait = WaitPoint::Event {
        event: batch[i].prerequisites@[k]->event,
        value: batch[i].prerequisites@[k]->value,
    };
    lemma_prerequisite_point(batch[i].prerequisites@, k);
    let r = lemma_producer(batch, i, wait);
    let p = r.0;
    assert(crate::schedule::produces_event(
        crate::eligible::batch_producers(batch),
        batch[i].ingress,
        batch[p].ingress,
        r.1,
    ));
    let stamps = crate::prereq::stamp_of(batch[p].publication.stamp);
    let signals = crate::prereq::signals_of(crate::exec::all_records(batch[p].streams@));
    let x = choose|x: int|
        0 <= x < (stamps + signals).len() && (#[trigger] (stamps + signals)[x]).answers(wait);
    if x < stamps.len() {
        assert((stamps + signals)[x] is Stamp);
    }
    (p, x - stamps.len())
}

/// Every wait of an eligible batch is answered by a transaction that arrived
/// before the waiter: an event by a signal one of its records carries, a
/// completion word by its own, and no wait is for a fence.
pub proof fn every_wait_of_an_eligible_batch_is_answered_earlier(
    batch: Seq<ExecTransaction>,
    i: int,
    k: int,
) -> (by: (int, int))
    requires
        crate::eligible::is_eligible(batch),
        0 <= i < batch.len(),
        0 <= k < batch[i].prerequisites@.len(),
    ensures
        0 <= by.0 < i,
        batch[by.0].ingress.0 < batch[i].ingress.0,
        match batch[i].prerequisites@[k] {
            Prerequisite::Event { event, value } => {
                let records = crate::exec::all_records(batch[by.0].streams@);
                0 <= by.1 < records.len() && (records[by.1].op
                    matches crate::exec::ResolvedOperation::Event(e) && e.kind is Signal && e.event
                    == event && e.value >= value)
            },
            Prerequisite::Stamp(wait) => batch[by.0].publication.stamp matches Some(s) && s.slot
                == wait.slot && (s.value == wait.value || s.value.is_after(wait.value)),
            Prerequisite::Fence { .. } => false,
        },
{
    lemma_prerequisite_point(batch[i].prerequisites@, k);
    match batch[i].prerequisites@[k] {
        Prerequisite::Stamp(w) => {
            let p = lemma_stamp_answered(batch, i, w);
            assert(batch[p].ingress.0 < batch[i].ingress.0);
            (p, 0)
        },
        Prerequisite::Event { .. } => {
            let r = lemma_event_answered(batch, i, k);
            let records = crate::exec::all_records(batch[r.0].streams@);
            let at = crate::prereq::lemma_signal_from(records, r.1);
            assert(batch[r.0].ingress.0 < batch[i].ingress.0);
            (r.0, at)
        },
        Prerequisite::Fence { .. } => {
            assert(crate::eligible::waits_for_fence(batch, i));
            (0, 0)
        },
    }
}

/// A wait that nothing published answers and no accepted transaction produces
/// is reported, with the transaction that waits.
pub proof fn a_point_nothing_produces_is_reported(g: WaitModel, i: int, k: int)
    requires
        0 <= i < g.nodes.len(),
        0 <= k < g.nodes[i].waits.len(),
        !g.published(g.nodes[i].waits[k]),
        forall|j: int, m: int|
            #![trigger g.nodes[j].produces[m]]
            0 <= j < g.nodes.len() && 0 <= m < g.nodes[j].produces.len()
                ==> !g.nodes[j].produces[m].answers(g.nodes[i].waits[k]),
    ensures
        g.unproduced().contains((g.nodes[i].ordinal, g.nodes[i].waits[k])),
{
    let wait = g.nodes[i].waits[k];
    if g.produced(wait) {
        let j = choose|j: int|
            0 <= j < g.nodes.len() && crate::prereq::some_answers(
                (#[trigger] g.nodes[j]).produces,
                wait,
            );
        let m = choose|m: int|
            0 <= m < g.nodes[j].produces.len() && (#[trigger] g.nodes[j].produces[m]).answers(wait);
        assert(g.nodes[j].produces[m].answers(wait));
    }
    let n = g.nodes.len() as int;
    lemma_arrival_holds(g, n, i);
    let at = choose|at: int| 0 <= at < g.arrival(n).len() && g.arrival(n)[at] == i;
    let x = lemma_unproduced_listed(g, g.arrival(n), at, k);
    assert(g.unproduced()[x] == (g.nodes[i].ordinal, wait));
}

proof fn lemma_unproduced_listed(g: WaitModel, order: Seq<int>, at: int, k: int) -> (x: int)
    requires
        0 <= at < order.len(),
        0 <= k < g.nodes[order[at]].waits.len(),
        !g.published(g.nodes[order[at]].waits[k]),
        !g.produced(g.nodes[order[at]].waits[k]),
    ensures
        0 <= x < g.unproduced_by(order).len(),
        g.unproduced_by(order)[x] == (g.nodes[order[at]].ordinal, g.nodes[order[at]].waits[k]),
    decreases order.len(),
{
    let before = g.unproduced_by(order.drop_last());
    if at < order.len() - 1 {
        let x = lemma_unproduced_listed(g, order.drop_last(), at, k);
        assert(g.unproduced_by(order)[x] == before[x]);
        x
    } else {
        let n = g.nodes[order.last()].waits.len() as int;
        let x = lemma_unproduced_of_listed(g, order.last(), n, k);
        before.len() + x
    }
}

proof fn lemma_unproduced_of_listed(g: WaitModel, i: int, n: int, k: int) -> (x: int)
    requires
        0 <= k < n <= g.nodes[i].waits.len(),
        !g.published(g.nodes[i].waits[k]),
        !g.produced(g.nodes[i].waits[k]),
    ensures
        0 <= x < g.unproduced_of(i, n).len(),
        g.unproduced_of(i, n)[x] == (g.nodes[i].ordinal, g.nodes[i].waits[k]),
    decreases n,
{
    let before = g.unproduced_of(i, n - 1);
    if k < n - 1 {
        let x = lemma_unproduced_of_listed(g, i, n - 1, k);
        assert(g.unproduced_of(i, n)[x] == before[x]);
        x
    } else {
        before.len() as int
    }
}

/// A point that is reported as produced by nothing is some transaction's own
/// wait, unanswered, and no accepted transaction produces it.
pub proof fn a_reported_point_is_produced_by_nothing(g: WaitModel, x: int) -> (at: (int, int))
    requires
        0 <= x < g.unproduced().len(),
    ensures
        ({
            let (waiter, point) = g.unproduced()[x];
            let (i, k) = at;
            &&& 0 <= k < g.nodes[i].waits.len() && g.nodes[i].waits[k] == point
            &&& g.nodes[i].ordinal == waiter
            &&& !g.published(point)
            &&& forall|j: int, m: int|
                #![trigger g.nodes[j].produces[m]]
                0 <= j < g.nodes.len() && 0 <= m < g.nodes[j].produces.len()
                    ==> !g.nodes[j].produces[m].answers(point)
        }),
{
    let n = g.nodes.len() as int;
    let at = lemma_unproduced_from(g, g.arrival(n), x);
    let point = g.unproduced()[x].1;
    assert forall|j: int, m: int|
        #![trigger g.nodes[j].produces[m]]
        0 <= j < g.nodes.len() && 0 <= m < g.nodes[j].produces.len() implies !g.nodes[j].produces[m].answers(
        point,
    ) by {
        if g.nodes[j].produces[m].answers(point) {
            assert(crate::prereq::some_answers(g.nodes[j].produces, point));
        }
    }
    at
}

proof fn lemma_unproduced_from(g: WaitModel, order: Seq<int>, x: int) -> (at: (int, int))
    requires
        0 <= x < g.unproduced_by(order).len(),
    ensures
        0 <= at.1 < g.nodes[at.0].waits.len(),
        g.unproduced_by(order)[x] == (g.nodes[at.0].ordinal, g.nodes[at.0].waits[at.1]),
        !g.published(g.nodes[at.0].waits[at.1]),
        !g.produced(g.nodes[at.0].waits[at.1]),
    decreases order.len(),
{
    let before = g.unproduced_by(order.drop_last());
    if x < before.len() {
        lemma_unproduced_from(g, order.drop_last(), x)
    } else {
        let n = g.nodes[order.last()].waits.len() as int;
        let k = lemma_unproduced_of_from(g, order.last(), n, x - before.len());
        (order.last(), k)
    }
}

proof fn lemma_unproduced_of_from(g: WaitModel, i: int, n: int, x: int) -> (k: int)
    requires
        0 <= n <= g.nodes[i].waits.len(),
        0 <= x < g.unproduced_of(i, n).len(),
    ensures
        0 <= k < n,
        g.unproduced_of(i, n)[x] == (g.nodes[i].ordinal, g.nodes[i].waits[k]),
        !g.published(g.nodes[i].waits[k]),
        !g.produced(g.nodes[i].waits[k]),
    decreases n,
{
    let before = g.unproduced_of(i, n - 1);
    if x < before.len() {
        lemma_unproduced_of_from(g, i, n - 1, x)
    } else {
        n - 1
    }
}

/// Transactions are gone through in the order they arrived.
pub proof fn transactions_are_gone_through_in_arrival_order(g: WaitModel, n: int, a: int, b: int)
    requires
        0 <= a < b < g.arrival(n).len(),
    ensures
        g.nodes[g.arrival(n)[a]].ordinal.0 <= g.nodes[g.arrival(n)[b]].ordinal.0,
    decreases n,
{
    let before = g.arrival(n - 1);
    assert forall|x: int, y: int| 0 <= x < y < before.len() implies g.nodes[
        #[trigger] before[x]
    ].ordinal.0 <= g.nodes[#[trigger] before[y]].ordinal.0 by {
        transactions_are_gone_through_in_arrival_order(g, n - 1, x, y);
    }
    lemma_placed_ascends(g, before, n - 1, a, b);
}

proof fn lemma_placed_ascends(g: WaitModel, order: Seq<int>, i: int, a: int, b: int)
    requires
        forall|x: int, y: int|
            0 <= x < y < order.len() ==> g.nodes[#[trigger] order[x]].ordinal.0 <= g.nodes[
                #[trigger] order[y]
            ].ordinal.0,
        0 <= a < b < g.placed(order, i).len(),
    ensures
        g.nodes[g.placed(order, i)[a]].ordinal.0 <= g.nodes[g.placed(order, i)[b]].ordinal.0,
    decreases order.len(),
{
    if order.len() == 0 || g.nodes[order.last()].ordinal.0 <= g.nodes[i].ordinal.0 {
        if b == order.len() && a < order.len() - 1 {
            assert(g.nodes[order[a]].ordinal.0 <= g.nodes[order[order.len() - 1]].ordinal.0);
        }
    } else {
        let init = order.drop_last();
        let before = g.placed(init, i);
        assert forall|x: int, y: int| 0 <= x < y < init.len() implies g.nodes[
            #[trigger] init[x]
        ].ordinal.0 <= g.nodes[#[trigger] init[y]].ordinal.0 by {
            assert(g.nodes[order[x]].ordinal.0 <= g.nodes[order[y]].ordinal.0);
        }
        if b < before.len() {
            lemma_placed_ascends(g, init, i, a, b);
        } else {
            lemma_placed_from(g, init, i, a);
            if before[a] != i {
                let x = choose|x: int| 0 <= x < init.len() && init[x] == before[a];
                assert(g.nodes[order[x]].ordinal.0 <= g.nodes[order[order.len() - 1]].ordinal.0);
            }
        }
    }
}

proof fn lemma_placed_from(g: WaitModel, order: Seq<int>, i: int, a: int)
    requires
        0 <= a < g.placed(order, i).len(),
    ensures
        g.placed(order, i)[a] == i || order.contains(g.placed(order, i)[a]),
    decreases order.len(),
{
    let out = g.placed(order, i);
    if order.len() == 0 || g.nodes[order.last()].ordinal.0 <= g.nodes[i].ordinal.0 {
        if a < order.len() {
            assert(order[a] == out[a]);
        }
    } else {
        let init = order.drop_last();
        let before = g.placed(init, i);
        if a < before.len() {
            lemma_placed_from(g, init, i, a);
            if out[a] != i {
                let x = choose|x: int| 0 <= x < init.len() && init[x] == out[a];
                assert(order[x] == out[a]);
            }
        } else {
            assert(order[order.len() - 1] == out[a]);
        }
    }
}

} // verus!
