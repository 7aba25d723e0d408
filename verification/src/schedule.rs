//! A parallel schedule the dependency graph permits.
//!
//! A transaction's effects become visible at completion and never before, so a
//! completion order is the whole schedule. A batch is driven through the
//! hazard graph, the readiness service and each channel's publication order;
//! what a caller chooses is only which of the transactions already declared
//! ready goes next. Serial is the same drive in ingress order, with nothing to
//! choose.

use vstd::prelude::*;
use core::ops::Range;
pub use crate::diverge::{equivalent, Divergence};
pub use crate::eligible::{eligible, Ineligible};
use crate::depend::{Census, DependencyGraph};
use crate::eligible::{earliest_producers, index_of, wait_graph};
use crate::exec::{ExecTransaction, Prerequisite};
use crate::identity::{
    ChannelId, ChannelSequence, CompletionStamp, IngressOrdinal, StampWait,
};
use crate::interpret::{Interpreter, InterpreterModel, Observation, Outcome};
use crate::ordinal_set::OrdinalSet;
use crate::prereq::WaitPoint;
use crate::publish::{Position, Publisher, Release};
use crate::ready::{Readiness, Scheduler, Waiting};

verus! {

/// A position a channel released.
#[derive(Clone, Copy, Debug, PartialEq, Eq, Structural)]
pub struct ChannelRelease {
    pub domain: ChannelId,
    pub sequence: ChannelSequence,
    /// What the guest may now read, if the position carries anything.
    pub stamp: Option<CompletionStamp>,
}

/// One execution of a batch.
#[derive(Clone, Debug)]
pub struct Run {
    /// Every observation, in the order it became visible.
    pub trace: Vec<Observation>,
    /// Completion order, and where the observations of each completion sit:
    /// the transaction's own, and every stamp its completion released.
    pub spans: Vec<(IngressOrdinal, Range<usize>)>,
    /// Transactions the scheduler never released and that wait for a stamp
    /// nothing outstanding publishes.
    pub stalled: Vec<IngressOrdinal>,
    /// What compiling this batch's hazards cost.
    pub census: Census,
    /// What each channel told the guest, in the order it did.
    pub releases: Vec<ChannelRelease>,
    /// For each completion, the channels that then held finished positions
    /// behind an unfinished head, and how many.
    pub blocked: Vec<(ChannelId, usize)>,
}

/// Where the observations of one completion sit.
pub struct Span {
    pub ordinal: IngressOrdinal,
    pub start: int,
    pub end: int,
}

/// The spans of a run.
pub open spec fn spans_of(spans: Seq<(IngressOrdinal, Range<usize>)>) -> Seq<Span> {
    spans.map_values(
        |s: (IngressOrdinal, Range<usize>)|
            Span { ordinal: s.0, start: s.1.start as int, end: s.1.end as int },
    )
}

/// The completion order of a run.
pub open spec fn order_of(run: Run) -> Seq<IngressOrdinal> {
    run.spans@.map_values(|s: (IngressOrdinal, Range<usize>)| s.0)
}

/// A channel's own part of what was released.
pub open spec fn released_on(releases: Seq<ChannelRelease>, domain: ChannelId) -> Seq<
    ChannelRelease,
> {
    releases.filter(|r: ChannelRelease| r.domain == domain)
}

/// The channel released something.
pub open spec fn released_any(releases: Seq<ChannelRelease>, domain: ChannelId) -> bool {
    exists|i: int| 0 <= i < releases.len() && (#[trigger] releases[i]).domain == domain
}

impl Run {
    /// Completion order.
    #[must_use]
    pub fn order(&self) -> (order: Vec<IngressOrdinal>)
        ensures
            order@ == order_of(*self),
    {
        let mut order: Vec<IngressOrdinal> = Vec::new();
        let mut i: usize = 0;
        while i < self.spans.len()
            invariant
                i <= self.spans@.len(),
                order@ =~= order_of(*self).take(i as int),
            decreases self.spans.len() - i,
        {
            order.push(self.spans[i].0);
            i += 1;
        }
        assert(order_of(*self).take(i as int) =~= order_of(*self));
        order
    }

    /// The channels that released anything, in channel-number order.
    #[must_use]
    pub fn domains(&self) -> (domains: Vec<ChannelId>)
        ensures
            forall|i: int, j: int|
                0 <= i < j < domains@.len() ==> (#[trigger] domains@[i]).0 < (
                #[trigger] domains@[j]).0,
            forall|d: ChannelId| #[trigger]
                domains@.contains(d) == released_any(self.releases@, d),
    {
        let mut domains: Vec<ChannelId> = Vec::new();
        let mut i: usize = 0;
        while i < self.releases.len()
            invariant
                i <= self.releases@.len(),
                forall|a: int, b: int|
                    0 <= a < b < domains@.len() ==> (#[trigger] domains@[a]).0 < (
                    #[trigger] domains@[b]).0,
                forall|d: ChannelId| #[trigger]
                    domains@.contains(d) == released_any(self.releases@.take(i as int), d),
            decreases self.releases.len() - i,
        {
            let domain = self.releases[i].domain;
            let ghost before = domains@;
            note_channel(&mut domains, domain);
            proof {
                let seen = self.releases@.take(i as int);
                let next = self.releases@.take(i + 1);
                assert forall|d: ChannelId| #[trigger]
                    domains@.contains(d) == released_any(next, d) by {
                    assert(domains@.contains(d) == (before.contains(d) || d == domain));
                    assert(next[i as int].domain == domain);
                    if released_any(seen, d) {
                        let k = choose|k: int|
                            0 <= k < seen.len() && (#[trigger] seen[k]).domain == d;
                        assert(next[k].domain == d);
                    }
                    if released_any(next, d) && d != domain {
                        let k = choose|k: int|
                            0 <= k < next.len() && (#[trigger] next[k]).domain == d;
                        assert(seen[k].domain == d);
                    }
                }
            }
            i += 1;
        }
        assert(self.releases@.take(i as int) =~= self.releases@);
        domains
    }

    /// What one channel told the guest, in order.
    #[must_use]
    pub fn published_by(&self, domain: ChannelId) -> (out: Vec<ChannelRelease>)
        ensures
            out@ == released_on(self.releases@, domain),
    {
        let mut out: Vec<ChannelRelease> = Vec::new();
        let mut i: usize = 0;
        proof {
            reveal(Seq::filter);
            assert(released_on(self.releases@.take(0), domain) =~= Seq::<ChannelRelease>::empty());
        }
        while i < self.releases.len()
            invariant
                i <= self.releases@.len(),
                out@ == released_on(self.releases@.take(i as int), domain),
            decreases self.releases.len() - i,
        {
            let release = self.releases[i];
            proof {
                reveal(Seq::filter);
                assert(self.releases@.take(i + 1).drop_last() =~= self.releases@.take(i as int));
                assert(self.releases@.take(i + 1).last() == release);
            }
            if release.domain == domain {
                out.push(release);
            }
            i += 1;
        }
        assert(self.releases@.take(i as int) =~= self.releases@);
        out
    }
}

/// Put a channel where its number belongs, once.
pub(crate) fn note_channel(domains: &mut Vec<ChannelId>, domain: ChannelId)
    requires
        forall|i: int, j: int|
            0 <= i < j < old(domains)@.len() ==> (#[trigger] old(domains)@[i]).0 < (
            #[trigger] old(domains)@[j]).0,
    ensures
        forall|i: int, j: int|
            0 <= i < j < final(domains)@.len() ==> (#[trigger] final(domains)@[i]).0 < (
            #[trigger] final(domains)@[j]).0,
        forall|d: ChannelId| #[trigger]
            final(domains)@.contains(d) == (old(domains)@.contains(d) || d == domain),
{
    let ghost before = domains@;
    let mut at: usize = 0;
    while at < domains.len() && domains[at].0 < domain.0
        invariant
            domains@ == before,
            at <= before.len(),
            forall|k: int| 0 <= k < at ==> (#[trigger] before[k]).0 < domain.0,
        decreases domains.len() - at,
    {
        at += 1;
    }
    if at < domains.len() && domains[at].0 == domain.0 {
        assert(before[at as int] == domain);
        return ;
    }
    domains.insert(at, domain);
    proof {
        assert(domains@ == before.insert(at as int, domain));
        assert(domains@[at as int] == domain);
        assert forall|d: ChannelId| #[trigger]
            domains@.contains(d) == (before.contains(d) || d == domain) by {
            if before.contains(d) {
                let k = choose|k: int| 0 <= k < before.len() && before[k] == d;
                assert(domains@[if k < at { k } else { k + 1 }] == d);
            }
            if domains@.contains(d) && d != domain {
                let k = choose|k: int| 0 <= k < domains@.len() && domains@[k] == d;
                assert(before[if k < at { k } else { k - 1 }] == d);
            }
        }
    }
}

/// Each channel's transactions carry ascending sequences.
pub open spec fn in_channel_order(batch: Seq<ExecTransaction>) -> bool {
    forall|i: int, j: int|
        0 <= i < j < batch.len() && (#[trigger] batch[i]).domain == (#[trigger] batch[j]).domain
            ==> batch[i].domain_sequence.0 < batch[j].domain_sequence.0
}

/// A batch in both of its orders.
pub open spec fn in_order(batch: Seq<ExecTransaction>) -> bool {
    crate::eligible::in_ingress_order(batch) && in_channel_order(batch)
}

/// Where an ordinal stands in a batch.
pub open spec fn stands_at(batch: Seq<ExecTransaction>, o: IngressOrdinal, i: int) -> bool {
    0 <= i < batch.len() && batch[i].ingress == o
}

/// The batch holds the ordinal.
pub open spec fn holds(batch: Seq<ExecTransaction>, o: IngressOrdinal) -> bool {
    exists|i: int| stands_at(batch, o, i)
}

/// The transaction of an ordinal.
pub open spec fn tx_of(batch: Seq<ExecTransaction>, o: IngressOrdinal) -> ExecTransaction {
    batch[choose|i: int| stands_at(batch, o, i)]
}

/// The ordinals of a batch, in its order.
pub open spec fn ordinals(batch: Seq<ExecTransaction>) -> Seq<IngressOrdinal> {
    batch.map_values(|tx: ExecTransaction| tx.ingress)
}

/// A channel's queue; empty for a channel that has none.
pub open spec fn queue_in(queues: Map<ChannelId, Seq<Position>>, domain: ChannelId) -> Seq<
    Position,
> {
    if queues.dom().contains(domain) {
        queues[domain]
    } else {
        Seq::empty()
    }
}

/// The publication queues once the first `n` transactions have taken their
/// positions.
pub open spec fn queues_of(batch: Seq<ExecTransaction>, n: int) -> Map<ChannelId, Seq<Position>>
    decreases n,
{
    if n <= 0 {
        Map::empty()
    } else {
        let before = queues_of(batch, n - 1);
        let tx = batch[n - 1];
        before.insert(
            tx.domain,
            queue_in(before, tx.domain).push(
                Position { sequence: tx.domain_sequence, finished: false, stamp: None },
            ),
        )
    }
}

/// The interpreter once these positions have been released.
pub open spec fn all_stamped(interp: InterpreterModel, releases: Seq<Release>) -> InterpreterModel
    decreases releases.len(),
{
    if releases.len() == 0 {
        interp
    } else {
        all_stamped(interp, releases.drop_last()).stamped(releases.last().stamp)
    }
}

/// One channel's releases, told apart from the others'.
pub open spec fn released_as(domain: ChannelId, releases: Seq<Release>) -> Seq<ChannelRelease> {
    releases.map_values(
        |r: Release| ChannelRelease { domain, sequence: r.sequence, stamp: r.stamp },
    )
}

/// The list names exactly the channels that hold finished positions, in
/// channel-number order, with how many.
pub open spec fn is_held(
    held: Seq<(ChannelId, usize)>,
    queues: Map<ChannelId, Seq<Position>>,
) -> bool {
    &&& forall|i: int, j: int|
        0 <= i < j < held.len() ==> (#[trigger] held[i]).0.0 < (#[trigger] held[j]).0.0
    &&& forall|d: ChannelId, n: usize| #[trigger]
        held.contains((d, n)) == (n > 0 && n == crate::publish::finished_count(
            queue_in(queues, d),
        ))
}

/// The channels that hold finished positions.
pub open spec fn held_in(queues: Map<ChannelId, Seq<Position>>) -> Seq<(ChannelId, usize)> {
    choose|held: Seq<(ChannelId, usize)>| is_held(held, queues)
}

/// What a run has done so far.
#[verifier::ext_equal]
pub struct Progress {
    pub interp: InterpreterModel,
    pub queues: Map<ChannelId, Seq<Position>>,
    pub spans: Seq<Span>,
    pub releases: Seq<ChannelRelease>,
    pub blocked: Seq<(ChannelId, usize)>,
}

impl Progress {
    /// Every transaction has its position and none has run.
    pub open spec fn start(batch: Seq<ExecTransaction>) -> Progress {
        Progress {
            interp: InterpreterModel::fresh(),
            queues: queues_of(batch, batch.len() as int),
            spans: Seq::empty(),
            releases: Seq::empty(),
            blocked: Seq::empty(),
        }
    }

    /// What a transaction publishes if it completes now: its stamp, unless it
    /// is refused.
    pub open spec fn owed(self, tx: ExecTransaction) -> Option<CompletionStamp> {
        if self.interp.refusal(tx) is None {
            tx.publication.stamp
        } else {
            None
        }
    }

    /// The transaction's channel once it has completed, before it is drained.
    pub open spec fn finished_queue(self, tx: ExecTransaction) -> Seq<Position> {
        crate::publish::with_finished(
            queue_in(self.queues, tx.domain),
            tx.domain_sequence,
            self.owed(tx),
        )
    }

    /// What completing a transaction releases.
    pub open spec fn releases_of(self, tx: ExecTransaction) -> Seq<Release> {
        crate::publish::published_by(self.finished_queue(tx))
    }

    /// The run once one more transaction has completed.
    pub open spec fn finished(self, tx: ExecTransaction) -> Progress {
        let interp = all_stamped(self.interp.performed(tx), self.releases_of(tx));
        let queues = self.queues.insert(
            tx.domain,
            crate::publish::left_by(self.finished_queue(tx)),
        );
        Progress {
            interp,
            queues,
            spans: self.spans.push(
                Span {
                    ordinal: tx.ingress,
                    start: self.interp.trace.len() as int,
                    end: interp.trace.len() as int,
                },
            ),
            releases: self.releases + released_as(tx.domain, self.releases_of(tx)),
            blocked: self.blocked + held_in(queues),
        }
    }
}

/// The run once these transactions have completed, in order.
pub open spec fn progress_after(batch: Seq<ExecTransaction>, done: Seq<IngressOrdinal>) -> Progress
    decreases done.len(),
{
    if done.len() == 0 {
        Progress::start(batch)
    } else {
        progress_after(batch, done.drop_last()).finished(tx_of(batch, done.last()))
    }
}

/// The first `n` transactions, run one at a time in the order they stand in.
/// Each is released as it completes, and none waits behind another.
pub open spec fn in_turn(batch: Seq<ExecTransaction>, n: int) -> Progress
    decreases n,
{
    if n <= 0 {
        Progress {
            interp: InterpreterModel::fresh(),
            queues: Map::empty(),
            spans: Seq::empty(),
            releases: Seq::empty(),
            blocked: Seq::empty(),
        }
    } else {
        let before = in_turn(batch, n - 1);
        let tx = batch[n - 1];
        let interp = before.interp.after(tx);
        Progress {
            interp,
            spans: before.spans.push(
                Span {
                    ordinal: tx.ingress,
                    start: before.interp.trace.len() as int,
                    end: interp.trace.len() as int,
                },
            ),
            releases: before.releases.push(
                ChannelRelease {
                    domain: tx.domain,
                    sequence: tx.domain_sequence,
                    stamp: before.owed(tx),
                },
            ),
            ..before
        }
    }
}

/// The earliest producer of one of the transaction's event waits.
pub open spec fn event_producer(
    batch: Seq<ExecTransaction>,
    waiter: IngressOrdinal,
    o: IngressOrdinal,
) -> bool {
    exists|k: int| produces_event(crate::eligible::batch_producers(batch), waiter, o, k)
}

/// The edge at `k` is the waiter's, for an event, and names the producer.
pub open spec fn produces_event(
    edges: Seq<crate::eligible::WaitEdge>,
    waiter: IngressOrdinal,
    o: IngressOrdinal,
    k: int,
) -> bool {
    0 <= k < edges.len() && edges[k].0 == waiter && edges[k].1 is Event && edges[k].2 == o
}

/// The stamp waits among a transaction's prerequisites, in order.
pub open spec fn stamp_waits_of(ps: Seq<Prerequisite>) -> Seq<StampWait>
    decreases ps.len(),
{
    if ps.len() == 0 {
        Seq::empty()
    } else {
        match ps.last() {
            Prerequisite::Stamp(w) => stamp_waits_of(ps.drop_last()).push(w),
            _ => stamp_waits_of(ps.drop_last()),
        }
    }
}

/// What the transaction at `i` waits for when it is accepted after these rows:
/// the outstanding transactions that a hazard or an event wait names, and its
/// stamp waits.
pub open spec fn first_row(batch: Seq<ExecTransaction>, rows: Seq<Waiting>, i: int) -> Waiting {
    Waiting {
        ordinal: batch[i].ingress,
        hazards: Set::new(
            |o: IngressOrdinal|
                (crate::eligible::hazard_on(batch, i, o) || event_producer(
                    batch,
                    batch[i].ingress,
                    o,
                )) && crate::ready::is_pending(rows, o),
        ),
        stamps: stamp_waits_of(batch[i].prerequisites@),
        pipelines: Seq::empty(),
        completion: batch[i].publication.stamp,
    }
}

/// What the first `n` transactions wait for once all of them are accepted.
pub open spec fn first_rows(batch: Seq<ExecTransaction>, n: int) -> Seq<Waiting>
    decreases n,
{
    if n <= 0 {
        Seq::empty()
    } else {
        first_rows(batch, n - 1).push(first_row(batch, first_rows(batch, n - 1), n - 1))
    }
}

/// Where a channel position stands in a batch.
pub open spec fn has_position(
    batch: Seq<ExecTransaction>,
    d: ChannelId,
    sequence: ChannelSequence,
    i: int,
) -> bool {
    0 <= i < batch.len() && batch[i].domain == d && batch[i].domain_sequence == sequence
}

/// The completion word a channel position carries.
pub open spec fn word_at(
    batch: Seq<ExecTransaction>,
    d: ChannelId,
    sequence: ChannelSequence,
) -> Option<CompletionStamp> {
    if exists|i: int| has_position(batch, d, sequence, i) {
        batch[choose|i: int| has_position(batch, d, sequence, i)].publication.stamp
    } else {
        None
    }
}

/// The completion words of released positions, whether or not the work behind
/// them was refused.
pub open spec fn words_of(
    batch: Seq<ExecTransaction>,
    d: ChannelId,
    releases: Seq<Release>,
) -> Seq<Release> {
    releases.map_values(
        |r: Release| Release { sequence: r.sequence, stamp: word_at(batch, d, r.sequence) },
    )
}

/// What is waiting, and what has been published, once these transactions have
/// completed.
pub open spec fn readiness_after(
    batch: Seq<ExecTransaction>,
    done: Seq<IngressOrdinal>,
) -> Readiness
    decreases done.len(),
{
    if done.len() == 0 {
        Readiness {
            rows: first_rows(batch, batch.len() as int),
            stamps: Map::empty(),
            ready: Set::empty(),
        }
    } else {
        crate::ready::announced(
            readiness_after(batch, done.drop_last()).completed(done.last()),
            words_of(
                batch,
                tx_of(batch, done.last()).domain,
                progress_after(batch, done.drop_last()).releases_of(tx_of(batch, done.last())),
            ),
        )
    }
}

/// The transactions that may complete next, in arrival order.
pub open spec fn ready_list(rows: Seq<Waiting>) -> Seq<IngressOrdinal> {
    rows.filter(|r: Waiting| r.unblocked()).map_values(|r: Waiting| r.ordinal)
}

/// The transactions that may complete once these have.
pub open spec fn may_follow(batch: Seq<ExecTransaction>, done: Seq<IngressOrdinal>) -> Seq<
    IngressOrdinal,
> {
    ready_list(readiness_after(batch, done).rows)
}

/// Every transaction completed when it was ready.
pub open spec fn permitted(batch: Seq<ExecTransaction>, order: Seq<IngressOrdinal>) -> bool {
    forall|k: int|
        0 <= k < order.len() ==> may_follow(batch, order.take(k)).contains(#[trigger] order[k])
}

/// Nothing is left that could complete.
pub open spec fn exhausted(batch: Seq<ExecTransaction>, order: Seq<IngressOrdinal>) -> bool {
    may_follow(batch, order).len() == 0
}

/// A choice among transactions that are ready.
pub trait Choice: Sized {
    /// It takes one of those it is shown, whatever they are.
    spec fn chooses(self) -> bool;

    /// It may take the one at `at`.
    spec fn takes(self, ready: Seq<IngressOrdinal>, at: int) -> bool;

    /// What it becomes by choosing.
    spec fn onward(self, ready: Seq<IngressOrdinal>) -> Self;

    fn pick(&mut self, ready: &[IngressOrdinal]) -> (at: usize)
        requires
            old(self).chooses(),
            ready@.len() > 0,
        ensures
            final(self).chooses(),
            at < ready@.len(),
            old(self).takes(ready@, at as int),
            *final(self) == old(self).onward(ready@),
    ;
}

/// A choice takes this one of those that are ready.
pub open spec fn takes_one<C: Choice>(
    choice: C,
    ready: Seq<IngressOrdinal>,
    o: IngressOrdinal,
) -> bool {
    exists|at: int| 0 <= at < ready.len() && ready[at] == o && #[trigger] choice.takes(ready, at)
}

/// What a choice has become after `k` completions.
pub open spec fn choice_after<C: Choice>(
    batch: Seq<ExecTransaction>,
    order: Seq<IngressOrdinal>,
    choice: C,
    k: int,
) -> C
    decreases k,
{
    if k <= 0 {
        choice
    } else {
        choice_after(batch, order, choice, k - 1).onward(may_follow(batch, order.take(k - 1)))
    }
}

/// Each completion is one the choice took among those that were ready.
pub open spec fn chosen_by<C: Choice>(
    batch: Seq<ExecTransaction>,
    order: Seq<IngressOrdinal>,
    choice: C,
) -> bool {
    forall|k: int|
        0 <= k < order.len() ==> takes_one(
            choice_after(batch, order, choice, k),
            may_follow(batch, order.take(k)),
            #[trigger] order[k],
        )
}

/// What the run names as stalled is what is left outstanding and nothing will
/// answer.
pub open spec fn stalls(batch: Seq<ExecTransaction>, run: Run) -> bool {
    forall|o: IngressOrdinal| #[trigger]
        run.stalled@.contains(o) == (exists|i: int|
            0 <= i < readiness_after(batch, order_of(run)).rows.len() && (
            #[trigger] readiness_after(batch, order_of(run)).rows[i]).ordinal == o
                && crate::ready::unanswerable(
                readiness_after(batch, order_of(run)).rows,
                readiness_after(batch, order_of(run)).rows[i],
            ))
}

/// Nothing stalled, and every transaction of the batch completed once.
pub open spec fn completes(batch: Seq<ExecTransaction>, run: Run) -> bool {
    &&& run.stalled@.len() == 0
    &&& order_of(run).len() == batch.len()
    &&& crate::words::is_shuffle(order_of(run), ordinals(batch))
}

/// The run did exactly this.
pub open spec fn did(run: Run, progress: Progress) -> bool {
    &&& run.trace@ == progress.interp.trace
    &&& spans_of(run.spans@) == progress.spans
    &&& run.releases@ == progress.releases
    &&& run.blocked@ == progress.blocked
}

/// The hazards the transaction at `i` compiles to.
pub open spec fn hazards_of(
    batch: Seq<ExecTransaction>,
    i: int,
    waits: Seq<IngressOrdinal>,
) -> bool {
    &&& crate::ordinal_set::ascending(waits)
    &&& forall|o: IngressOrdinal| #[trigger]
        waits.contains(o) == crate::eligible::hazard_on(batch, i, o)
}

/// What compiling the hazards of the transaction at `i` adds to the census.
pub open spec fn charges(
    batch: Seq<ExecTransaction>,
    i: int,
    before: Census,
    after: Census,
) -> bool {
    exists|waits: Seq<IngressOrdinal>| #[trigger]
        hazards_of(batch, i, waits) && crate::depend::charged(
            before,
            after,
            crate::eligible::access_rows(batch, i),
            batch[i].ingress,
            batch[i].accesses@,
            waits.len(),
        )
}

/// The census is what compiling the first `n` transactions' hazards cost.
pub open spec fn census_of(batch: Seq<ExecTransaction>, n: int, census: Census) -> bool
    decreases n,
{
    if n <= 0 {
        &&& census.accesses == 0
        &&& census.edges == 0
        &&& census.by_rung@ == seq![0usize, 0, 0]
        &&& census.domain_only_comparisons == 0
        &&& census.edges_from_unknown_mode == 0
    } else {
        exists|before: Census| #[trigger]
            charges(batch, n - 1, before, census) && census_of(batch, n - 1, before)
    }
}

/// Two lists of the channels that hold finished positions are one.
proof fn lemma_held_is_determined(
    a: Seq<(ChannelId, usize)>,
    b: Seq<(ChannelId, usize)>,
    queues: Map<ChannelId, Seq<Position>>,
)
    requires
        is_held(a, queues),
        is_held(b, queues),
    ensures
        a == b,
{
    assert forall|p: (ChannelId, usize)| a.contains(p) == b.contains(p) by {
        assert(a.contains((p.0, p.1)) == b.contains((p.0, p.1)));
    }
    lemma_sorted_same(a, b);
}

proof fn lemma_sorted_same(a: Seq<(ChannelId, usize)>, b: Seq<(ChannelId, usize)>)
    requires
        forall|i: int, j: int|
            0 <= i < j < a.len() ==> (#[trigger] a[i]).0.0 < (#[trigger] a[j]).0.0,
        forall|i: int, j: int|
            0 <= i < j < b.len() ==> (#[trigger] b[i]).0.0 < (#[trigger] b[j]).0.0,
        forall|p: (ChannelId, usize)| a.contains(p) == b.contains(p),
    ensures
        a == b,
    decreases a.len(),
{
    if a.len() == 0 {
        if b.len() > 0 {
            assert(b.contains(b[0]));
        }
        assert(a =~= b);
    } else if b.len() == 0 {
        assert(a.contains(a[0]));
    } else {
        let x = a.last();
        let y = b.last();
        assert(a.contains(x));
        assert(b.contains(y));
        let i = choose|i: int| 0 <= i < b.len() && b[i] == x;
        let j = choose|j: int| 0 <= j < a.len() && a[j] == y;
        assert(x == y);
        let ai = a.drop_last();
        let bi = b.drop_last();
        assert forall|p: (ChannelId, usize)| ai.contains(p) == bi.contains(p) by {
            if ai.contains(p) {
                let k = choose|k: int| 0 <= k < ai.len() && ai[k] == p;
                assert(a[k] == p && p.0.0 < x.0.0);
                assert(b.contains(p));
                let m = choose|m: int| 0 <= m < b.len() && b[m] == p;
                assert(bi[m] == p);
            }
            if bi.contains(p) {
                let k = choose|k: int| 0 <= k < bi.len() && bi[k] == p;
                assert(b[k] == p && p.0.0 < y.0.0);
                assert(a.contains(p));
                let m = choose|m: int| 0 <= m < a.len() && a[m] == p;
                assert(ai[m] == p);
            }
        }
        lemma_sorted_same(ai, bi);
        assert(a =~= ai.push(x));
        assert(b =~= bi.push(y));
    }
}

/// A batch's ordinals name one transaction each.
pub proof fn lemma_tx_of(batch: Seq<ExecTransaction>, i: int)
    requires
        crate::eligible::in_ingress_order(batch),
        0 <= i < batch.len(),
    ensures
        holds(batch, batch[i].ingress),
        tx_of(batch, batch[i].ingress) == batch[i],
{
    let o = batch[i].ingress;
    assert(stands_at(batch, o, i));
    let k = choose|k: int| stands_at(batch, o, k);
    if k < i {
        assert(batch[k].ingress.0 < batch[i].ingress.0);
    } else if i < k {
        assert(batch[i].ingress.0 < batch[k].ingress.0);
    }
}

/// A transaction of the batch stands at some index.
pub proof fn lemma_index(batch: Seq<ExecTransaction>, o: IngressOrdinal) -> (i: int)
    requires
        holds(batch, o),
    ensures
        stands_at(batch, o, i),
        tx_of(batch, o) == batch[i],
{
    choose|i: int| stands_at(batch, o, i)
}

/// Every transaction holds an unfinished position once all have taken theirs.
proof fn lemma_first_positions(batch: Seq<ExecTransaction>, n: int, i: int)
    requires
        0 <= i < n <= batch.len(),
    ensures
        crate::publish::is_outstanding(
            queue_in(queues_of(batch, n), batch[i].domain),
            batch[i].domain_sequence,
        ),
    decreases n,
{
    let before = queues_of(batch, n - 1);
    let after = queues_of(batch, n);
    let d = batch[n - 1].domain;
    if i == n - 1 {
        assert(crate::publish::unfinished_at(
            queue_in(after, d),
            batch[i].domain_sequence,
            queue_in(before, d).len() as int,
        ));
    } else {
        lemma_first_positions(batch, n - 1, i);
        let q = queue_in(before, batch[i].domain);
        let k = choose|k: int|
            crate::publish::unfinished_at(q, batch[i].domain_sequence, k);
        assert(crate::publish::unfinished_at(
            queue_in(after, batch[i].domain),
            batch[i].domain_sequence,
            k,
        ));
    }
}

/// A transaction that has not completed still holds its position.
pub proof fn lemma_still_outstanding(
    batch: Seq<ExecTransaction>,
    done: Seq<IngressOrdinal>,
    i: int,
)
    requires
        in_order(batch),
        0 <= i < batch.len(),
        forall|k: int| 0 <= k < done.len() ==> holds(batch, #[trigger] done[k]),
        !done.contains(batch[i].ingress),
    ensures
        crate::publish::is_outstanding(
            queue_in(progress_after(batch, done).queues, batch[i].domain),
            batch[i].domain_sequence,
        ),
    decreases done.len(),
{
    if done.len() == 0 {
        lemma_first_positions(batch, batch.len() as int, i);
    } else {
        let init = done.drop_last();
        let o = done.last();
        assert(holds(batch, done[done.len() - 1]));
        let at = lemma_index(batch, o);
        let tx = batch[at];
        assert(!init.contains(batch[i].ingress)) by {
            if init.contains(batch[i].ingress) {
                let k = choose|k: int| 0 <= k < init.len() && init[k] == batch[i].ingress;
                assert(done[k] == batch[i].ingress);
            }
        }
        assert forall|k: int| 0 <= k < init.len() implies holds(batch, #[trigger] init[k]) by {
            assert(holds(batch, done[k]));
        }
        lemma_still_outstanding(batch, init, i);
        let p = progress_after(batch, init);
        if tx.domain == batch[i].domain {
            assert(at != i);
            assert(tx.domain_sequence != batch[i].domain_sequence) by {
                if at < i {
                    assert(batch[at].domain_sequence.0 < batch[i].domain_sequence.0);
                } else {
                    assert(batch[i].domain_sequence.0 < batch[at].domain_sequence.0);
                }
            }
            let q = queue_in(p.queues, tx.domain);
            crate::publish::lemma_finish(q, tx.domain_sequence, p.owed(tx));
            crate::publish::lemma_left(p.finished_queue(tx));
            assert(crate::publish::is_outstanding(
                p.finished_queue(tx),
                batch[i].domain_sequence,
            ));
        }
    }
}

/// What drives a batch: the work and what each channel tells the guest.
struct Drive {
    interpreter: Interpreter,
    publisher: Publisher,
    spans: Vec<(IngressOrdinal, Range<usize>)>,
    releases: Vec<ChannelRelease>,
    blocked: Vec<(ChannelId, usize)>,
}

/// One of the first `n` transactions has the channel position.
spec fn positioned_by(
    batch: Seq<ExecTransaction>,
    n: int,
    d: ChannelId,
    sequence: ChannelSequence,
) -> bool {
    exists|j: int|
        0 <= j < n && (#[trigger] batch[j]).domain == d && batch[j].domain_sequence == sequence
}

impl Drive {
    spec fn progress(&self) -> Progress {
        Progress {
            interp: self.interpreter@,
            queues: self.publisher@,
            spans: spans_of(self.spans@),
            releases: self.releases@,
            blocked: self.blocked@,
        }
    }

    spec fn wf(&self) -> bool {
        self.interpreter.wf() && self.publisher.wf()
    }

    /// Give every transaction of a batch its channel position.
    fn new(batch: &[ExecTransaction]) -> (drive: Drive)
        requires
            in_order(batch@),
        ensures
            drive.wf(),
            drive.progress() == Progress::start(batch@),
            drive.spans@.len() == 0,
    {
        let mut publisher = Publisher::new();
        let mut i: usize = 0;
        while i < batch.len()
            invariant
                in_order(batch@),
                i <= batch@.len(),
                publisher.wf(),
                publisher@ == queues_of(batch@, i as int),
                forall|d: ChannelId| #[trigger]
                    publisher.latest().dom().contains(d) ==> positioned_by(
                        batch@,
                        i as int,
                        d,
                        publisher.latest()[d],
                    ),
            decreases batch.len() - i,
        {
            let tx = &batch[i];
            proof {
                if publisher.latest().dom().contains(tx.domain) {
                    let j = choose|j: int|
                        0 <= j < i && (#[trigger] batch@[j]).domain == tx.domain
                            && batch@[j].domain_sequence == publisher.latest()[tx.domain];
                    assert(batch@[j].domain_sequence.0 < batch@[i as int].domain_sequence.0);
                }
            }
            let ghost given = publisher.latest();
            publisher.accept(tx.domain, tx.domain_sequence);
            proof {
                assert forall|d: ChannelId| #[trigger]
                    publisher.latest().dom().contains(d) implies positioned_by(
                    batch@,
                    i + 1,
                    d,
                    publisher.latest()[d],
                ) by {
                    if d == tx.domain {
                        assert(batch@[i as int].domain == d);
                    } else {
                        assert(given.dom().contains(d));
                        let j = choose|j: int|
                            0 <= j < i && (#[trigger] batch@[j]).domain == d
                                && batch@[j].domain_sequence == given[d];
                        assert(batch@[j].domain == d);
                    }
                }
            }
            i += 1;
        }
        let drive = Drive {
            interpreter: Interpreter::new(),
            publisher,
            spans: Vec::new(),
            releases: Vec::new(),
            blocked: Vec::new(),
        };
        assert(drive.progress() =~= Progress::start(batch@));
        drive
    }

    /// Complete one transaction: run its work, publish its versions, and
    /// publish every stamp its channel now releases.
    fn finish(&mut self, tx: &ExecTransaction) -> (released: Vec<Release>)
        requires
            old(self).wf(),
            crate::publish::is_outstanding(
                queue_in(old(self).progress().queues, tx.domain),
                tx.domain_sequence,
            ),
        ensures
            final(self).wf(),
            released@ == old(self).progress().releases_of(*tx),
            final(self).progress() == old(self).progress().finished(*tx),
            final(self).spans@.len() == old(self).spans@.len() + 1,
            final(self).spans@.drop_last() == old(self).spans@,
            final(self).spans@.last().0 == tx.ingress,
    {
        let ghost p = self.progress();
        let start = self.interpreter.trace().len();
        let outcome = self.interpreter.perform(tx);
        let owed = if outcome == Outcome::Ran {
            tx.publication.stamp
        } else {
            None
        };
        assert(self.publisher.queue(tx.domain) == queue_in(p.queues, tx.domain));
        let released = self.publisher.complete(tx.domain, tx.domain_sequence, owed);
        let mut i: usize = 0;
        let ghost worked = self.interpreter@;
        let ghost told = self.releases@;
        assert(released@.take(0) =~= Seq::<Release>::empty());
        while i < released.len()
            invariant
                i <= released@.len(),
                self.interpreter.wf(),
                self.publisher.wf(),
                self.interpreter@ == all_stamped(worked, released@.take(i as int)),
                self.releases@ =~= told + released_as(tx.domain, released@.take(i as int)),
                self.publisher@ == p.finished(*tx).queues,
                self.spans == old(self).spans,
                self.blocked == old(self).blocked,
            decreases released.len() - i,
        {
            let release = released[i];
            proof {
                assert(released@.take(i + 1).drop_last() =~= released@.take(i as int));
                assert(released@.take(i + 1).last() == release);
            }
            self.interpreter.publish(release.stamp);
            self.releases.push(
                ChannelRelease {
                    domain: tx.domain,
                    sequence: release.sequence,
                    stamp: release.stamp,
                },
            );
            i += 1;
        }
        assert(released@.take(i as int) =~= released@);
        let end = self.interpreter.trace().len();
        self.spans.push((tx.ingress, Range { start, end }));
        let mut held = self.publisher.blocked();
        proof {
            let queues = p.finished(*tx).queues;
            assert forall|d: ChannelId, n: usize| #[trigger]
                held@.contains((d, n)) == (n > 0 && n == crate::publish::finished_count(
                    queue_in(queues, d),
                )) by {
                assert(self.publisher.queue(d) == queue_in(queues, d));
            }
            assert(is_held(held@, queues));
            lemma_held_is_determined(held@, held_in(queues), queues);
        }
        self.blocked.append(&mut held);
        proof {
            assert(spans_of(self.spans@) =~= p.finished(*tx).spans);
            assert(self.progress() =~= p.finished(*tx));
            assert(self.spans@.drop_last() =~= old(self).spans@);
        }
        released
    }
}

/// Run the batch one transaction at a time, in the order it is handed over.
///
/// The reference. No scheduler, no readiness, nothing to be concurrent about.
#[must_use]
pub fn serial(batch: &[ExecTransaction]) -> (run: Run)
    ensures
        order_of(run) == ordinals(batch@),
        did(run, in_turn(batch@, batch@.len() as int)),
        in_order(batch@) ==> did(run, progress_after(batch@, ordinals(batch@))),
        run.stalled@.len() == 0,
        census_of(batch@, 0, run.census),
{
    let mut interpreter = Interpreter::new();
    let mut spans: Vec<(IngressOrdinal, Range<usize>)> = Vec::new();
    let mut releases: Vec<ChannelRelease> = Vec::new();
    let mut i: usize = 0;
    assert(spans_of(spans@) =~= Seq::<Span>::empty());
    while i < batch.len()
        invariant
            i <= batch@.len(),
            interpreter.wf(),
            interpreter@ == in_turn(batch@, i as int).interp,
            spans_of(spans@) == in_turn(batch@, i as int).spans,
            releases@ == in_turn(batch@, i as int).releases,
            in_turn(batch@, i as int).blocked.len() == 0,
            spans@.len() == i,
            forall|k: int| 0 <= k < i ==> (#[trigger] spans@[k]).0 == batch@[k].ingress,
        decreases batch.len() - i,
    {
        let tx = &batch[i];
        let ghost next = in_turn(batch@, i + 1);
        let start = interpreter.trace().len();
        let outcome = interpreter.run(tx);
        let end = interpreter.trace().len();
        spans.push((tx.ingress, Range { start, end }));
        let stamp = if outcome == Outcome::Ran {
            tx.publication.stamp
        } else {
            None
        };
        releases.push(
            ChannelRelease { domain: tx.domain, sequence: tx.domain_sequence, stamp },
        );
        assert(spans_of(spans@) =~= next.spans);
        i += 1;
    }
    let census = DependencyGraph::new().census();
    let run = Run {
        trace: interpreter.into_trace(),
        spans,
        stalled: Vec::new(),
        census,
        releases,
        blocked: Vec::new(),
    };
    proof {
        assert(order_of(run) =~= ordinals(batch@));
        assert(run.blocked@ =~= in_turn(batch@, i as int).blocked);
        if in_order(batch@) {
            lemma_in_turn(batch@, i as int);
            assert(ordinals(batch@).take(i as int) =~= ordinals(batch@));
        }
    }
    run
}

/// A channel's positions from a place on, none of them finished.
spec fn still_to_come(batch: Seq<ExecTransaction>, d: ChannelId, n: int) -> Seq<Position>
    decreases batch.len() - n,
{
    if n >= batch.len() {
        Seq::empty()
    } else if batch[n].domain == d {
        seq![Position { sequence: batch[n].domain_sequence, finished: false, stamp: None }]
            + still_to_come(batch, d, n + 1)
    } else {
        still_to_come(batch, d, n + 1)
    }
}

proof fn lemma_first_to_come(batch: Seq<ExecTransaction>, d: ChannelId, n: int)
    requires
        0 <= n <= batch.len(),
    ensures
        queue_in(queues_of(batch, batch.len() as int), d) == queue_in(queues_of(batch, n), d)
            + still_to_come(batch, d, n),
    decreases batch.len() - n,
{
    let now = queue_in(queues_of(batch, n), d);
    if n == batch.len() {
        assert(now + still_to_come(batch, d, n) =~= now);
    } else {
        lemma_first_to_come(batch, d, n + 1);
        let next = queue_in(queues_of(batch, n + 1), d);
        if batch[n].domain == d {
            let position = Position {
                sequence: batch[n].domain_sequence,
                finished: false,
                stamp: None,
            };
            assert(next =~= now.push(position));
            assert(now.push(position) + still_to_come(batch, d, n + 1) =~= now + (seq![position]
                + still_to_come(batch, d, n + 1)));
        }
    }
}

proof fn lemma_to_come(batch: Seq<ExecTransaction>, d: ChannelId, n: int)
    requires
        in_channel_order(batch),
        0 <= n <= batch.len(),
    ensures
        forall|k: int|
            0 <= k < still_to_come(batch, d, n).len() ==> {
                &&& !(#[trigger] still_to_come(batch, d, n)[k]).finished
                &&& positioned_from(batch, n, d, still_to_come(batch, d, n)[k].sequence)
            },
        crate::publish::finished_count(still_to_come(batch, d, n)) == 0,
    decreases batch.len() - n,
{
    let q = still_to_come(batch, d, n);
    if n < batch.len() {
        lemma_to_come(batch, d, n + 1);
        let rest = still_to_come(batch, d, n + 1);
        assert forall|k: int| 0 <= k < q.len() implies {
            &&& !(#[trigger] q[k]).finished
            &&& positioned_from(batch, n, d, q[k].sequence)
        } by {
            if batch[n].domain == d {
                if k == 0 {
                    assert(has_position(batch, d, q[k].sequence, n));
                } else {
                    let sequence = rest[k - 1].sequence;
                    assert(q[k] == rest[k - 1]);
                    let j = choose|j: int| n + 1 <= j && has_position(batch, d, sequence, j);
                    assert(has_position(batch, d, q[k].sequence, j));
                }
            } else {
                let j = choose|j: int| n + 1 <= j && has_position(batch, d, rest[k].sequence, j);
                assert(has_position(batch, d, q[k].sequence, j));
            }
        }
    }
    lemma_none_finished(q);
}

/// A transaction at or after a place has the channel position.
spec fn positioned_from(
    batch: Seq<ExecTransaction>,
    n: int,
    d: ChannelId,
    sequence: ChannelSequence,
) -> bool {
    exists|j: int| n <= j && has_position(batch, d, sequence, j)
}

proof fn lemma_none_finished(q: Seq<Position>)
    requires
        forall|k: int| 0 <= k < q.len() ==> !(#[trigger] q[k]).finished,
    ensures
        crate::publish::finished_count(q) == 0,
    decreases q.len(),
{
    if q.len() > 0 {
        let init = q.drop_last();
        assert forall|k: int| 0 <= k < init.len() implies !(#[trigger] init[k]).finished by {
            assert(init[k] == q[k]);
        }
        lemma_none_finished(init);
        assert(!q[q.len() - 1].finished);
    }
}

/// In ingress order every completion is the head of its channel, and is released
/// alone.
proof fn lemma_alone(batch: Seq<ExecTransaction>, p: Progress, n: int)
    requires
        in_order(batch),
        0 <= n < batch.len(),
        forall|d: ChannelId| #[trigger] queue_in(p.queues, d) == still_to_come(batch, d, n),
    ensures
        p.releases_of(batch[n]) == seq![
            Release { sequence: batch[n].domain_sequence, stamp: p.owed(batch[n]) },
        ],
        forall|d: ChannelId| #[trigger]
            queue_in(p.finished(batch[n]).queues, d) == still_to_come(batch, d, n + 1),
        held_in(p.finished(batch[n]).queues) == Seq::<(ChannelId, usize)>::empty(),
{
    let tx = batch[n];
    let d = tx.domain;
    let rest = still_to_come(batch, d, n + 1);
    let q = p.finished_queue(tx);
    let head = Position { sequence: tx.domain_sequence, finished: true, stamp: p.owed(tx) };
    lemma_to_come(batch, d, n + 1);
    assert(queue_in(p.queues, d) == still_to_come(batch, d, n));
    assert(q =~= seq![head] + rest) by {
        assert forall|k: int| 0 <= k < rest.len() implies (#[trigger] rest[k]).sequence
            != tx.domain_sequence by {
            let j = choose|j: int| n + 1 <= j && has_position(batch, d, rest[k].sequence, j);
            assert(batch[n].domain == batch[j].domain);
        }
    }
    crate::publish::lemma_prefix(q);
    assert(q[0].finished);
    if rest.len() > 0 {
        assert(q[1] == rest[0]);
    }
    crate::drained::lemma_prefix_is(q, 1);
    assert(crate::publish::left_by(q) =~= rest);
    assert(p.releases_of(tx) =~= seq![
        Release { sequence: tx.domain_sequence, stamp: p.owed(tx) },
    ]);
    let queues = p.finished(tx).queues;
    assert forall|e: ChannelId| #[trigger] queue_in(queues, e) == still_to_come(batch, e, n + 1) by {
        assert(queue_in(p.queues, e) == still_to_come(batch, e, n));
    }
    let none = Seq::<(ChannelId, usize)>::empty();
    assert(is_held(none, queues)) by {
        assert forall|e: ChannelId, k: usize| #[trigger]
            none.contains((e, k)) == (k > 0 && k == crate::publish::finished_count(
                queue_in(queues, e),
            )) by {
            lemma_to_come(batch, e, n + 1);
        }
    }
    lemma_held_is_determined(none, held_in(queues), queues);
}

/// A batch in both of its orders, run in turn, is the schedule in ingress order.
proof fn lemma_in_turn(batch: Seq<ExecTransaction>, n: int)
    requires
        in_order(batch),
        0 <= n <= batch.len(),
    ensures
        in_turn(batch, n).interp == progress_after(batch, ordinals(batch).take(n)).interp,
        in_turn(batch, n).spans == progress_after(batch, ordinals(batch).take(n)).spans,
        in_turn(batch, n).releases == progress_after(batch, ordinals(batch).take(n)).releases,
        in_turn(batch, n).blocked == progress_after(batch, ordinals(batch).take(n)).blocked,
        forall|d: ChannelId| #[trigger]
            queue_in(progress_after(batch, ordinals(batch).take(n)).queues, d) == still_to_come(
                batch,
                d,
                n,
            ),
    decreases n,
{
    let done = ordinals(batch).take(n);
    if n == 0 {
        assert(done =~= Seq::<IngressOrdinal>::empty());
        assert forall|d: ChannelId| #[trigger]
            queue_in(progress_after(batch, done).queues, d) == still_to_come(batch, d, 0) by {
            lemma_first_to_come(batch, d, 0);
            assert(queue_in(queues_of(batch, 0), d) + still_to_come(batch, d, 0)
                =~= still_to_come(batch, d, 0));
        }
    } else {
        lemma_in_turn(batch, n - 1);
        let init = ordinals(batch).take(n - 1);
        let tx = batch[n - 1];
        let p = progress_after(batch, init);
        let before = in_turn(batch, n - 1);
        assert(done.drop_last() =~= init);
        assert(done.last() == tx.ingress);
        lemma_tx_of(batch, n - 1);
        lemma_alone(batch, p, n - 1);
        let one = seq![Release { sequence: tx.domain_sequence, stamp: p.owed(tx) }];
        assert(one.drop_last() =~= Seq::<Release>::empty());
        reveal_with_fuel(all_stamped, 2);
        assert(all_stamped(p.interp.performed(tx), one) == p.interp.performed(tx).stamped(
            p.owed(tx),
        ));
        assert(p.interp.performed(tx).stamped(p.owed(tx)) =~= p.interp.after(tx)) by {
            if p.interp.refusal(tx) is Some {
                let away = p.interp.performed(tx);
                assert(away.stamped(None).trace =~= away.trace);
            }
        }
        assert(p.releases + released_as(tx.domain, one) =~= p.releases.push(
            ChannelRelease {
                domain: tx.domain,
                sequence: tx.domain_sequence,
                stamp: p.owed(tx),
            },
        ));
        assert(p.blocked + held_in(p.finished(tx).queues) =~= p.blocked);
        assert(p.spans == before.spans);
    }
}

/// The ready transactions are exactly these and those not yet taken.
spec fn covers(readiness: Readiness, pool: Seq<IngressOrdinal>) -> bool {
    forall|o: IngressOrdinal| #[trigger]
        crate::ready::is_unblocked(readiness.rows, o) == (readiness.ready.contains(o)
            || pool.contains(o))
}

proof fn lemma_unblocked_after(rows: Seq<Waiting>, event: crate::ready::Discharge, o: IngressOrdinal)
    ensures
        crate::ready::is_unblocked(crate::ready::all_after(rows, event), o) == (
        crate::ready::is_unblocked(rows, o) || crate::ready::released_by(rows, event, o)),
{
    let after = crate::ready::all_after(rows, event);
    if crate::ready::is_unblocked(rows, o) {
        let i = choose|i: int|
            0 <= i < rows.len() && (#[trigger] rows[i]).ordinal == o && rows[i].unblocked();
        crate::ready::discharging_never_blocks(rows[i], event);
        assert(after[i].ordinal == o);
    }
    if crate::ready::released_by(rows, event, o) {
        let i = choose|i: int|
            0 <= i < rows.len() && (#[trigger] rows[i]).ordinal == o && !rows[i].unblocked()
                && rows[i].after(event).unblocked();
        assert(after[i].ordinal == o);
    }
    if crate::ready::is_unblocked(after, o) {
        let i = choose|i: int|
            0 <= i < after.len() && (#[trigger] after[i]).ordinal == o && after[i].unblocked();
        assert(rows[i].ordinal == o);
    }
}

proof fn lemma_covers_announced(
    readiness: Readiness,
    pool: Seq<IngressOrdinal>,
    releases: Seq<Release>,
)
    requires
        covers(readiness, pool),
    ensures
        covers(crate::ready::announced(readiness, releases), pool),
    decreases releases.len(),
{
    if releases.len() > 0 {
        lemma_covers_announced(readiness, pool, releases.drop_last());
        let before = crate::ready::announced(readiness, releases.drop_last());
        match releases.last().stamp {
            Some(stamp) => {
                let event = crate::ready::Discharge::Published(
                    stamp.slot,
                    crate::ready::slot_after(before.stamps, stamp),
                );
                assert forall|o: IngressOrdinal| #[trigger]
                    crate::ready::is_unblocked(before.published(stamp).rows, o) == (
                    before.published(stamp).ready.contains(o) || pool.contains(o)) by {
                    lemma_unblocked_after(before.rows, event, o);
                    assert(crate::ready::is_unblocked(before.rows, o) == (before.ready.contains(o)
                        || pool.contains(o)));
                }
            },
            None => {},
        }
    }
}

/// Completing takes one transaction out of the ready ones and adds those it
/// releases.
proof fn lemma_covers_completed(
    readiness: Readiness,
    pool: Seq<IngressOrdinal>,
    left: Seq<IngressOrdinal>,
    gone: IngressOrdinal,
    at: int,
)
    requires
        covers(readiness, pool),
        crate::ready::rows_ascending(readiness.rows),
        0 <= at < readiness.rows.len(),
        readiness.rows[at].ordinal == gone,
        forall|o: IngressOrdinal| #[trigger] left.contains(o) == (pool.contains(o) && o != gone),
    ensures
        covers(readiness.completed(gone), left),
{
    let rows = readiness.rows;
    let event = crate::ready::Discharge::Completed(gone);
    crate::ready::lemma_rows_without(rows, at);
    let rest = rows.remove(at);
    assert forall|o: IngressOrdinal| #[trigger]
        crate::ready::is_unblocked(readiness.completed(gone).rows, o) == (
        readiness.completed(gone).ready.contains(o) || left.contains(o)) by {
        lemma_unblocked_after(rest, event, o);
        assert(crate::ready::is_unblocked(rows, o) == (readiness.ready.contains(o)
            || pool.contains(o)));
        assert forall|i: int| 0 <= i < rest.len() implies (#[trigger] rest[i]).ordinal != gone by {
            let k = if i < at { i } else { i + 1 };
            assert(rest[i] == rows[k]);
            if k < at {
                assert(rows[k].ordinal.0 < rows[at].ordinal.0);
            } else {
                assert(rows[at].ordinal.0 < rows[k].ordinal.0);
            }
        }
        if o != gone {
            if crate::ready::is_unblocked(rows, o) {
                let i = choose|i: int|
                    0 <= i < rows.len() && (#[trigger] rows[i]).ordinal == o
                        && rows[i].unblocked();
                assert(rest[if i < at { i } else { i - 1 }].ordinal == o);
            }
            if crate::ready::is_unblocked(rest, o) {
                let i = choose|i: int|
                    0 <= i < rest.len() && (#[trigger] rest[i]).ordinal == o
                        && rest[i].unblocked();
                assert(rows[if i < at { i } else { i + 1 }].ordinal == o);
            }
            if crate::ready::released_by(rows, event, o) {
                let i = choose|i: int|
                    0 <= i < rows.len() && (#[trigger] rows[i]).ordinal == o
                        && !rows[i].unblocked() && rows[i].after(event).unblocked();
                assert(rest[if i < at { i } else { i - 1 }].ordinal == o);
            }
            if crate::ready::released_by(rest, event, o) {
                let i = choose|i: int|
                    0 <= i < rest.len() && (#[trigger] rest[i]).ordinal == o
                        && !rest[i].unblocked() && rest[i].after(event).unblocked();
                assert(rows[if i < at { i } else { i + 1 }].ordinal == o);
            }
        }
    }
}

/// The ready list holds the unblocked transactions, ascending.
pub proof fn lemma_ready_list(rows: Seq<Waiting>)
    requires
        crate::ready::rows_ascending(rows),
    ensures
        crate::ordinal_set::ascending(ready_list(rows)),
        forall|o: IngressOrdinal| #[trigger]
            ready_list(rows).contains(o) == crate::ready::is_unblocked(rows, o),
    decreases rows.len(),
{
    reveal(Seq::filter);
    if rows.len() == 0 {
        assert(ready_list(rows) =~= Seq::<IngressOrdinal>::empty());
    } else {
        let init = rows.drop_last();
        let last = rows.last();
        assert forall|i: int, j: int| 0 <= i < j < init.len() implies (
        #[trigger] init[i]).ordinal.0 < (#[trigger] init[j]).ordinal.0 by {
            assert(rows[i].ordinal.0 < rows[j].ordinal.0);
        }
        lemma_ready_list(init);
        let list = ready_list(rows);
        let before = ready_list(init);
        if last.unblocked() {
            assert(list =~= before.push(last.ordinal));
            assert forall|i: int| 0 <= i < before.len() implies (#[trigger] before[i]).0
                < last.ordinal.0 by {
                assert(before.contains(before[i]));
                let k = choose|k: int|
                    0 <= k < init.len() && (#[trigger] init[k]).ordinal == before[i]
                        && init[k].unblocked();
                assert(rows[k].ordinal.0 < rows[rows.len() - 1].ordinal.0);
            }
        } else {
            assert(list =~= before);
        }
        assert forall|o: IngressOrdinal| #[trigger]
            list.contains(o) == crate::ready::is_unblocked(rows, o) by {
            if crate::ready::is_unblocked(init, o) {
                let k = choose|k: int|
                    0 <= k < init.len() && (#[trigger] init[k]).ordinal == o
                        && init[k].unblocked();
                assert(rows[k].ordinal == o);
                assert(before.contains(o));
                let m = choose|m: int| 0 <= m < before.len() && before[m] == o;
                assert(list[m] == o);
            }
            if crate::ready::is_unblocked(rows, o) && !crate::ready::is_unblocked(init, o) {
                let k = choose|k: int|
                    0 <= k < rows.len() && (#[trigger] rows[k]).ordinal == o
                        && rows[k].unblocked();
                if k < init.len() {
                    assert(init[k].ordinal == o);
                }
                assert(list[before.len() as int] == o);
            }
            if list.contains(o) {
                let m = choose|m: int| 0 <= m < list.len() && list[m] == o;
                if m < before.len() {
                    assert(before.contains(o));
                } else {
                    assert(rows[rows.len() - 1].ordinal == o);
                }
            }
        }
    }
}

/// The rows a batch starts with are its transactions, in order.
pub proof fn lemma_first_rows(batch: Seq<ExecTransaction>, n: int)
    requires
        crate::eligible::in_ingress_order(batch),
        0 <= n <= batch.len(),
    ensures
        first_rows(batch, n).len() == n,
        forall|i: int|
            0 <= i < n ==> (#[trigger] first_rows(batch, n)[i]) == first_row(
                batch,
                first_rows(batch, i),
                i,
            ),
        crate::ready::rows_ascending(first_rows(batch, n)),
        forall|o: IngressOrdinal| #[trigger]
            crate::ready::is_pending(first_rows(batch, n), o) == (exists|i: int|
                0 <= i < n && (#[trigger] batch[i]).ingress == o),
    decreases n,
{
    let rows = first_rows(batch, n);
    if n > 0 {
        lemma_first_rows(batch, n - 1);
        let init = first_rows(batch, n - 1);
        assert forall|i: int| 0 <= i < n implies (#[trigger] rows[i]) == first_row(
            batch,
            first_rows(batch, i),
            i,
        ) by {
            if i < n - 1 {
                assert(rows[i] == init[i]);
            }
        }
        assert forall|i: int, j: int| 0 <= i < j < rows.len() implies (
        #[trigger] rows[i]).ordinal.0 < (#[trigger] rows[j]).ordinal.0 by {
            assert(batch[i].ingress.0 < batch[j].ingress.0);
        }
    }
    assert forall|o: IngressOrdinal| #[trigger]
        crate::ready::is_pending(rows, o) == (exists|i: int|
            0 <= i < n && (#[trigger] batch[i]).ingress == o) by {
        if crate::ready::is_pending(rows, o) {
            let i = choose|i: int| 0 <= i < rows.len() && (#[trigger] rows[i]).ordinal == o;
            assert(batch[i].ingress == o);
        }
        if exists|i: int| 0 <= i < n && (#[trigger] batch[i]).ingress == o {
            let i = choose|i: int| 0 <= i < n && (#[trigger] batch[i]).ingress == o;
            assert(rows[i].ordinal == o);
        }
    }
}

/// Nothing published answers no wait.
proof fn lemma_all_unmet(waits: Seq<StampWait>)
    ensures
        crate::ready::unmet(Map::empty(), waits) == waits,
    decreases waits.len(),
{
    reveal(Seq::filter);
    if waits.len() > 0 {
        lemma_all_unmet(waits.drop_last());
        assert(waits.drop_last().push(waits.last()) =~= waits);
    } else {
        assert(crate::ready::unmet(Map::empty(), waits) =~= waits);
    }
}

/// The stamp waits among prerequisites.
fn stamp_waits(ps: &Vec<Prerequisite>) -> (waits: Vec<StampWait>)
    ensures
        waits@ == stamp_waits_of(ps@),
{
    let mut waits: Vec<StampWait> = Vec::new();
    let mut i: usize = 0;
    while i < ps.len()
        invariant
            i <= ps@.len(),
            waits@ == stamp_waits_of(ps@.take(i as int)),
        decreases ps.len() - i,
    {
        proof {
            assert(ps@.take(i + 1).drop_last() =~= ps@.take(i as int));
            assert(ps@.take(i + 1).last() == ps@[i as int]);
        }
        if let Prerequisite::Stamp(wait) = ps[i] {
            waits.push(wait);
        }
        i += 1;
    }
    assert(ps@.take(i as int) =~= ps@);
    waits
}

/// Add the earliest producers of a transaction's event waits.
fn add_event_producers(
    hazards: &mut Vec<IngressOrdinal>,
    producers: &Vec<crate::eligible::WaitEdge>,
    waiter: IngressOrdinal,
)
    ensures
        forall|o: IngressOrdinal| #[trigger]
            final(hazards)@.contains(o) == (old(hazards)@.contains(o) || exists|k: int|
                produces_event(producers@, waiter, o, k)),
{
    let ghost first = hazards@;
    let mut i: usize = 0;
    while i < producers.len()
        invariant
            i <= producers@.len(),
            first == old(hazards)@,
            forall|o: IngressOrdinal| #[trigger]
                hazards@.contains(o) == (first.contains(o) || exists|k: int|
                    k < i && produces_event(producers@, waiter, o, k)),
        decreases producers.len() - i,
    {
        let (who, point, producer) = producers[i];
        let ghost before = hazards@;
        let event = match point {
            WaitPoint::Event { .. } => true,
            WaitPoint::Stamp { .. } => false,
        };
        if event && who == waiter {
            hazards.push(producer);
            assert(produces_event(producers@, waiter, producer, i as int));
        }
        proof {
            assert forall|o: IngressOrdinal| #[trigger]
                hazards@.contains(o) == (first.contains(o) || exists|k: int|
                    k < i + 1 && produces_event(producers@, waiter, o, k)) by {
                if event && who == waiter {
                    assert(hazards@ == before.push(producer));
                    assert(hazards@[before.len() as int] == producer);
                }
                if before.contains(o) {
                    let m = choose|m: int| 0 <= m < before.len() && before[m] == o;
                    assert(hazards@[m] == o);
                }
                if hazards@.contains(o) && !before.contains(o) {
                    let m = choose|m: int| 0 <= m < hazards@.len() && hazards@[m] == o;
                    if m < before.len() {
                        assert(before[m] == o);
                    }
                    assert(o == producer);
                }
                if exists|k: int| k < i + 1 && produces_event(producers@, waiter, o, k) {
                    let k = choose|k: int| k < i + 1 && produces_event(producers@, waiter, o, k);
                    if k < i {
                        assert(before.contains(o));
                    }
                }
            }
        }
        i += 1;
    }
    proof {
        assert forall|o: IngressOrdinal| #[trigger]
            hazards@.contains(o) == (first.contains(o) || exists|k: int|
                produces_event(producers@, waiter, o, k)) by {
            if exists|k: int| produces_event(producers@, waiter, o, k) {
                let k = choose|k: int| produces_event(producers@, waiter, o, k);
                assert(k < i);
            }
        }
    }
}

/// Accept a whole batch into the hazard graph and the readiness service.
fn accept_all(batch: &[ExecTransaction]) -> (planes: (Scheduler, DependencyGraph))
    requires
        in_order(batch@),
    ensures
        planes.0.wf(),
        planes.0.rows() == first_rows(batch@, batch@.len() as int),
        planes.0.stamps() == readiness_after(batch@, Seq::empty()).stamps,
        forall|o: IngressOrdinal| #[trigger]
            planes.0.newly_ready().contains(o) == crate::ready::is_unblocked(planes.0.rows(), o),
        planes.1.wf(),
        census_of(batch@, batch@.len() as int, planes.1.counts()),
{
    let waits = wait_graph(batch);
    let producers = earliest_producers(&waits);
    assert(producers@ == crate::eligible::batch_producers(batch@));
    let mut graph = DependencyGraph::new();
    let mut scheduler = Scheduler::new();
    let mut i: usize = 0;
    while i < batch.len()
        invariant
            in_order(batch@),
            i <= batch@.len(),
            producers@ == crate::eligible::batch_producers(batch@),
            graph.wf(),
            graph.rows() == crate::eligible::access_rows(batch@, i as int),
            i == 0 ==> graph.newest() is None,
            i > 0 ==> graph.newest() == Some(batch@[i - 1].ingress),
            census_of(batch@, i as int, graph.counts()),
            scheduler.wf(),
            scheduler.rows() == first_rows(batch@, i as int),
            scheduler.stamps() == Map::<
                crate::identity::StampSlot,
                crate::identity::StampValue,
            >::empty(),
            forall|o: IngressOrdinal| #[trigger]
                scheduler.newly_ready().contains(o) == crate::ready::is_unblocked(
                    scheduler.rows(),
                    o,
                ),
        decreases batch.len() - i,
    {
        let tx = &batch[i];
        let ghost rows = scheduler.rows();
        let ghost counted = graph.counts();
        proof {
            crate::eligible::lemma_rows_before(batch@, i as int);
        }
        let mut hazards = graph.accept(tx.ingress, tx.accesses.as_slice());
        proof {
            assert(hazards_of(batch@, i as int, hazards@));
            assert(charges(batch@, i as int, counted, graph.counts()));
            let n = i + 1;
            assert(charges(batch@, n - 1, counted, graph.counts()));
            assert(census_of(batch@, n, graph.counts()));
        }
        let ghost found = hazards@;
        add_event_producers(&mut hazards, &producers, tx.ingress);
        let stamps = stamp_waits(&tx.prerequisites);
        proof {
            lemma_first_rows(batch@, i as int);
            if crate::ready::is_pending(rows, tx.ingress) {
                let k = choose|k: int| 0 <= k < i && (#[trigger] batch@[k]).ingress == tx.ingress;
                assert(batch@[k].ingress.0 < batch@[i as int].ingress.0);
            }
        }
        let ready = scheduler.accept(
            tx.ingress,
            hazards.as_slice(),
            stamps.as_slice(),
            tx.publication.stamp,
        );
        proof {
            lemma_all_unmet(stamps@);
            let row = crate::ready::admitted(
                rows,
                Map::empty(),
                tx.ingress,
                hazards@,
                stamps@,
                Seq::empty(),
                tx.publication.stamp,
            );
            let want = first_row(batch@, rows, i as int);
            assert(row.hazards =~= want.hazards) by {
                assert forall|o: IngressOrdinal|
                    row.hazards.contains(o) == want.hazards.contains(o) by {
                    assert(hazards@.contains(o) == (found.contains(o) || exists|k: int|
                        produces_event(producers@, tx.ingress, o, k)));
                    assert(found.contains(o) == crate::eligible::hazard_on(batch@, i as int, o));
                }
            }
            assert(row == want);
            if rows.len() > 0 {
                assert(rows[i - 1].ordinal == batch@[i - 1].ingress);
                assert(batch@[i - 1].ingress.0 < batch@[i as int].ingress.0);
            }
            assert(scheduler.rows() == rows.push(row));
            assert forall|o: IngressOrdinal| #[trigger]
                scheduler.newly_ready().contains(o) == crate::ready::is_unblocked(
                    scheduler.rows(),
                    o,
                ) by {
                let after = scheduler.rows();
                assert(after[rows.len() as int] == row);
                if crate::ready::is_unblocked(rows, o) {
                    let k = choose|k: int|
                        0 <= k < rows.len() && (#[trigger] rows[k]).ordinal == o
                            && rows[k].unblocked();
                    assert(after[k].ordinal == o);
                }
                if crate::ready::is_unblocked(after, o) {
                    let k = choose|k: int|
                        0 <= k < after.len() && (#[trigger] after[k]).ordinal == o
                            && after[k].unblocked();
                    if k < rows.len() {
                        assert(rows[k].ordinal == o);
                    }
                }
            }
        }
        i += 1;
    }
    (scheduler, graph)
}

/// The completion words of released positions.
fn released_words(batch: &[ExecTransaction], domain: ChannelId, released: &Vec<Release>) -> (words:
    Vec<Release>)
    requires
        in_channel_order(batch@),
    ensures
        words@ == words_of(batch@, domain, released@),
{
    let mut words: Vec<Release> = Vec::new();
    let mut k: usize = 0;
    while k < released.len()
        invariant
            in_channel_order(batch@),
            k <= released@.len(),
            words@ == words_of(batch@, domain, released@.take(k as int)),
        decreases released.len() - k,
    {
        let sequence = released[k].sequence;
        let mut stamp: Option<CompletionStamp> = None;
        let mut i: usize = 0;
        while i < batch.len()
            invariant
                in_channel_order(batch@),
                i <= batch@.len(),
                (forall|j: int| j < i ==> !#[trigger] has_position(batch@, domain, sequence, j))
                    ==> stamp is None,
                forall|j: int|
                    j < i && #[trigger] has_position(batch@, domain, sequence, j) ==> stamp
                        == batch@[j].publication.stamp,
            decreases batch.len() - i,
        {
            let tx = &batch[i];
            if tx.domain.0 == domain.0 && tx.domain_sequence.0 == sequence.0 {
                proof {
                    assert(has_position(batch@, domain, sequence, i as int));
                    assert forall|j: int|
                        j < i implies !#[trigger] has_position(batch@, domain, sequence, j) by {
                        if has_position(batch@, domain, sequence, j) {
                            assert(batch@[j].domain_sequence.0 < batch@[i as int].domain_sequence.0);
                        }
                    }
                }
                stamp = tx.publication.stamp;
            }
            i += 1;
        }
        words.push(Release { sequence, stamp });
        proof {
            assert(stamp == word_at(batch@, domain, sequence));
            assert(released@.take(k + 1) =~= released@.take(k as int).push(released@[k as int]));
            assert(words@ =~= words_of(batch@, domain, released@.take(k + 1)));
        }
        k += 1;
    }
    assert(released@.take(k as int) =~= released@);
    words
}

/// Tell the readiness service what has been released.
fn announce(scheduler: &mut Scheduler, released: &Vec<Release>)
    requires
        old(scheduler).wf(),
    ensures
        final(scheduler).wf(),
        final(scheduler).state() == crate::ready::announced(old(scheduler).state(), released@),
{
    let mut i: usize = 0;
    assert(released@.take(0) =~= Seq::<Release>::empty());
    while i < released.len()
        invariant
            i <= released@.len(),
            scheduler.wf(),
            scheduler.state() == crate::ready::announced(
                old(scheduler).state(),
                released@.take(i as int),
            ),
        decreases released.len() - i,
    {
        proof {
            assert(released@.take(i + 1).drop_last() =~= released@.take(i as int));
        }
        if let Some(stamp) = released[i].stamp {
            scheduler.publish(stamp);
        }
        i += 1;
    }
    assert(released@.take(i as int) =~= released@);
}

/// Move the transactions that became ready into the pool.
fn take_into(pool: &mut OrdinalSet, scheduler: &mut Scheduler)
    requires
        old(scheduler).wf(),
        old(pool).wf(),
        covers(old(scheduler).state(), old(pool)@),
    ensures
        final(scheduler).wf(),
        final(pool).wf(),
        final(scheduler).rows() == old(scheduler).rows(),
        final(scheduler).stamps() == old(scheduler).stamps(),
        final(scheduler).state().ready == Set::<IngressOrdinal>::empty(),
        covers(final(scheduler).state(), final(pool)@),
{
    let ghost before = scheduler.state();
    let ghost held = pool@;
    let taken = scheduler.take_ready();
    let mut i: usize = 0;
    assert(taken@.take(0) =~= Seq::<IngressOrdinal>::empty());
    while i < taken.len()
        invariant
            i <= taken@.len(),
            pool.wf(),
            forall|o: IngressOrdinal| #[trigger]
                pool@.contains(o) == (held.contains(o) || taken@.take(i as int).contains(o)),
        decreases taken.len() - i,
    {
        let o = taken[i];
        let ghost seen = taken@.take(i as int);
        let ghost was = pool@;
        let _ = pool.insert(o);
        proof {
            assert(taken@.take(i + 1) =~= seen.push(o));
            assert forall|x: IngressOrdinal| #[trigger]
                pool@.contains(x) == (held.contains(x) || taken@.take(i + 1).contains(x)) by {
                assert(pool@.contains(x) == (was.contains(x) || x == o));
                assert(seen.push(o)[seen.len() as int] == o);
                if seen.contains(x) {
                    let k = choose|k: int| 0 <= k < seen.len() && seen[k] == x;
                    assert(seen.push(o)[k] == x);
                }
                if seen.push(o).contains(x) && x != o {
                    let k = choose|k: int|
                        0 <= k < seen.push(o).len() && seen.push(o)[k] == x;
                    assert(seen[k] == x);
                }
            }
        }
        i += 1;
    }
    proof {
        assert(taken@.take(i as int) =~= taken@);
        assert forall|o: IngressOrdinal| #[trigger]
            crate::ready::is_unblocked(scheduler.state().rows, o) == (
            scheduler.state().ready.contains(o) || pool@.contains(o)) by {
            assert(crate::ready::is_unblocked(before.rows, o) == (before.ready.contains(o)
                || held.contains(o)));
        }
    }
}

/// What holds while a batch is being driven.
spec fn on_course(
    batch: Seq<ExecTransaction>,
    done: Seq<IngressOrdinal>,
    rows: Seq<Waiting>,
) -> bool {
    &&& forall|o: IngressOrdinal| #[trigger]
        crate::ready::is_pending(rows, o) == (holds(batch, o) && !done.contains(o))
    &&& forall|k: int| 0 <= k < done.len() ==> holds(batch, #[trigger] done[k])
}

/// Completing one more transaction stays on course.
proof fn lemma_on_course(
    batch: Seq<ExecTransaction>,
    done: Seq<IngressOrdinal>,
    readiness: Readiness,
    o: IngressOrdinal,
    releases: Seq<Release>,
)
    requires
        on_course(batch, done, readiness.rows),
        crate::ready::rows_ascending(readiness.rows),
        crate::ready::is_pending(readiness.rows, o),
    ensures
        on_course(
            batch,
            done.push(o),
            crate::ready::announced(readiness.completed(o), releases).rows,
        ),
{
    let next = done.push(o);
    assert forall|x: IngressOrdinal| #[trigger]
        crate::ready::is_pending(
            crate::ready::announced(readiness.completed(o), releases).rows,
            x,
        ) == (holds(batch, x) && !next.contains(x)) by {
        crate::ready::lemma_announced_pending(readiness.completed(o), releases, x);
        crate::ready::lemma_pending_completed(readiness, o, x);
        assert(crate::ready::is_pending(readiness.rows, x) == (holds(batch, x) && !done.contains(
            x,
        )));
        assert(next[done.len() as int] == o);
        if done.contains(x) {
            let k = choose|k: int| 0 <= k < done.len() && done[k] == x;
            assert(next[k] == x);
        }
        if next.contains(x) && x != o {
            let k = choose|k: int| 0 <= k < next.len() && next[k] == x;
            assert(done[k] == x);
        }
    }
    assert forall|k: int| 0 <= k < next.len() implies holds(batch, #[trigger] next[k]) by {
        if k < done.len() {
            assert(holds(batch, done[k]));
        } else {
            assert(crate::ready::is_pending(readiness.rows, o));
        }
    }
}

/// One more choice, after those before it.
proof fn lemma_choice_prefix<C: Choice>(
    batch: Seq<ExecTransaction>,
    order: Seq<IngressOrdinal>,
    longer: Seq<IngressOrdinal>,
    choice: C,
    k: int,
)
    requires
        0 <= k <= order.len() <= longer.len(),
        longer.take(order.len() as int) == order,
    ensures
        choice_after(batch, order, choice, k) == choice_after(batch, longer, choice, k),
    decreases k,
{
    if k > 0 {
        lemma_choice_prefix(batch, order, longer, choice, k - 1);
        assert(longer.take(k - 1) =~= order.take(k - 1));
    }
}

proof fn lemma_spans_push(
    before: Seq<(IngressOrdinal, Range<usize>)>,
    after: Seq<(IngressOrdinal, Range<usize>)>,
    done: Seq<IngressOrdinal>,
    o: IngressOrdinal,
)
    requires
        before.len() == done.len(),
        forall|k: int| 0 <= k < done.len() ==> (#[trigger] before[k]).0 == done[k],
        after.len() == before.len() + 1,
        after.drop_last() == before,
        after.last().0 == o,
    ensures
        forall|k: int| 0 <= k < done.push(o).len() ==> (#[trigger] after[k]).0 == done.push(o)[k],
{
    assert forall|k: int| 0 <= k < done.push(o).len() implies (#[trigger] after[k]).0 == done.push(
        o,
    )[k] by {
        if k < done.len() {
            assert(after.drop_last()[k] == before[k]);
        }
    }
}

proof fn lemma_permitted_push(
    batch: Seq<ExecTransaction>,
    done: Seq<IngressOrdinal>,
    o: IngressOrdinal,
)
    requires
        permitted(batch, done),
        may_follow(batch, done).contains(o),
    ensures
        permitted(batch, done.push(o)),
{
    let next = done.push(o);
    assert forall|k: int| 0 <= k < next.len() implies may_follow(batch, next.take(k)).contains(
        #[trigger] next[k],
    ) by {
        if k < done.len() {
            assert(next.take(k) =~= done.take(k));
            assert(may_follow(batch, done.take(k)).contains(done[k]));
        } else {
            assert(next.take(k) =~= done);
        }
    }
}

proof fn lemma_chosen_push<C: Choice>(
    batch: Seq<ExecTransaction>,
    done: Seq<IngressOrdinal>,
    choice: C,
    o: IngressOrdinal,
)
    requires
        chosen_by(batch, done, choice),
        takes_one(
            choice_after(batch, done, choice, done.len() as int),
            may_follow(batch, done),
            o,
        ),
    ensures
        chosen_by(batch, done.push(o), choice),
        choice_after(batch, done.push(o), choice, done.len() as int + 1) == choice_after(
            batch,
            done,
            choice,
            done.len() as int,
        ).onward(may_follow(batch, done)),
{
    let next = done.push(o);
    assert(next.take(done.len() as int) =~= done);
    assert forall|k: int| 0 <= k < next.len() implies takes_one(
        choice_after(batch, next, choice, k),
        may_follow(batch, next.take(k)),
        #[trigger] next[k],
    ) by {
        lemma_choice_prefix(batch, done, next, choice, k);
        if k < done.len() {
            assert(next.take(k) =~= done.take(k));
            assert(next[k] == done[k]);
            assert(takes_one(
                choice_after(batch, done, choice, k),
                may_follow(batch, done.take(k)),
                done[k],
            ));
        }
    }
    lemma_choice_prefix(batch, done, next, choice, done.len() as int);
}

/// A run in which a choice says which ready transaction goes next.
fn driven<C: Choice>(batch: &[ExecTransaction], choice: &mut C) -> (run: Run)
    requires
        in_order(batch@),
        old(choice).chooses(),
    ensures
        did(run, progress_after(batch@, order_of(run))),
        chosen_by(batch@, order_of(run), *old(choice)),
        permitted(batch@, order_of(run)),
        exhausted(batch@, order_of(run)),
        crate::ordinal_set::ascending(run.stalled@),
        stalls(batch@, run),
        crate::completion::respects_waits(batch@, order_of(run)),
        crate::eligible::is_eligible(batch@) && crate::heard::stamps_answer(batch@) ==> completes(
            batch@,
            run,
        ),
        census_of(batch@, batch@.len() as int, run.census),
{
    let (mut scheduler, mut graph) = accept_all(batch);
    let mut drive = Drive::new(batch);
    let mut pool = OrdinalSet::new();
    let ghost mut done: Seq<IngressOrdinal> = Seq::empty();
    proof {
        lemma_first_rows(batch@, batch@.len() as int);
        assert forall|o: IngressOrdinal| #[trigger]
            crate::ready::is_pending(scheduler.rows(), o) == (holds(batch@, o) && !done.contains(
                o,
            )) by {
            if holds(batch@, o) {
                let i = lemma_index(batch@, o);
                assert(batch@[i].ingress == o);
            }
            if crate::ready::is_pending(scheduler.rows(), o) {
                let i = choose|i: int|
                    0 <= i < batch@.len() && (#[trigger] batch@[i]).ingress == o;
                assert(stands_at(batch@, o, i));
            }
        }
    }
    loop
        invariant
            in_order(batch@),
            scheduler.wf(),
            scheduler.rows() == readiness_after(batch@, done).rows,
            scheduler.stamps() == readiness_after(batch@, done).stamps,
            on_course(batch@, done, scheduler.rows()),
            pool.wf(),
            covers(scheduler.state(), pool@),
            drive.wf(),
            drive.progress() == progress_after(batch@, done),
            drive.spans@.len() == done.len(),
            forall|k: int| 0 <= k < done.len() ==> (#[trigger] drive.spans@[k]).0 == done[k],
            permitted(batch@, done),
            chosen_by(batch@, done, *old(choice)),
            choice.chooses(),
            *choice == choice_after(batch@, done, *old(choice), done.len() as int),
            graph.wf(),
            census_of(batch@, batch@.len() as int, graph.counts()),
        ensures
            scheduler.wf(),
            scheduler.rows() == readiness_after(batch@, done).rows,
            drive.progress() == progress_after(batch@, done),
            drive.spans@.len() == done.len(),
            forall|k: int| 0 <= k < done.len() ==> (#[trigger] drive.spans@[k]).0 == done[k],
            permitted(batch@, done),
            exhausted(batch@, done),
            chosen_by(batch@, done, *old(choice)),
            *choice == choice_after(batch@, done, *old(choice), done.len() as int),
            census_of(batch@, batch@.len() as int, graph.counts()),
        decreases scheduler.rows().len(),
    {
        take_into(&mut pool, &mut scheduler);
        proof {
            lemma_ready_list(scheduler.rows());
            assert forall|o: IngressOrdinal|
                pool@.contains(o) == ready_list(scheduler.rows()).contains(o) by {
                assert(crate::ready::is_unblocked(scheduler.state().rows, o) == (
                scheduler.state().ready.contains(o) || pool@.contains(o)));
            }
            crate::ordinal_set::ascending_is_determined(pool@, ready_list(scheduler.rows()));
        }
        if pool.len() == 0 {
            break ;
        }
        let ready = pool.to_vec();
        let ghost chooser = *choice;
        let at = choice.pick(ready.as_slice());
        let ordinal = ready[at];
        assert(takes_one(chooser, ready@, ordinal));
        let ghost rows = scheduler.rows();
        let ghost held = pool@;
        let ghost before = scheduler.state();
        proof {
            assert(held.contains(ordinal));
            assert(crate::ready::is_unblocked(before.rows, ordinal));
        }
        let ghost row = choose|i: int|
            0 <= i < rows.len() && (#[trigger] rows[i]).ordinal == ordinal && rows[i].unblocked();
        proof {
            assert(rows[row].ordinal == ordinal);
            assert(crate::ready::is_pending(rows, ordinal));
        }
        let _ = pool.remove(ordinal);
        match index_of(batch, ordinal, batch.len()) {
            Some(i) => {
                proof {
                    lemma_tx_of(batch@, i as int);
                    lemma_still_outstanding(batch@, done, i as int);
                    lemma_covers_completed(before, held, pool@, ordinal, row);
                }
                let ghost was = drive.spans@;
                let released = drive.finish(&batch[i]);
                let words = released_words(batch, batch[i].domain, &released);
                let _ = scheduler.complete(ordinal);
                announce(&mut scheduler, &words);
                graph.retire(ordinal);
                proof {
                    let next = done.push(ordinal);
                    assert(next.drop_last() =~= done);
                    assert(next.last() == ordinal);
                    lemma_covers_announced(before.completed(ordinal), pool@, words@);
                    crate::ready::lemma_announced_same(
                        before.completed(ordinal),
                        readiness_after(batch@, done).completed(ordinal),
                        words@,
                    );
                    lemma_on_course(batch@, done, before, ordinal, words@);
                    lemma_fewer_rows(before, row, words@);
                    lemma_spans_push(was, drive.spans@, done, ordinal);
                    assert(may_follow(batch@, done)[at as int] == ordinal);
                    lemma_permitted_push(batch@, done, ordinal);
                    lemma_chosen_push(batch@, done, *old(choice), ordinal);
                    done = next;
                }
            },
            None => {
                proof {
                    assert(holds(batch@, ordinal));
                    let i = lemma_index(batch@, ordinal);
                    assert(batch@[i].ingress == ordinal);
                }
            },
        }
    }
    let run = Run {
        trace: drive.interpreter.into_trace(),
        spans: drive.spans,
        stalled: scheduler.stalled(),
        census: graph.census(),
        releases: drive.releases,
        blocked: drive.blocked,
    };
    proof {
        assert(order_of(run) =~= done);
        crate::completion::a_permitted_schedule_respects_waits(batch@, done);
        if crate::eligible::is_eligible(batch@) && crate::heard::stamps_answer(batch@) {
            crate::completion::an_eligible_batch_completes(batch@, run);
        }
    }
    run
}

/// Completing leaves fewer rows.
proof fn lemma_fewer_rows(readiness: Readiness, at: int, releases: Seq<Release>)
    requires
        crate::ready::rows_ascending(readiness.rows),
        0 <= at < readiness.rows.len(),
    ensures
        crate::ready::announced(
            readiness.completed(readiness.rows[at].ordinal),
            releases,
        ).rows.len() == readiness.rows.len() - 1,
    decreases releases.len(),
{
    if releases.len() == 0 {
        crate::ready::lemma_rows_without(readiness.rows, at);
    } else {
        lemma_fewer_rows(readiness, at, releases.drop_last());
    }
}

/// A caller's function as a choice.
pub struct Picked<F>(pub F);

/// The function may return this for a list.
pub open spec fn may_return<F: FnMut(&[IngressOrdinal]) -> usize>(
    f: F,
    ready: Seq<IngressOrdinal>,
    at: int,
) -> bool {
    exists|s: &[IngressOrdinal], n: usize|
        s@ == ready && n == at && #[trigger] call_ensures(f, (s,), n)
}

/// The function always takes the first.
pub open spec fn takes_the_first<F: FnMut(&[IngressOrdinal]) -> usize>(f: F) -> bool {
    forall|ready: Seq<IngressOrdinal>, at: int| #[trigger] may_return(f, ready, at) ==> at == 0
}

impl<F: FnMut(&[IngressOrdinal]) -> usize> Choice for Picked<F> {
    open spec fn chooses(self) -> bool {
        &&& forall|ready: &[IngressOrdinal]|
            ready@.len() > 0 ==> #[trigger] call_requires(self.0, (ready,))
        &&& forall|ready: &[IngressOrdinal], at: usize|
            ready@.len() > 0 && #[trigger] call_ensures(self.0, (ready,), at) ==> at < ready@.len()
    }

    open spec fn takes(self, ready: Seq<IngressOrdinal>, at: int) -> bool {
        may_return(self.0, ready, at)
    }

    open spec fn onward(self, ready: Seq<IngressOrdinal>) -> Self {
        self
    }

    fn pick(&mut self, ready: &[IngressOrdinal]) -> (at: usize) {
        (self.0)(ready)
    }
}

/// The same, with the choice of which ready transaction goes next handed to the
/// caller.
///
/// `pick` is shown the transactions the two planes have already declared ready,
/// in arrival order, and returns an index into them. It cannot make an illegal
/// schedule.
#[must_use]
pub fn parallel_with<F: FnMut(&[IngressOrdinal]) -> usize>(
    batch: &[ExecTransaction],
    pick: F,
) -> (run: Run)
    requires
        in_order(batch@),
        Picked(pick).chooses(),
    ensures
        did(run, progress_after(batch@, order_of(run))),
        chosen_by(batch@, order_of(run), Picked(pick)),
        permitted(batch@, order_of(run)),
        exhausted(batch@, order_of(run)),
        crate::ordinal_set::ascending(run.stalled@),
        stalls(batch@, run),
        crate::completion::respects_waits(batch@, order_of(run)),
        crate::eligible::is_eligible(batch@) && crate::heard::stamps_answer(batch@) ==> completes(
            batch@,
            run,
        ),
        crate::eligible::is_eligible(batch@) && crate::heard::stamps_answer(batch@)
            && takes_the_first(pick) ==> order_of(run) == ordinals(batch@),
        census_of(batch@, batch@.len() as int, run.census),
{
    let mut choice = Picked(pick);
    let run = driven(batch, &mut choice);
    proof {
        let order = order_of(run);
        if crate::eligible::is_eligible(batch@) && crate::heard::stamps_answer(batch@)
            && takes_the_first(pick) {
            assert forall|k: int| 0 <= k < order.len() implies (#[trigger] order[k]) == may_follow(
                batch@,
                order.take(k),
            )[0] by {
                lemma_same_choice(batch@, order, Picked(pick), k);
                let ready = may_follow(batch@, order.take(k));
                let at = choose|at: int|
                    0 <= at < ready.len() && Picked(pick).takes(ready, at) && ready[at] == order[k];
                assert(may_return(pick, ready, at));
            }
            crate::completion::the_lowest_choice_is_ingress_order(batch@, order);
        }
    }
    run
}

/// A function that is handed on unchanged is the same choice throughout.
proof fn lemma_same_choice<F: FnMut(&[IngressOrdinal]) -> usize>(
    batch: Seq<ExecTransaction>,
    order: Seq<IngressOrdinal>,
    choice: Picked<F>,
    k: int,
)
    ensures
        choice_after(batch, order, choice, k) == choice,
    decreases k,
{
    if k > 0 {
        lemma_same_choice(batch, order, choice, k - 1);
    }
}

/// A reproducible choice of interleaving.
///
/// Not a general random source: what a sweep over schedules needs is that a
/// seed names the same interleaving on every machine and every run.
#[derive(Debug)]
pub struct Rng(pub u64);

/// The next state of a source.
pub open spec fn stirred(state: u64) -> u64 {
    let a = state ^ (state << 13);
    let b = a ^ (a >> 7);
    b ^ (b << 17)
}

impl Rng {
    #[must_use]
    pub fn new(seed: u64) -> (rng: Self)
        ensures
            rng == Rng(seed ^ 0x9E37_79B9_7F4A_7C15),
    {
        Rng(seed ^ 0x9E37_79B9_7F4A_7C15)
    }

    pub fn next(&mut self) -> (value: u64)
        ensures
            final(self).0 == stirred(old(self).0),
            value == final(self).0,
    {
        self.0 = self.0 ^ (self.0 << 13);
        self.0 = self.0 ^ (self.0 >> 7);
        self.0 = self.0 ^ (self.0 << 17);
        self.0
    }

    /// A value below the bound.
    pub fn below(&mut self, bound: usize) -> (value: usize)
        requires
            bound > 0,
        ensures
            final(self).0 == stirred(old(self).0),
            value == stirred(old(self).0) as int % bound as int,
            value < bound,
    {
        let drawn = self.next();
        (drawn % (bound as u64)) as usize
    }
}

impl Choice for Rng {
    open spec fn chooses(self) -> bool {
        true
    }

    open spec fn takes(self, ready: Seq<IngressOrdinal>, at: int) -> bool {
        at == stirred(self.0) as int % ready.len() as int
    }

    open spec fn onward(self, ready: Seq<IngressOrdinal>) -> Self {
        Rng(stirred(self.0))
    }

    fn pick(&mut self, ready: &[IngressOrdinal]) -> (at: usize) {
        self.below(ready.len())
    }
}

/// Run the batch through the hazard graph and the readiness service,
/// completing whichever ready transaction `seed` picks.
#[must_use]
pub fn parallel(batch: &[ExecTransaction], seed: u64) -> (run: Run)
    requires
        in_order(batch@),
    ensures
        did(run, progress_after(batch@, order_of(run))),
        chosen_by(batch@, order_of(run), Rng(seed ^ 0x9E37_79B9_7F4A_7C15)),
        permitted(batch@, order_of(run)),
        exhausted(batch@, order_of(run)),
        crate::ordinal_set::ascending(run.stalled@),
        stalls(batch@, run),
        crate::completion::respects_waits(batch@, order_of(run)),
        crate::eligible::is_eligible(batch@) && crate::heard::stamps_answer(batch@) ==> completes(
            batch@,
            run,
        ),
        census_of(batch@, batch@.len() as int, run.census),
{
    let mut rng = Rng::new(seed);
    driven(batch, &mut rng)
}

/// A serial run takes its batch in turn: one completion and one release for
/// each transaction, in the order they stand in, each completion's observations
/// right behind the last one's and nothing ever held back. A transaction's word
/// is released unless it was refused, and a refusal is all it shows.
pub proof fn a_serial_run_takes_its_batch_in_turn(batch: Seq<ExecTransaction>, n: int, k: int)
    requires
        0 <= k < n <= batch.len(),
    ensures
        ({
            let run = in_turn(batch, n);
            let tx = batch[k];
            let start = run.spans[k].start;
            let refused = run.trace_at(start) matches Some(
                Observation::Refused { ingress, .. },
            ) && ingress == tx.ingress && run.spans[k].end == start + 1;
            &&& run.spans.len() == n && run.releases.len() == n && run.blocked.len() == 0
            &&& run.spans[k].ordinal == tx.ingress
            &&& start == if k == 0 {
                0
            } else {
                run.spans[k - 1].end
            }
            &&& 0 <= start <= run.spans[k].end <= run.interp.trace.len()
            &&& run.spans[n - 1].end == run.interp.trace.len()
            &&& run.releases[k].domain == tx.domain
            &&& run.releases[k].sequence == tx.domain_sequence
            &&& run.releases[k].stamp == tx.publication.stamp || (run.releases[k].stamp is None
                && refused)
        }),
    decreases n,
{
    let run = in_turn(batch, n);
    let before = in_turn(batch, n - 1);
    let tx = batch[n - 1];
    crate::interpret::nothing_observed_is_taken_back(before.interp, tx);
    if n > 1 {
        a_serial_run_takes_its_batch_in_turn(batch, n - 1, if k < n - 1 { k } else { k - 1 });
    }
    if k < n - 1 {
        assert(run.spans[k] == before.spans[k]);
        assert(run.releases[k] == before.releases[k]);
        if k > 0 {
            assert(run.spans[k - 1] == before.spans[k - 1]);
        }
        let start = run.spans[k].start;
        if start < before.interp.trace.len() {
            assert(run.interp.trace[start] == before.interp.trace[start]);
        }
    } else if k > 0 {
        assert(run.spans[k - 1] == before.spans[k - 1]);
    }
}

impl Progress {
    /// The observation at a place in the trace.
    pub open spec fn trace_at(self, at: int) -> Option<Observation> {
        if 0 <= at < self.interp.trace.len() {
            Some(self.interp.trace[at])
        } else {
            None
        }
    }
}

/// The stamps a transaction waits for are those its prerequisites name.
pub proof fn a_stamp_is_waited_for_when_named(ps: Seq<Prerequisite>, wait: StampWait)
    ensures
        stamp_waits_of(ps).contains(wait) <==> ps.contains(Prerequisite::Stamp(wait)),
    decreases ps.len(),
{
    if ps.len() > 0 {
        let rest = ps.drop_last();
        let last = ps.last();
        let before = stamp_waits_of(rest);
        let all = stamp_waits_of(ps);
        let named = Prerequisite::Stamp(wait);
        a_stamp_is_waited_for_when_named(rest, wait);
        assert(ps[ps.len() - 1] == last);
        if rest.contains(named) {
            let k = choose|k: int| 0 <= k < rest.len() && rest[k] == named;
            assert(ps[k] == named);
        }
        if ps.contains(named) {
            let k = choose|k: int| 0 <= k < ps.len() && ps[k] == named;
            if k < rest.len() {
                assert(rest[k] == named);
            }
        }
        if before.contains(wait) {
            let k = choose|k: int| 0 <= k < before.len() && before[k] == wait;
            assert(all[k] == wait);
        }
        if last == named {
            assert(all[before.len() as int] == wait);
        }
        if all.contains(wait) {
            let k = choose|k: int| 0 <= k < all.len() && all[k] == wait;
            if k < before.len() {
                assert(before[k] == wait);
            }
        }
    }
}

} // verus!
