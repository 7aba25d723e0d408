//! Ordered guest publication: when a completion stamp becomes something the
//! guest may read.
//!
//! Work finishes in any order. A channel's stamps become readable in the
//! channel's own order, so each channel is a queue and only the finished prefix
//! of it is released. There is no queue two channels share.

use vstd::prelude::*;
use crate::identity::{ChannelId, ChannelSequence, CompletionStamp};
use crate::table::Table;

verus! {

/// What a released position publishes.
#[derive(Clone, Copy, Debug, PartialEq, Eq, Structural)]
pub struct Release {
    pub sequence: ChannelSequence,
    /// The stamp the guest may now read, if this position carries one.
    pub stamp: Option<CompletionStamp>,
}

/// Why a channel could not be retired.
#[derive(Clone, Copy, Debug, PartialEq, Eq, Structural)]
pub enum RetireRefusal {
    /// Positions are still admitted and unreleased.
    LivePositions { outstanding: usize },
}

impl RetireRefusal {
    #[must_use]
    pub fn slug(self) -> (slug: &'static str)
        ensures
            slug@ == "publish_live_positions"@,
    {
        match self {
            RetireRefusal::LivePositions { .. } => "publish_live_positions",
        }
    }
}

/// One place in a channel's publication order.
#[derive(Clone, Copy, Debug)]
pub struct Position {
    pub sequence: ChannelSequence,
    /// Whether the work has completed.
    pub finished: bool,
    /// What it publishes, once it has.
    pub stamp: Option<CompletionStamp>,
}

/// Positions in channel order.
pub open spec fn in_channel_order(q: Seq<Position>) -> bool {
    forall|i: int, j: int|
        0 <= i < j < q.len() ==> (#[trigger] q[i]).sequence.0 < (#[trigger] q[j]).sequence.0
}

/// How many positions at the head have finished.
pub open spec fn finished_prefix(q: Seq<Position>) -> nat
    decreases q.len(),
{
    if q.len() > 0 && q[0].finished {
        1 + finished_prefix(q.drop_first())
    } else {
        0
    }
}

/// What a queue publishes when it is drained: its finished prefix, in order.
pub open spec fn published_by(q: Seq<Position>) -> Seq<Release> {
    q.take(finished_prefix(q) as int).map_values(
        |p: Position| Release { sequence: p.sequence, stamp: p.stamp },
    )
}

/// What is left of a queue when it is drained.
pub open spec fn left_by(q: Seq<Position>) -> Seq<Position> {
    q.skip(finished_prefix(q) as int)
}

/// How many positions of a queue have finished.
pub open spec fn finished_count(q: Seq<Position>) -> nat
    decreases q.len(),
{
    if q.len() == 0 {
        0
    } else {
        finished_count(q.drop_last()) + (if q.last().finished { 1nat } else { 0nat })
    }
}

/// Where an unfinished position stands.
pub open spec fn unfinished_at(q: Seq<Position>, sequence: ChannelSequence, i: int) -> bool {
    0 <= i < q.len() && q[i].sequence == sequence && !q[i].finished
}

/// The position holds a place in the queue and its work has not completed.
pub open spec fn is_outstanding(q: Seq<Position>, sequence: ChannelSequence) -> bool {
    exists|i: int| unfinished_at(q, sequence, i)
}

/// The queue once a position's work has completed.
pub open spec fn with_finished(
    q: Seq<Position>,
    sequence: ChannelSequence,
    stamp: Option<CompletionStamp>,
) -> Seq<Position> {
    q.map_values(
        |p: Position|
            if p.sequence == sequence {
                Position { sequence, finished: true, stamp }
            } else {
                p
            },
    )
}

/// The queue once a position has left it.
pub open spec fn without(q: Seq<Position>, sequence: ChannelSequence) -> Seq<Position> {
    q.filter(|p: Position| p.sequence != sequence)
}

/// `n` more, stopping at the top of the word.
pub open spec fn released_total(count: usize, n: nat) -> usize {
    if count + n > usize::MAX { usize::MAX } else { (count + n) as usize }
}

/// Ordered guest publication for every channel.
#[derive(Debug)]
pub struct Publisher {
    domains: Table<ChannelId, Vec<Position>>,
    latest: Table<ChannelId, ChannelSequence>,
    released: usize,
}

impl View for Publisher {
    type V = Map<ChannelId, Seq<Position>>;

    /// Each channel's queue.
    closed spec fn view(&self) -> Map<ChannelId, Seq<Position>> {
        Map::new(|d: ChannelId| self.domains@.dom().contains(d), |d: ChannelId| self.domains@[d]@)
    }
}

impl Default for Publisher {
    fn default() -> (p: Publisher)
        ensures
            p.wf(),
            p@ == Map::<ChannelId, Seq<Position>>::empty(),
            p.latest() == Map::<ChannelId, ChannelSequence>::empty(),
            p.total() == 0,
    {
        Publisher::new()
    }
}

impl Publisher {
    /// A channel's queue; empty for a channel that has none.
    pub open spec fn queue(&self, domain: ChannelId) -> Seq<Position> {
        if self@.dom().contains(domain) {
            self@[domain]
        } else {
            Seq::empty()
        }
    }

    pub closed spec fn total(&self) -> usize {
        self.released
    }

    /// The last position each channel was given, released or not.
    pub closed spec fn latest(&self) -> Map<ChannelId, ChannelSequence> {
        self.latest@
    }

    pub closed spec fn rows_wf(&self) -> bool {
        self.domains.wf() && self.latest.wf()
    }

    /// Every queue is in channel order and ends no later than the last position
    /// its channel was given, and no finished position waits at a head.
    pub open spec fn wf(&self) -> bool {
        &&& self.rows_wf()
        &&& forall|d: ChannelId|
            self.queue(d).len() > 0 ==> self.latest().dom().contains(d) && (
            #[trigger] self.queue(d)).last().sequence.0 <= self.latest()[d].0
        &&& forall|d: ChannelId|
            self@.dom().contains(d) ==> in_channel_order(#[trigger] self@[d]) && (self@[d].len() > 0
                ==> !self@[d][0].finished)
    }

    #[must_use]
    pub fn new() -> (p: Self)
        ensures
            p.wf(),
            p@ == Map::<ChannelId, Seq<Position>>::empty(),
            p.latest() == Map::<ChannelId, ChannelSequence>::empty(),
            p.total() == 0,
    {
        let p = Publisher { domains: Table::new(), latest: Table::new(), released: 0 };
        assert(p@ =~= Map::<ChannelId, Seq<Position>>::empty());
        p
    }

    /// Take a position in a channel's publication order.
    ///
    /// Publication order is channel order, so a position comes after every
    /// other the channel was given, a released one too.
    pub fn accept(&mut self, domain: ChannelId, sequence: ChannelSequence)
        requires
            old(self).wf(),
            old(self).latest().dom().contains(domain) ==> sequence.0 > old(
                self,
            ).latest()[domain].0,
        ensures
            final(self).wf(),
            final(self).total() == old(self).total(),
            final(self).latest() == old(self).latest().insert(domain, sequence),
            final(self)@ == old(self)@.insert(
                domain,
                old(self).queue(domain).push(
                    Position { sequence, finished: false, stamp: None },
                ),
            ),
    {
        let position = Position { sequence, finished: false, stamp: None };
        proof {
            let q = self.queue(domain);
            if q.len() > 0 {
                assert(q.last().sequence.0 < sequence.0);
            }
        }
        self.latest.insert(domain, sequence);
        match self.domains.find(domain) {
            Some(i) => {
                let queue = self.domains.value_mut(i);
                assert(in_channel_order(queue@.push(position)));
                queue.push(position);
            },
            None => {
                let mut queue: Vec<Position> = Vec::new();
                queue.push(position);
                assert(queue@ =~= Seq::<Position>::empty().push(position));
                self.domains.insert(domain, queue);
            },
        }
        proof {
            assert(self@ =~= old(self)@.insert(domain, old(self).queue(domain).push(position)));
            assert forall|d: ChannelId| self.queue(d).len() > 0 implies self.latest().dom().contains(
                d,
            ) && (#[trigger] self.queue(d)).last().sequence.0 <= self.latest()[d].0 by {
                if d != domain {
                    assert(self.queue(d) == old(self).queue(d));
                }
            }
        }
    }

    /// Record that a position's work has completed, and return everything the
    /// channel may now publish, in order.
    ///
    /// Empty when an earlier position is unfinished, which is the ordinary case
    /// for work that finishes out of order.
    pub fn complete(
        &mut self,
        domain: ChannelId,
        sequence: ChannelSequence,
        stamp: Option<CompletionStamp>,
    ) -> (out: Vec<Release>)
        requires
            old(self).wf(),
            is_outstanding(old(self).queue(domain), sequence),
        ensures
            final(self).wf(),
            out@ == published_by(with_finished(old(self).queue(domain), sequence, stamp)),
            final(self)@ == old(self)@.insert(
                domain,
                left_by(with_finished(old(self).queue(domain), sequence, stamp)),
            ),
            final(self).latest() == old(self).latest(),
            final(self).total() == released_total(old(self).total(), out@.len()),
    {
        match self.domains.find(domain) {
            Some(at) => {
                let ghost q = self.queue(domain);
                let queue = self.domains.value_mut(at);
                let i = index_of(queue, sequence);
                queue.set(i, Position { sequence, finished: true, stamp });
                proof {
                    assert(queue@ =~= with_finished(q, sequence, stamp)) by {
                        assert forall|k: int| 0 <= k < q.len() && k != i implies q[k].sequence
                            != sequence by {
                            if k < i {
                                assert(q[k].sequence.0 < q[i as int].sequence.0);
                            } else {
                                assert(q[i as int].sequence.0 < q[k].sequence.0);
                            }
                        }
                    }
                    assert(in_channel_order(queue@)) by {
                        assert forall|a: int, b: int| 0 <= a < b < queue@.len() implies (
                        #[trigger] queue@[a]).sequence.0 < (#[trigger] queue@[b]).sequence.0 by {
                            assert(queue@[a].sequence == q[a].sequence);
                            assert(queue@[b].sequence == q[b].sequence);
                        }
                    }
                }
                let out = drain(queue);
                self.released = self.released.saturating_add(out.len());
                proof {
                    let rest = with_finished(old(self).queue(domain), sequence, stamp);
                    assert(self@ =~= old(self)@.insert(domain, left_by(rest)));
                    assert(rest.len() == q.len());
                    assert(rest.len() > 0 ==> rest.last().sequence == q.last().sequence);
                    lemma_ends_no_later(*old(self), *self, domain, rest);
                }
                out
            },
            None => Vec::new(),
        }
    }

    /// Remove a position that will never publish, and release whatever was
    /// queued behind it.
    pub fn withdraw(&mut self, domain: ChannelId, sequence: ChannelSequence) -> (out: Vec<Release>)
        requires
            old(self).wf(),
            is_outstanding(old(self).queue(domain), sequence),
        ensures
            final(self).wf(),
            out@ == published_by(without(old(self).queue(domain), sequence)),
            final(self)@ == old(self)@.insert(
                domain,
                left_by(without(old(self).queue(domain), sequence)),
            ),
            final(self).latest() == old(self).latest(),
            final(self).total() == released_total(old(self).total(), out@.len()),
    {
        match self.domains.find(domain) {
            Some(at) => {
                let ghost q = self.queue(domain);
                let queue = self.domains.value_mut(at);
                let i = index_of(queue, sequence);
                let _ = queue.remove(i);
                proof {
                    lemma_without(q, i as int);
                    assert(in_channel_order(queue@)) by {
                        assert forall|a: int, b: int| 0 <= a < b < queue@.len() implies (
                        #[trigger] queue@[a]).sequence.0 < (#[trigger] queue@[b]).sequence.0 by {
                            let x = if a < i { a } else { a + 1 };
                            let y = if b < i { b } else { b + 1 };
                            assert(queue@[a] == q[x] && queue@[b] == q[y]);
                        }
                    }
                }
                let out = drain(queue);
                self.released = self.released.saturating_add(out.len());
                proof {
                    let rest = without(old(self).queue(domain), sequence);
                    assert(self@ =~= old(self)@.insert(domain, left_by(rest)));
                    if rest.len() > 0 {
                        let last = if i + 1 == q.len() { q.len() - 2 } else { q.len() - 1 };
                        assert(rest.last() == q[last]);
                        assert(q[last].sequence.0 <= q[q.len() - 1].sequence.0);
                    }
                    lemma_ends_no_later(*old(self), *self, domain, rest);
                }
                out
            },
            None => Vec::new(),
        }
    }

    /// Positions admitted into a channel and not yet released.
    #[must_use]
    pub fn outstanding(&self, domain: ChannelId) -> (n: usize)
        requires
            self.wf(),
        ensures
            n == self.queue(domain).len(),
    {
        match self.domains.get(domain) {
            Some(queue) => queue.len(),
            None => 0,
        }
    }

    /// The position a channel is waiting on, if it is waiting on one.
    #[must_use]
    pub fn head(&self, domain: ChannelId) -> (head: Option<ChannelSequence>)
        requires
            self.wf(),
        ensures
            head == (if self.queue(domain).len() == 0 {
                None
            } else {
                Some(self.queue(domain)[0].sequence)
            }),
    {
        match self.domains.get(domain) {
            Some(queue) => if queue.len() == 0 {
                None
            } else {
                Some(queue[0].sequence)
            },
            None => None,
        }
    }

    /// Positions that have finished and are held behind an unfinished head,
    /// for each channel that has any, in channel-number order.
    #[must_use]
    pub fn blocked(&self) -> (out: Vec<(ChannelId, usize)>)
        requires
            self.wf(),
        ensures
            forall|i: int, j: int|
                0 <= i < j < out@.len() ==> (#[trigger] out@[i]).0.0 < (#[trigger] out@[j]).0.0,
            forall|d: ChannelId, n: usize| #[trigger]
                out@.contains((d, n)) == (n > 0 && n == finished_count(self.queue(d))),
    {
        let mut out: Vec<(ChannelId, usize)> = Vec::new();
        let mut i: usize = 0;
        let rows = self.domains.len();
        let ghost entries = self.domains.entries();
        while i < rows
            invariant
                self.wf(),
                rows == entries.len(),
                entries == self.domains.entries(),
                i <= rows,
                by_channel(out@),
                forall|d: ChannelId, n: usize| #[trigger]
                    out@.contains((d, n)) == (n > 0 && exists|k: int|
                        0 <= k < i && (#[trigger] entries[k]).0 == d && n == finished_count(
                            entries[k].1@,
                        )),
            decreases rows - i,
        {
            let domain = self.domains.key(i);
            let queue = self.domains.value(i);
            let n = count_finished(queue);
            let ghost before = out@;
            if n > 0 {
                proof {
                    assert forall|m: usize| !before.contains((domain, m)) by {
                        if before.contains((domain, m)) {
                            let k = choose|k: int|
                                0 <= k < i && (#[trigger] entries[k]).0 == domain && m
                                    == finished_count(entries[k].1@);
                            assert(entries[k].0 == entries[i as int].0);
                        }
                    }
                }
                insert_by_channel(&mut out, domain, n);
            }
            proof {
                assert forall|d: ChannelId, m: usize| #[trigger]
                    out@.contains((d, m)) == (m > 0 && exists|k: int|
                        0 <= k < i + 1 && (#[trigger] entries[k]).0 == d && m == finished_count(
                            entries[k].1@,
                        )) by {
                    if before.contains((d, m)) {
                        let k = choose|k: int|
                            0 <= k < i && (#[trigger] entries[k]).0 == d && m == finished_count(
                                entries[k].1@,
                            );
                        assert(entries[k].0 == d);
                    }
                    if out@.contains((d, m)) && !before.contains((d, m)) {
                        assert(entries[i as int].0 == d);
                    }
                }
            }
            i = i + 1;
        }
        proof {
            assert forall|d: ChannelId, n: usize| #[trigger]
                out@.contains((d, n)) == (n > 0 && n == finished_count(self.queue(d))) by {
                if out@.contains((d, n)) {
                    let k = choose|k: int|
                        0 <= k < i && (#[trigger] entries[k]).0 == d && n == finished_count(
                            entries[k].1@,
                        );
                    crate::table::lemma_entry_in_map(entries, k);
                }
                if n > 0 && n == finished_count(self.queue(d)) {
                    let k = crate::table::lemma_key_has_index(entries, d);
                    assert(entries[k].0 == d);
                }
            }
        }
        out
    }

    /// Positions released across every channel.
    #[must_use]
    pub fn released(&self) -> (n: usize)
        ensures
            n == self.total(),
    {
        self.released
    }

    /// End a channel's publication lifetime.
    ///
    /// A later definition of the same channel starts its order again, so the
    /// former lifetime has to be empty before it can end.
    pub fn retire(&mut self, domain: ChannelId) -> (r: Result<(), RetireRefusal>)
        requires
            old(self).wf(),
        ensures
            final(self).wf(),
            final(self).total() == old(self).total(),
            r is Ok ==> final(self).latest() == old(self).latest().remove(domain),
            r is Ok == (old(self).queue(domain).len() == 0),
            r is Ok ==> final(self)@ == old(self)@.remove(domain),
            r matches Err(e) ==> e == (RetireRefusal::LivePositions {
                outstanding: old(self).queue(domain).len() as usize,
            }) && *final(self) == *old(self),
    {
        let outstanding = self.outstanding(domain);
        if outstanding > 0 {
            return Err(RetireRefusal::LivePositions { outstanding });
        }
        let _ = self.domains.remove(domain);
        let _ = self.latest.remove(domain);
        proof {
            assert(self@ =~= old(self)@.remove(domain));
            assert forall|d: ChannelId| self.queue(d).len() > 0 implies self.latest().dom().contains(
                d,
            ) && (#[trigger] self.queue(d)).last().sequence.0 <= self.latest()[d].0 by {
                assert(self.queue(d) == old(self).queue(d));
            }
        }
        Ok(())
    }
}

/// A channel that keeps the end of its queue, or less, still ends no later than
/// the last position it was given.
proof fn lemma_ends_no_later(
    before: Publisher,
    after: Publisher,
    domain: ChannelId,
    rest: Seq<Position>,
)
    requires
        before.wf(),
        before.queue(domain).len() > 0,
        after@ == before@.insert(domain, left_by(rest)),
        after.latest() == before.latest(),
        rest.len() > 0 ==> rest.last().sequence.0 <= before.queue(domain).last().sequence.0,
    ensures
        forall|d: ChannelId|
            after.queue(d).len() > 0 ==> after.latest().dom().contains(d) && (
            #[trigger] after.queue(d)).last().sequence.0 <= after.latest()[d].0,
{
    lemma_prefix(rest);
    assert forall|d: ChannelId| after.queue(d).len() > 0 implies after.latest().dom().contains(d)
        && (#[trigger] after.queue(d)).last().sequence.0 <= after.latest()[d].0 by {
        if d != domain {
            assert(after.queue(d) == before.queue(d));
        } else {
            assert(after.queue(d) == left_by(rest));
            assert(left_by(rest).last() == rest.last());
            assert(before.queue(d).last().sequence.0 <= before.latest()[d].0);
        }
    }
}

/// Channels in ascending order.
spec fn by_channel(s: Seq<(ChannelId, usize)>) -> bool {
    forall|i: int, j: int| 0 <= i < j < s.len() ==> (#[trigger] s[i]).0.0 < (#[trigger] s[j]).0.0
}

/// Put a channel's count where its number belongs.
fn insert_by_channel(out: &mut Vec<(ChannelId, usize)>, domain: ChannelId, n: usize)
    requires
        by_channel(old(out)@),
        forall|m: usize| !old(out)@.contains((domain, m)),
    ensures
        by_channel(final(out)@),
        forall|d: ChannelId, m: usize| #[trigger]
            final(out)@.contains((d, m)) == (old(out)@.contains((d, m)) || (d == domain && m == n)),
{
    let ghost before = out@;
    let mut at: usize = 0;
    while at < out.len() && out[at].0.0 < domain.0
        invariant
            out@ == before,
            at <= before.len(),
            forall|j: int| 0 <= j < at ==> (#[trigger] before[j]).0.0 < domain.0,
        decreases out.len() - at,
    {
        at = at + 1;
    }
    proof {
        if at < before.len() {
            assert(before.contains((before[at as int].0, before[at as int].1)));
            assert(before[at as int].0.0 != domain.0);
        }
    }
    out.insert(at, (domain, n));
    proof {
        assert(out@ == before.insert(at as int, (domain, n)));
        assert(out@[at as int] == (domain, n));
        assert forall|d: ChannelId, m: usize| #[trigger]
            out@.contains((d, m)) == (before.contains((d, m)) || (d == domain && m == n)) by {
            if before.contains((d, m)) {
                let k = choose|k: int| 0 <= k < before.len() && before[k] == (d, m);
                assert(out@[if k < at { k } else { k + 1 }] == (d, m));
            }
            if out@.contains((d, m)) {
                let k = choose|k: int| 0 <= k < out@.len() && out@[k] == (d, m);
                if k < at {
                    assert(before[k] == (d, m));
                } else if k > at {
                    assert(before[k - 1] == (d, m));
                }
            }
        }
    }
}

fn count_finished(queue: &Vec<Position>) -> (n: usize)
    ensures
        n == finished_count(queue@),
{
    let mut n: usize = 0;
    let mut i: usize = 0;
    while i < queue.len()
        invariant
            i <= queue@.len(),
            n <= i,
            n == finished_count(queue@.take(i as int)),
        decreases queue.len() - i,
    {
        assert(queue@.take(i + 1).drop_last() =~= queue@.take(i as int));
        if queue[i].finished {
            n = n + 1;
        }
        i = i + 1;
    }
    assert(queue@.take(i as int) =~= queue@);
    n
}

/// Where an outstanding position stands.
fn index_of(queue: &Vec<Position>, sequence: ChannelSequence) -> (i: usize)
    requires
        in_channel_order(queue@),
        is_outstanding(queue@, sequence),
    ensures
        unfinished_at(queue@, sequence, i as int),
{
    let ghost at = choose|k: int| unfinished_at(queue@, sequence, k);
    let mut i: usize = 0;
    while queue[i].sequence.0 != sequence.0
        invariant
            unfinished_at(queue@, sequence, at),
            at < queue.len(),
            i <= at,
        decreases at - i,
    {
        i = i + 1;
    }
    proof {
        if i < at {
            assert(queue@[i as int].sequence.0 < queue@[at].sequence.0);
        }
    }
    i
}

/// Release the finished prefix of a queue.
fn drain(queue: &mut Vec<Position>) -> (out: Vec<Release>)
    requires
        in_channel_order(old(queue)@),
    ensures
        out@ == published_by(old(queue)@),
        final(queue)@ == left_by(old(queue)@),
        in_channel_order(final(queue)@),
        final(queue)@.len() > 0 ==> !final(queue)@[0].finished,
{
    let ghost q = queue@;
    let ghost n = finished_prefix(q);
    let mut out: Vec<Release> = Vec::new();
    proof {
        lemma_prefix(q);
    }
    let ghost mut gone: int = 0;
    assert(q.skip(0) =~= q);
    while queue.len() > 0 && queue[0].finished
        invariant
            0 <= gone <= q.len(),
            queue@ == q.skip(gone),
            in_channel_order(q),
            n == finished_prefix(q),
            n <= q.len(),
            forall|k: int| 0 <= k < n ==> (#[trigger] q[k]).finished,
            n < q.len() ==> !q[n as int].finished,
            gone <= n,
            out@ == q.take(gone).map_values(
                |p: Position| Release { sequence: p.sequence, stamp: p.stamp },
            ),
        decreases queue.len(),
    {
        proof {
            assert(queue@[0] == q[gone]);
        }
        let head = queue.remove(0);
        out.push(Release { sequence: head.sequence, stamp: head.stamp });
        proof {
            assert(queue@ =~= q.skip(gone + 1));
            assert(q.take(gone + 1) =~= q.take(gone).push(q[gone]));
            assert(out@ =~= q.take(gone + 1).map_values(
                |p: Position| Release { sequence: p.sequence, stamp: p.stamp },
            ));
            gone = gone + 1;
        }
    }
    proof {
        if gone < n {
            assert(queue@[0] == q[gone]);
        }
        assert(in_channel_order(queue@)) by {
            assert forall|a: int, b: int| 0 <= a < b < queue@.len() implies (
            #[trigger] queue@[a]).sequence.0 < (#[trigger] queue@[b]).sequence.0 by {
                assert(queue@[a] == q[a + gone] && queue@[b] == q[b + gone]);
            }
        }
    }
    out
}

/// The finished prefix is finished, and what follows it is not.
pub proof fn lemma_prefix(q: Seq<Position>)
    ensures
        finished_prefix(q) <= q.len(),
        forall|k: int| 0 <= k < finished_prefix(q) ==> (#[trigger] q[k]).finished,
        finished_prefix(q) < q.len() ==> !q[finished_prefix(q) as int].finished,
    decreases q.len(),
{
    if q.len() > 0 && q[0].finished {
        let rest = q.drop_first();
        lemma_prefix(rest);
        assert forall|k: int| 0 <= k < finished_prefix(q) implies (#[trigger] q[k]).finished by {
            if k > 0 {
                assert(rest[k - 1] == q[k]);
            }
        }
        if finished_prefix(q) < q.len() {
            assert(rest[finished_prefix(rest) as int] == q[finished_prefix(q) as int]);
        }
    }
}

/// Taking the one position with a sequence out is removing it.
proof fn lemma_without(q: Seq<Position>, i: int)
    requires
        in_channel_order(q),
        0 <= i < q.len(),
    ensures
        without(q, q[i].sequence) == q.remove(i),
    decreases q.len(),
{
    let sequence = q[i].sequence;
    let p = |p: Position| p.sequence != sequence;
    reveal(Seq::filter);
    let init = q.drop_last();
    if i == q.len() - 1 {
        lemma_filter_all(init, sequence);
        assert(q.remove(i) =~= init);
    } else {
        assert(init[i] == q[i]);
        lemma_without(init, i);
        assert(q[i].sequence.0 < q[q.len() - 1].sequence.0);
        assert(q.remove(i) =~= init.remove(i).push(q.last()));
    }
}

proof fn lemma_filter_all(q: Seq<Position>, sequence: ChannelSequence)
    requires
        forall|k: int| 0 <= k < q.len() ==> (#[trigger] q[k]).sequence != sequence,
    ensures
        without(q, sequence) == q,
    decreases q.len(),
{
    reveal(Seq::filter);
    if q.len() > 0 {
        assert(q[q.len() - 1].sequence != sequence);
        assert forall|k: int| 0 <= k < q.drop_last().len() implies (
        #[trigger] q.drop_last()[k]).sequence != sequence by {
            assert(q.drop_last()[k] == q[k]);
        }
        lemma_filter_all(q.drop_last(), sequence);
        assert(q.drop_last().push(q.last()) =~= q);
    }
}

/// What a drained queue keeps was in it, and every unfinished position is kept.
pub proof fn lemma_left(q: Seq<Position>)
    ensures
        forall|i: int| 0 <= i < left_by(q).len() ==> q.contains(#[trigger] left_by(q)[i]),
        forall|sequence: ChannelSequence|
            is_outstanding(q, sequence) ==> #[trigger] is_outstanding(left_by(q), sequence),
{
    lemma_prefix(q);
    let n = finished_prefix(q) as int;
    assert forall|i: int| 0 <= i < left_by(q).len() implies q.contains(#[trigger] left_by(q)[i]) by {
        assert(left_by(q)[i] == q[n + i]);
    }
    assert forall|sequence: ChannelSequence| is_outstanding(q, sequence) implies #[trigger]
        is_outstanding(left_by(q), sequence) by {
        let i = choose|i: int| unfinished_at(q, sequence, i);
        assert(i >= n);
        assert(unfinished_at(left_by(q), sequence, i - n));
    }
}

/// Finishing one position leaves the others outstanding, and moves nothing.
pub proof fn lemma_finish(q: Seq<Position>, sequence: ChannelSequence, stamp: Option<CompletionStamp>)
    ensures
        forall|other: ChannelSequence|
            other != sequence && is_outstanding(q, other) ==> #[trigger] is_outstanding(
                with_finished(q, sequence, stamp),
                other,
            ),
        forall|i: int|
            0 <= i < q.len() ==> (#[trigger] with_finished(q, sequence, stamp)[i]).sequence
                == q[i].sequence,
{
    let after = with_finished(q, sequence, stamp);
    assert forall|other: ChannelSequence| other != sequence && is_outstanding(
        q,
        other,
    ) implies #[trigger] is_outstanding(after, other) by {
        let i = choose|i: int| unfinished_at(q, other, i);
        assert(unfinished_at(after, other, i));
    }
}

/// Taking one position out leaves the others outstanding.
pub proof fn lemma_take_out(q: Seq<Position>, sequence: ChannelSequence)
    requires
        in_channel_order(q),
        is_outstanding(q, sequence),
    ensures
        forall|other: ChannelSequence|
            other != sequence && is_outstanding(q, other) ==> #[trigger] is_outstanding(
                without(q, sequence),
                other,
            ),
        forall|i: int|
            0 <= i < without(q, sequence).len() ==> q.contains(#[trigger] without(q, sequence)[i])
                && without(q, sequence)[i].sequence != sequence,
{
    let at = choose|i: int| unfinished_at(q, sequence, i);
    lemma_without(q, at);
    let after = q.remove(at);
    assert forall|other: ChannelSequence| other != sequence && is_outstanding(
        q,
        other,
    ) implies #[trigger] is_outstanding(after, other) by {
        let i = choose|i: int| unfinished_at(q, other, i);
        assert(unfinished_at(after, other, if i < at { i } else { i - 1 }));
    }
    assert forall|i: int| 0 <= i < after.len() implies q.contains(#[trigger] after[i])
        && after[i].sequence != sequence by {
        let k = if i < at { i } else { i + 1 };
        assert(after[i] == q[k]);
        if k < at {
            assert(q[k].sequence.0 < q[at].sequence.0);
        } else {
            assert(q[at].sequence.0 < q[k].sequence.0);
        }
    }
}

/// Nothing is published past an unfinished position: what comes after it stays
/// in the queue.
pub proof fn an_unfinished_position_holds_everything_behind_it(q: Seq<Position>, i: int)
    requires
        0 <= i < q.len(),
        !q[i].finished,
    ensures
        finished_prefix(q) <= i,
        published_by(q).len() <= i,
        left_by(q).len() >= q.len() - i,
{
    lemma_prefix(q);
    if finished_prefix(q) > i {
        assert(q[i].finished);
    }
}

/// A drained queue is what it published followed by what it kept, so nothing
/// is lost and nothing is published twice.
pub proof fn draining_splits_the_queue(q: Seq<Position>)
    ensures
        q == q.take(finished_prefix(q) as int) + left_by(q),
        published_by(q).len() + left_by(q).len() == q.len(),
        left_by(q).len() > 0 ==> !left_by(q)[0].finished,
{
    lemma_prefix(q);
    assert(q =~= q.take(finished_prefix(q) as int) + left_by(q));
}

/// A channel publishes in its own order.
pub proof fn publication_order_is_channel_order(q: Seq<Position>)
    requires
        in_channel_order(q),
    ensures
        forall|i: int, j: int|
            0 <= i < j < published_by(q).len() ==> (#[trigger] published_by(q)[i]).sequence.0 < (
            #[trigger] published_by(q)[j]).sequence.0,
        forall|i: int, j: int|
            0 <= i < published_by(q).len() && 0 <= j < left_by(q).len() ==> (
            #[trigger] published_by(q)[i]).sequence.0 < (#[trigger] left_by(q)[j]).sequence.0,
{
    lemma_prefix(q);
    let n = finished_prefix(q) as int;
    assert forall|i: int, j: int| 0 <= i < j < published_by(q).len() implies (
    #[trigger] published_by(q)[i]).sequence.0 < (#[trigger] published_by(q)[j]).sequence.0 by {
        assert(q[i].sequence.0 < q[j].sequence.0);
    }
    assert forall|i: int, j: int|
        0 <= i < published_by(q).len() && 0 <= j < left_by(q).len() implies (
    #[trigger] published_by(q)[i]).sequence.0 < (#[trigger] left_by(q)[j]).sequence.0 by {
        assert(left_by(q)[j] == q[j + n]);
        assert(q[i].sequence.0 < q[j + n].sequence.0);
    }
}

/// A withdrawn position publishes nothing and is not left behind.
pub proof fn a_withdrawn_position_never_publishes(q: Seq<Position>, sequence: ChannelSequence)
    ensures
        forall|k: int|
            0 <= k < published_by(without(q, sequence)).len() ==> (#[trigger] published_by(
                without(q, sequence),
            )[k]).sequence != sequence,
        forall|k: int|
            0 <= k < left_by(without(q, sequence)).len() ==> (#[trigger] left_by(
                without(q, sequence),
            )[k]).sequence != sequence,
{
    let rest = without(q, sequence);
    lemma_prefix(rest);
    lemma_none_left(q, sequence);
    let n = finished_prefix(rest) as int;
    assert forall|k: int| 0 <= k < published_by(rest).len() implies (
    #[trigger] published_by(rest)[k]).sequence != sequence by {
        assert(rest[k].sequence != sequence);
    }
    assert forall|k: int| 0 <= k < left_by(rest).len() implies (
    #[trigger] left_by(rest)[k]).sequence != sequence by {
        assert(left_by(rest)[k] == rest[k + n]);
    }
}

proof fn lemma_none_left(q: Seq<Position>, sequence: ChannelSequence)
    ensures
        forall|k: int|
            0 <= k < without(q, sequence).len() ==> (#[trigger] without(q, sequence)[k]).sequence
                != sequence,
    decreases q.len(),
{
    reveal(Seq::filter);
    if q.len() > 0 {
        let init = q.drop_last();
        lemma_none_left(init, sequence);
        let all = without(q, sequence);
        let some = without(init, sequence);
        assert forall|k: int| 0 <= k < all.len() implies (#[trigger] all[k]).sequence != sequence by {
            if k < some.len() {
                assert(all[k] == some[k]);
            }
        }
    }
}

/// A position publishes exactly when it has finished and everything ahead of it
/// has, with its own stamp.
pub proof fn a_position_publishes_when_nothing_ahead_is_unfinished(q: Seq<Position>, i: int)
    requires
        0 <= i < q.len(),
    ensures
        (forall|k: int| 0 <= k <= i ==> (#[trigger] q[k]).finished) <==> i < published_by(q).len(),
        i < published_by(q).len() ==> published_by(q)[i].sequence == q[i].sequence
            && published_by(q)[i].stamp == q[i].stamp,
{
    lemma_prefix(q);
    let n = finished_prefix(q) as int;
    if i >= n {
        assert(!q[n].finished);
    }
}

/// Finishing a position finishes it alone, with the stamp it owes.
pub proof fn finishing_touches_one_position(
    q: Seq<Position>,
    sequence: ChannelSequence,
    stamp: Option<CompletionStamp>,
    i: int,
)
    requires
        0 <= i < q.len(),
    ensures
        with_finished(q, sequence, stamp).len() == q.len(),
        with_finished(q, sequence, stamp)[i].sequence == q[i].sequence,
        q[i].sequence != sequence ==> with_finished(q, sequence, stamp)[i] == q[i],
        q[i].sequence == sequence ==> with_finished(q, sequence, stamp)[i].finished
            && with_finished(q, sequence, stamp)[i].stamp == stamp,
{
}

/// Withdrawing a position leaves every other one as it was.
pub proof fn withdrawing_leaves_the_others(q: Seq<Position>, sequence: ChannelSequence, p: Position)
    ensures
        without(q, sequence).contains(p) == (q.contains(p) && p.sequence != sequence),
    decreases q.len(),
{
    reveal(Seq::filter);
    if q.len() > 0 {
        let init = q.drop_last();
        let kept = without(init, sequence);
        let out = without(q, sequence);
        withdrawing_leaves_the_others(init, sequence, p);
        assert(q[q.len() - 1] == q.last());
        if q.contains(p) {
            let k = choose|k: int| 0 <= k < q.len() && q[k] == p;
            if k < init.len() {
                assert(init[k] == p);
            }
        }
        if init.contains(p) {
            let k = choose|k: int| 0 <= k < init.len() && init[k] == p;
            assert(q[k] == p);
        }
        if kept.contains(p) {
            let k = choose|k: int| 0 <= k < kept.len() && kept[k] == p;
            assert(out[k] == p);
        }
        if q.last().sequence != sequence {
            assert(out[kept.len() as int] == q.last());
        }
        if out.contains(p) {
            let k = choose|k: int| 0 <= k < out.len() && out[k] == p;
            if k < kept.len() {
                assert(kept[k] == p);
            }
        }
    }
}

/// The total counts every release, up to the top of the word.
pub proof fn every_release_is_counted(count: usize, n: nat)
    requires
        count + n <= usize::MAX,
    ensures
        released_total(count, n) == count + n,
{
}

/// Finished positions are counted one by one, whether or not they carry a word.
pub proof fn every_finished_position_is_counted(
    first: Seq<Position>,
    second: Seq<Position>,
    p: Position,
)
    ensures
        finished_count(first + second) == finished_count(first) + finished_count(second),
        finished_count(seq![p]) == if p.finished {
            1nat
        } else {
            0nat
        },
    decreases second.len(),
{
    let both = first + second;
    if second.len() == 0 {
        assert(both =~= first);
    } else {
        every_finished_position_is_counted(first, second.drop_last(), p);
        assert(both.drop_last() =~= first + second.drop_last());
        assert(both.last() == second.last());
    }
    assert(seq![p].drop_last() =~= Seq::<Position>::empty());
    assert(seq![p].last() == p);
    assert(finished_count(seq![p].drop_last()) == 0);
}

} // verus!
