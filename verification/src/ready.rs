//! When an admitted transaction may begin, and how a wait nobody will answer is
//! told from one that has simply not been answered yet.
//!
//! A hazard names a transaction that already exists. A stamp wait may name a
//! value nothing has produced yet, which is ordinary. A pipeline wait names an
//! object still being built. The three are tracked apart, and a transaction
//! becomes ready when the last of them is discharged. Nothing here blocks.

use vstd::prelude::*;
use crate::identity::{
    CompletionStamp, IngressOrdinal, ResourceId, StampSlot, StampValue, StampWait,
};
use crate::ordinal_set::OrdinalSet;
use crate::publish::Release;
use crate::table::{Table, TableKey};

verus! {

/// One admitted transaction's unfinished business, mathematically.
pub struct Waiting {
    pub ordinal: IngressOrdinal,
    /// Outstanding transactions this one must not overtake.
    pub hazards: Set<IngressOrdinal>,
    /// Stamp points that must be published first.
    pub stamps: Seq<StampWait>,
    /// Pipelines that must finish building first.
    pub pipelines: Seq<ResourceId>,
    /// What this transaction publishes when it completes.
    pub completion: Option<CompletionStamp>,
}

/// Something that a transaction was waiting for has happened.
#[derive(Clone, Copy, Debug)]
pub enum Discharge {
    /// A transaction completed.
    Completed(IngressOrdinal),
    /// A slot now stands at a value.
    Published(StampSlot, StampValue),
    /// A pipeline finished building.
    Built(ResourceId),
}

impl Waiting {
    /// Nothing is left to wait for.
    pub open spec fn unblocked(self) -> bool {
        self.hazards == Set::<IngressOrdinal>::empty() && self.stamps.len() == 0
            && self.pipelines.len() == 0
    }

    /// What is left once something has happened.
    pub open spec fn after(self, event: Discharge) -> Waiting {
        match event {
            Discharge::Completed(o) => Waiting { hazards: self.hazards.remove(o), ..self },
            Discharge::Published(slot, value) => Waiting {
                stamps: self.stamps.filter(|w: StampWait| !point_met(w, slot, value)),
                ..self
            },
            Discharge::Built(p) => Waiting {
                pipelines: self.pipelines.filter(|x: ResourceId| x != p),
                ..self
            },
        }
    }
}

/// A slot standing at `value` answers the wait.
pub open spec fn point_met(w: StampWait, slot: StampSlot, value: StampValue) -> bool {
    w.slot == slot && value.has_reached(w.value)
}

/// What a slot holds, if anything has been published into it.
pub open spec fn standing(published: Map<StampSlot, StampValue>, slot: StampSlot) -> Option<
    StampValue,
> {
    if published.dom().contains(slot) {
        Some(published[slot])
    } else {
        None
    }
}

/// The waits that what has been published does not answer.
pub open spec fn unmet(published: Map<StampSlot, StampValue>, waits: Seq<StampWait>) -> Seq<
    StampWait,
> {
    waits.filter(|w: StampWait| !w.met_by(standing(published, w.slot)))
}

/// The transaction of `o` is admitted and has not completed.
pub open spec fn is_pending(rows: Seq<Waiting>, o: IngressOrdinal) -> bool {
    exists|i: int| 0 <= i < rows.len() && (#[trigger] rows[i]).ordinal == o
}

/// The hazards that name outstanding transactions.
pub open spec fn live_hazards(rows: Seq<Waiting>, hazard_waits: Seq<IngressOrdinal>) -> Set<
    IngressOrdinal,
> {
    Set::new(|o: IngressOrdinal| hazard_waits.contains(o) && is_pending(rows, o))
}

/// The row of a newly admitted transaction: the hazards that name outstanding
/// work, and the stamps that nothing published answers.
pub open spec fn admitted(
    rows: Seq<Waiting>,
    published: Map<StampSlot, StampValue>,
    ordinal: IngressOrdinal,
    hazard_waits: Seq<IngressOrdinal>,
    stamp_waits: Seq<StampWait>,
    pipeline_waits: Seq<ResourceId>,
    completion: Option<CompletionStamp>,
) -> Waiting {
    Waiting {
        ordinal,
        hazards: live_hazards(rows, hazard_waits),
        stamps: unmet(published, stamp_waits),
        pipelines: pipeline_waits,
        completion,
    }
}

/// The rows with one more, where its ordinal belongs.
pub open spec fn rows_with(rows: Seq<Waiting>, row: Waiting) -> Seq<Waiting>
    decreases rows.len(),
{
    if rows.len() == 0 || rows.last().ordinal.0 < row.ordinal.0 {
        rows.push(row)
    } else {
        rows_with(rows.drop_last(), row).push(rows.last())
    }
}

/// In arrival order, each transaction once.
pub open spec fn rows_ascending(rows: Seq<Waiting>) -> bool {
    forall|i: int, j: int|
        0 <= i < j < rows.len() ==> (#[trigger] rows[i]).ordinal.0 < (#[trigger] rows[j]).ordinal.0
}

/// A hazard names an outstanding transaction.
pub open spec fn hazards_outstanding(rows: Seq<Waiting>) -> bool {
    forall|i: int, o: IngressOrdinal|
        0 <= i < rows.len() && #[trigger] rows[i].hazards.contains(o) ==> is_pending(rows, o)
}

/// A stamp wait is one that what has been published does not answer.
pub open spec fn stamps_unmet(rows: Seq<Waiting>, published: Map<StampSlot, StampValue>) -> bool {
    forall|i: int, k: int|
        0 <= i < rows.len() && 0 <= k < rows[i].stamps.len() ==> !(
        #[trigger] rows[i].stamps[k]).met_by(standing(published, rows[i].stamps[k].slot))
}

/// The transaction is outstanding with nothing left to wait for.
pub open spec fn is_unblocked(rows: Seq<Waiting>, o: IngressOrdinal) -> bool {
    exists|i: int|
        0 <= i < rows.len() && (#[trigger] rows[i]).ordinal == o && rows[i].unblocked()
}

/// Only a transaction with nothing left to wait for is ready.
pub open spec fn ready_unblocked(rows: Seq<Waiting>, ready: Seq<IngressOrdinal>) -> bool {
    crate::ordinal_set::ascending(ready) && forall|o: IngressOrdinal| #[trigger]
        ready.contains(o) ==> is_unblocked(rows, o)
}

/// The rows once something has happened.
pub open spec fn all_after(rows: Seq<Waiting>, event: Discharge) -> Seq<Waiting> {
    rows.map_values(|r: Waiting| r.after(event))
}

/// The event discharged the last thing a transaction was waiting for.
pub open spec fn released_by(rows: Seq<Waiting>, event: Discharge, o: IngressOrdinal) -> bool {
    exists|i: int|
        0 <= i < rows.len() && (#[trigger] rows[i]).ordinal == o && !rows[i].unblocked()
            && rows[i].after(event).unblocked()
}

/// The rows with a transaction gone.
pub open spec fn rows_without(rows: Seq<Waiting>, o: IngressOrdinal) -> Seq<Waiting> {
    rows.filter(|r: Waiting| r.ordinal != o)
}

/// The highest value admitted transactions will publish into a slot, taken in
/// arrival order.
pub open spec fn publishable(rows: Seq<Waiting>, slot: StampSlot) -> Option<StampValue>
    decreases rows.len(),
{
    if rows.len() == 0 {
        None
    } else {
        let earlier = publishable(rows.drop_last(), slot);
        match rows.last().completion {
            Some(c) => if c.slot == slot {
                match earlier {
                    Some(v) => Some(v.latest(c.value)),
                    None => Some(c.value),
                }
            } else {
                earlier
            },
            None => earlier,
        }
    }
}

/// The transaction waits for a stamp point no admitted transaction will
/// publish.
pub open spec fn unanswerable(rows: Seq<Waiting>, row: Waiting) -> bool {
    exists|k: int|
        0 <= k < row.stamps.len() && !(#[trigger] row.stamps[k]).met_by(
            publishable(rows, row.stamps[k].slot),
        )
}

/// Where a transaction's row stands.
pub open spec fn row_at(rows: Seq<Waiting>, o: IngressOrdinal, i: int) -> bool {
    0 <= i < rows.len() && rows[i].ordinal == o
}

/// What a slot holds once a stamp has been published into it: the later value.
pub open spec fn slot_after(
    published: Map<StampSlot, StampValue>,
    stamp: CompletionStamp,
) -> StampValue {
    match standing(published, stamp.slot) {
        Some(v) => v.latest(stamp.value),
        None => stamp.value,
    }
}

/// What the readiness service holds.
#[verifier::ext_equal]
pub struct Readiness {
    /// The outstanding transactions, in arrival order.
    pub rows: Seq<Waiting>,
    pub stamps: Map<StampSlot, StampValue>,
    /// The transactions that became ready and have not been taken.
    pub ready: Set<IngressOrdinal>,
}

impl Readiness {
    /// Nothing outstanding and nothing published.
    pub open spec fn empty() -> Readiness {
        Readiness { rows: Seq::empty(), stamps: Map::empty(), ready: Set::empty() }
    }

    /// What a newly accepted transaction waits for.
    pub open spec fn row_for(
        self,
        ordinal: IngressOrdinal,
        hazards: Seq<IngressOrdinal>,
        stamps: Seq<StampWait>,
        pipelines: Seq<ResourceId>,
        completion: Option<CompletionStamp>,
    ) -> Waiting {
        admitted(self.rows, self.stamps, ordinal, hazards, stamps, pipelines, completion)
    }

    /// The service with one more row.
    pub open spec fn with_row(self, row: Waiting) -> Readiness {
        Readiness {
            rows: rows_with(self.rows, row),
            ready: if row.unblocked() { self.ready.insert(row.ordinal) } else { self.ready },
            ..self
        }
    }

    /// The service once every row has heard of an event.
    pub open spec fn after(self, event: Discharge) -> Readiness {
        Readiness {
            rows: all_after(self.rows, event),
            ready: self.ready.union(Set::new(|o: IngressOrdinal| released_by(self.rows, event, o))),
            ..self
        }
    }

    /// What a transaction publishes when it completes.
    pub open spec fn owed_by(self, ordinal: IngressOrdinal) -> Option<CompletionStamp> {
        self.rows[choose|i: int| row_at(self.rows, ordinal, i)].completion
    }

    /// The service once a transaction has completed.
    pub open spec fn completed(self, ordinal: IngressOrdinal) -> Readiness {
        Readiness {
            rows: all_after(rows_without(self.rows, ordinal), Discharge::Completed(ordinal)),
            ready: self.after(Discharge::Completed(ordinal)).ready.remove(ordinal),
            ..self
        }
    }

    /// The service once a stamp has been published.
    pub open spec fn published(self, stamp: CompletionStamp) -> Readiness {
        Readiness {
            stamps: self.stamps.insert(stamp.slot, slot_after(self.stamps, stamp)),
            ..self.after(Discharge::Published(stamp.slot, slot_after(self.stamps, stamp)))
        }
    }

    /// The service once the ready transactions have been taken.
    pub open spec fn taken(self) -> Readiness {
        Readiness { ready: Set::empty(), ..self }
    }
}

/// The readiness service once these releases have been published, in order.
pub open spec fn announced(readiness: Readiness, releases: Seq<Release>) -> Readiness
    decreases releases.len(),
{
    if releases.len() == 0 {
        readiness
    } else {
        match releases.last().stamp {
            Some(stamp) => announced(readiness, releases.drop_last()).published(stamp),
            None => announced(readiness, releases.drop_last()),
        }
    }
}

impl TableKey for StampSlot {
    fn same(&self, other: &Self) -> (equal: bool) {
        self.0 == other.0
    }
}

/// One admitted transaction's unfinished business.
#[derive(Debug)]
struct Pending {
    ordinal: IngressOrdinal,
    hazards: OrdinalSet,
    stamps: Vec<StampWait>,
    pipelines: Vec<ResourceId>,
    completion: Option<CompletionStamp>,
}

impl View for Pending {
    type V = Waiting;

    closed spec fn view(&self) -> Waiting {
        Waiting {
            ordinal: self.ordinal,
            hazards: self.hazards@.to_set(),
            stamps: self.stamps@,
            pipelines: self.pipelines@,
            completion: self.completion,
        }
    }
}

impl Pending {
    spec fn wf(&self) -> bool {
        self.hazards.wf()
    }

    fn is_unblocked(&self) -> (free: bool)
        ensures
            free == self@.unblocked(),
    {
        proof {
            if self.hazards@.len() == 0 {
                assert(self.hazards@.to_set() =~= Set::<IngressOrdinal>::empty());
            } else {
                assert(self.hazards@.to_set().contains(self.hazards@[0]));
            }
        }
        self.hazards.len() == 0 && self.stamps.len() == 0 && self.pipelines.len() == 0
    }

    fn discharge(&mut self, event: Discharge)
        requires
            old(self).wf(),
        ensures
            final(self).wf(),
            final(self)@ == old(self)@.after(event),
    {
        match event {
            Discharge::Completed(o) => {
                let _ = self.hazards.remove(o);
                assert(self.hazards@.to_set() =~= old(self).hazards@.to_set().remove(o)) by {
                    assert forall|x: IngressOrdinal|
                        self.hazards@.to_set().contains(x) == old(self).hazards@.to_set().remove(
                            o,
                        ).contains(x) by {
                        assert(self.hazards@.contains(x) == (old(self).hazards@.contains(x) && x
                            != o));
                    }
                }
            },
            Discharge::Published(slot, value) => {
                self.stamps = keep_unmet(&self.stamps, slot, value);
            },
            Discharge::Built(p) => {
                self.pipelines = keep_unbuilt(&self.pipelines, p);
            },
        }
    }
}

/// The waits a slot standing at `value` does not answer.
fn keep_unmet(waits: &Vec<StampWait>, slot: StampSlot, value: StampValue) -> (kept: Vec<StampWait>)
    ensures
        kept@ == waits@.filter(|w: StampWait| !point_met(w, slot, value)),
{
    let mut kept: Vec<StampWait> = Vec::new();
    let ghost p = |w: StampWait| !point_met(w, slot, value);
    let mut i: usize = 0;
    proof {
        lemma_filter_empty(waits@, p);
    }
    while i < waits.len()
        invariant
            i <= waits@.len(),
            p == (|w: StampWait| !point_met(w, slot, value)),
            kept@ == waits@.take(i as int).filter(p),
        decreases waits.len() - i,
    {
        let w = waits[i];
        proof {
            lemma_filter_step(waits@, p, i as int);
        }
        if !(w.slot.0 == slot.0 && value.reached(w.value)) {
            kept.push(w);
        }
        i = i + 1;
    }
    assert(waits@.take(i as int) =~= waits@);
    kept
}

/// The pipelines that are not `built`.
fn keep_unbuilt(waits: &Vec<ResourceId>, built: ResourceId) -> (kept: Vec<ResourceId>)
    ensures
        kept@ == waits@.filter(|x: ResourceId| x != built),
{
    let mut kept: Vec<ResourceId> = Vec::new();
    let ghost p = |x: ResourceId| x != built;
    let mut i: usize = 0;
    proof {
        lemma_filter_empty(waits@, p);
    }
    while i < waits.len()
        invariant
            i <= waits@.len(),
            p == (|x: ResourceId| x != built),
            kept@ == waits@.take(i as int).filter(p),
        decreases waits.len() - i,
    {
        let w = waits[i];
        proof {
            lemma_filter_step(waits@, p, i as int);
        }
        if w != built {
            kept.push(w);
        }
        i = i + 1;
    }
    assert(waits@.take(i as int) =~= waits@);
    kept
}

proof fn lemma_filter_empty<A>(s: Seq<A>, p: spec_fn(A) -> bool)
    ensures
        s.take(0).filter(p) == Seq::<A>::empty(),
{
    reveal(Seq::filter);
}

proof fn lemma_filter_step<A>(s: Seq<A>, p: spec_fn(A) -> bool, i: int)
    requires
        0 <= i < s.len(),
    ensures
        s.take(i + 1).filter(p) == (if p(s[i]) {
            s.take(i).filter(p).push(s[i])
        } else {
            s.take(i).filter(p)
        }),
{
    reveal(Seq::filter);
    assert(s.take(i + 1).drop_last() =~= s.take(i));
    assert(s.take(i + 1).last() == s[i]);
}

/// The readiness service for one session.
#[derive(Debug)]
pub struct Scheduler {
    pending: Vec<Pending>,
    published: Table<StampSlot, StampValue>,
    ready: OrdinalSet,
}

impl Default for Scheduler {
    fn default() -> (s: Scheduler)
        ensures
            s.wf(),
            s.rows() == Seq::<Waiting>::empty(),
            s.stamps() == Map::<StampSlot, StampValue>::empty(),
            s.newly_ready() == Seq::<IngressOrdinal>::empty(),
            s.state() == Readiness::empty(),
    {
        Scheduler::new()
    }
}

impl Scheduler {
    /// Every admitted transaction that has not completed, in arrival order.
    pub closed spec fn rows(&self) -> Seq<Waiting> {
        self.pending@.map_values(|p: Pending| p@)
    }

    /// The value standing in each slot.
    pub closed spec fn stamps(&self) -> Map<StampSlot, StampValue> {
        self.published@
    }

    /// The transactions that became ready and were not taken yet, ascending.
    pub closed spec fn newly_ready(&self) -> Seq<IngressOrdinal> {
        self.ready@
    }

    pub open spec fn state(&self) -> Readiness {
        Readiness {
            rows: self.rows(),
            stamps: self.stamps(),
            ready: self.newly_ready().to_set(),
        }
    }

    pub closed spec fn parts_wf(&self) -> bool {
        &&& self.published.wf()
        &&& self.ready.wf()
        &&& forall|i: int| 0 <= i < self.pending@.len() ==> (#[trigger] self.pending@[i]).wf()
    }

    /// The invariant: one row for each outstanding transaction, in arrival
    /// order; a hazard names an outstanding transaction; a stamp wait is one
    /// that what has been published does not answer; and only a transaction
    /// with nothing left to wait for is ready.
    pub open spec fn wf(&self) -> bool {
        &&& self.parts_wf()
        &&& rows_ascending(self.rows())
        &&& hazards_outstanding(self.rows())
        &&& stamps_unmet(self.rows(), self.stamps())
        &&& ready_unblocked(self.rows(), self.newly_ready())
    }

    #[must_use]
    pub fn new() -> (s: Self)
        ensures
            s.wf(),
            s.rows() == Seq::<Waiting>::empty(),
            s.stamps() == Map::<StampSlot, StampValue>::empty(),
            s.newly_ready() == Seq::<IngressOrdinal>::empty(),
            s.state() == Readiness::empty(),
    {
        let s = Scheduler { pending: Vec::new(), published: Table::new(), ready: OrdinalSet::new() };
        assert(s.rows() =~= Seq::<Waiting>::empty());
        s
    }

    /// Where an outstanding transaction's row stands.
    fn row_of(&self, ordinal: IngressOrdinal) -> (at: Option<usize>)
        requires
            self.wf(),
        ensures
            at is Some == is_pending(self.rows(), ordinal),
            at matches Some(i) ==> i < self.rows().len() && self.rows()[i as int].ordinal == ordinal,
    {
        let mut i: usize = 0;
        while i < self.pending.len()
            invariant
                i <= self.pending@.len(),
                forall|j: int| 0 <= j < i ==> (#[trigger] self.rows()[j]).ordinal != ordinal,
            decreases self.pending.len() - i,
        {
            assert(self.rows()[i as int] == self.pending@[i as int]@);
            if self.pending[i].ordinal.0 == ordinal.0 {
                return Some(i);
            }
            i = i + 1;
        }
        None
    }

    /// Whether a transaction is admitted and has not completed.
    #[must_use]
    pub fn is_outstanding(&self, ordinal: IngressOrdinal) -> (held: bool)
        requires
            self.wf(),
        ensures
            held == is_pending(self.rows(), ordinal),
    {
        self.row_of(ordinal).is_some()
    }

    /// Admit a transaction with its prerequisites.
    ///
    /// A hazard against a transaction that has completed, and a stamp that has
    /// been published, are discharged here. Returns whether the transaction is
    /// ready at once.
    pub fn accept(
        &mut self,
        ordinal: IngressOrdinal,
        hazard_waits: &[IngressOrdinal],
        stamp_waits: &[StampWait],
        completion: Option<CompletionStamp>,
    ) -> (ready: bool)
        requires
            old(self).wf(),
            !is_pending(old(self).rows(), ordinal),
        ensures
            final(self).wf(),
            final(self).stamps() == old(self).stamps(),
            final(self).rows() == rows_with(
                old(self).rows(),
                admitted(
                    old(self).rows(),
                    old(self).stamps(),
                    ordinal,
                    hazard_waits@,
                    stamp_waits@,
                    Seq::empty(),
                    completion,
                ),
            ),
            ready == admitted(
                old(self).rows(),
                old(self).stamps(),
                ordinal,
                hazard_waits@,
                stamp_waits@,
                Seq::empty(),
                completion,
            ).unblocked(),
            forall|o: IngressOrdinal| #[trigger]
                final(self).newly_ready().contains(o) == (old(self).newly_ready().contains(o) || (
                ready && o == ordinal)),
            final(self).state() == old(self).state().with_row(
                old(self).state().row_for(
                    ordinal,
                    hazard_waits@,
                    stamp_waits@,
                    Seq::empty(),
                    completion,
                ),
            ),
    {
        let none: Vec<ResourceId> = Vec::new();
        self.accept_building(ordinal, hazard_waits, stamp_waits, none, completion)
    }

    /// Admit a transaction that also waits for pipelines still being built.
    pub fn accept_building(
        &mut self,
        ordinal: IngressOrdinal,
        hazard_waits: &[IngressOrdinal],
        stamp_waits: &[StampWait],
        pipeline_waits: Vec<ResourceId>,
        completion: Option<CompletionStamp>,
    ) -> (ready: bool)
        requires
            old(self).wf(),
            !is_pending(old(self).rows(), ordinal),
        ensures
            final(self).wf(),
            final(self).stamps() == old(self).stamps(),
            final(self).rows() == rows_with(
                old(self).rows(),
                admitted(
                    old(self).rows(),
                    old(self).stamps(),
                    ordinal,
                    hazard_waits@,
                    stamp_waits@,
                    pipeline_waits@,
                    completion,
                ),
            ),
            ready == admitted(
                old(self).rows(),
                old(self).stamps(),
                ordinal,
                hazard_waits@,
                stamp_waits@,
                pipeline_waits@,
                completion,
            ).unblocked(),
            forall|o: IngressOrdinal| #[trigger]
                final(self).newly_ready().contains(o) == (old(self).newly_ready().contains(o) || (
                ready && o == ordinal)),
            final(self).state() == old(self).state().with_row(
                old(self).state().row_for(
                    ordinal,
                    hazard_waits@,
                    stamp_waits@,
                    pipeline_waits@,
                    completion,
                ),
            ),
    {
        let ghost rows = self.rows();
        let hazards = self.outstanding_of(hazard_waits);
        let stamps = self.unmet_of(stamp_waits);
        let row = Pending { ordinal, hazards, stamps, pipelines: pipeline_waits, completion };
        let ready = row.is_unblocked();
        assert(row@.hazards == live_hazards(rows, hazard_waits@)) by {
            assert forall|o: IngressOrdinal|
                row@.hazards.contains(o) == live_hazards(rows, hazard_waits@).contains(o) by {
                assert(row.hazards@.contains(o) == (hazard_waits@.contains(o) && is_pending(rows, o)));
            }
        }
        let ghost model = row@;
        let mut at: usize = self.pending.len();
        while at > 0 && self.pending[at - 1].ordinal.0 > ordinal.0
            invariant
                at <= self.pending@.len(),
                self.pending@ == old(self).pending@,
                rows == self.rows(),
                rows_ascending(rows),
                forall|j: int| at <= j < rows.len() ==> (#[trigger] rows[j]).ordinal.0 > ordinal.0,
            decreases at,
        {
            assert(rows[at - 1] == self.pending@[at - 1]@);
            at = at - 1;
        }
        proof {
            assert forall|j: int| 0 <= j < at implies (#[trigger] rows[j]).ordinal.0 < ordinal.0 by {
                assert(rows[at - 1] == self.pending@[at - 1]@);
                assert(rows[j].ordinal != ordinal);
                if j < at - 1 {
                    assert(rows[j].ordinal.0 < rows[at - 1].ordinal.0);
                }
                assert(rows[at - 1].ordinal != ordinal);
            }
            lemma_rows_with(rows, model, at as int);
        }
        self.pending.insert(at, row);
        assert(self.rows() =~= rows.insert(at as int, model));
        if ready {
            let _ = self.ready.insert(ordinal);
        }
        proof {
            assert forall|k: int| 0 <= k < model.stamps.len() implies !(
            #[trigger] model.stamps[k]).met_by(standing(self.stamps(), model.stamps[k].slot)) by {
                lemma_filtered(
                    stamp_waits@,
                    |w: StampWait| !w.met_by(standing(self.stamps(), w.slot)),
                    k,
                );
            }
            lemma_insert_keeps(rows, self.stamps(), old(self).newly_ready(), model, at as int);
        }
        ready
    }

    /// Which of the named transactions are outstanding.
    fn outstanding_of(&self, named: &[IngressOrdinal]) -> (live: OrdinalSet)
        requires
            self.wf(),
        ensures
            live.wf(),
            forall|o: IngressOrdinal| #[trigger]
                live@.contains(o) == (named@.contains(o) && is_pending(self.rows(), o)),
    {
        let mut live = OrdinalSet::new();
        let mut i: usize = 0;
        while i < named.len()
            invariant
                self.wf(),
                i <= named@.len(),
                live.wf(),
                forall|o: IngressOrdinal| #[trigger]
                    live@.contains(o) == (named@.take(i as int).contains(o) && is_pending(
                        self.rows(),
                        o,
                    )),
            decreases named.len() - i,
        {
            let o = named[i];
            let ghost seen = named@.take(i as int);
            proof {
                assert(named@.take(i + 1) =~= seen.push(o));
                assert forall|x: IngressOrdinal|
                    seen.push(o).contains(x) == (seen.contains(x) || x == o) by {
                    if seen.contains(x) {
                        let k = choose|k: int| 0 <= k < seen.len() && seen[k] == x;
                        assert(seen.push(o)[k] == x);
                    }
                    if x == o {
                        assert(seen.push(o)[seen.len() as int] == x);
                    }
                }
            }
            if self.is_outstanding(o) {
                let _ = live.insert(o);
            }
            i = i + 1;
        }
        assert(named@.take(i as int) =~= named@);
        live
    }

    /// Which of the waits nothing published answers.
    fn unmet_of(&self, waits: &[StampWait]) -> (kept: Vec<StampWait>)
        requires
            self.wf(),
        ensures
            kept@ == unmet(self.stamps(), waits@),
    {
        let mut kept: Vec<StampWait> = Vec::new();
        let ghost p = |w: StampWait| !w.met_by(standing(self.stamps(), w.slot));
        let mut i: usize = 0;
        proof {
            lemma_filter_empty(waits@, p);
        }
        while i < waits.len()
            invariant
                self.wf(),
                i <= waits@.len(),
                p == (|w: StampWait| !w.met_by(standing(self.stamps(), w.slot))),
                kept@ == waits@.take(i as int).filter(p),
            decreases waits.len() - i,
        {
            let w = waits[i];
            proof {
                lemma_filter_step(waits@, p, i as int);
            }
            if !self.is_published(w) {
                kept.push(w);
            }
            i = i + 1;
        }
        assert(waits@.take(i as int) =~= waits@);
        kept
    }

    /// Whether a wait is already discharged by what has been published.
    #[must_use]
    pub fn is_published(&self, wait: StampWait) -> (met: bool)
        requires
            self.wf(),
        ensures
            met == wait.met_by(standing(self.stamps(), wait.slot)),
    {
        wait.satisfied_by(self.published_value(wait.slot))
    }

    /// The value standing in a slot, if anything has published one.
    #[must_use]
    pub fn published_value(&self, slot: StampSlot) -> (v: Option<StampValue>)
        requires
            self.wf(),
        ensures
            v == standing(self.stamps(), slot),
    {
        match self.published.get(slot) {
            Some(v) => Some(*v),
            None => None,
        }
    }

    /// Complete a transaction: release what was waiting on it, and hand back
    /// the stamp it now owes.
    ///
    /// The stamp is not published here. A channel publishes in its own order,
    /// so work that finishes ahead of an earlier position owes its stamp and
    /// may not pay it yet.
    pub fn complete(&mut self, ordinal: IngressOrdinal) -> (owed: Option<CompletionStamp>)
        requires
            old(self).wf(),
            is_pending(old(self).rows(), ordinal),
        ensures
            final(self).wf(),
            final(self).stamps() == old(self).stamps(),
            final(self).rows() == all_after(
                rows_without(old(self).rows(), ordinal),
                Discharge::Completed(ordinal),
            ),
            exists|i: int|
                0 <= i < old(self).rows().len() && (#[trigger] old(self).rows()[i]).ordinal
                    == ordinal && owed == old(self).rows()[i].completion,
            forall|o: IngressOrdinal| #[trigger]
                final(self).newly_ready().contains(o) == (o != ordinal && (
                old(self).newly_ready().contains(o) || released_by(
                    old(self).rows(),
                    Discharge::Completed(ordinal),
                    o,
                ))),
            owed == old(self).state().owed_by(ordinal),
            final(self).state() == old(self).state().completed(ordinal),
    {
        let ghost rows = self.rows();
        let ghost gone = rows_without(rows, ordinal);
        match self.row_of(ordinal) {
            Some(at) => {
                proof {
                    lemma_rows_without(rows, at as int);
                    lemma_owed(old(self).state(), at as int);
                }
                assert(rows[at as int] == self.pending@[at as int]@);
                let done = self.pending.remove(at);
                assert(self.rows() =~= rows.remove(at as int));
                let _ = self.ready.remove(ordinal);
                proof {
                    lemma_remove_keeps(rows, self.stamps(), old(self).newly_ready(), at as int);
                }
                self.discharge(Discharge::Completed(ordinal));
                proof {
                    lemma_completion_keeps_hazards(rows, at as int);
                    lemma_event_keeps_stamps(gone, self.stamps(), Discharge::Completed(ordinal));
                    assert forall|o: IngressOrdinal|
                        released_by(gone, Discharge::Completed(ordinal), o) == (o != ordinal
                            && #[trigger] released_by(rows, Discharge::Completed(ordinal), o)) by {
                        lemma_release_ignores_own_row(rows, at as int, o);
                    }
                }
                done.completion
            },
            None => None,
        }
    }

    /// Let every row know that something happened, and note the transactions it
    /// was the last thing for.
    fn discharge(&mut self, event: Discharge)
        requires
            old(self).parts_wf(),
            rows_ascending(old(self).rows()),
            ready_unblocked(old(self).rows(), old(self).newly_ready()),
        ensures
            final(self).parts_wf(),
            final(self).stamps() == old(self).stamps(),
            final(self).rows() == all_after(old(self).rows(), event),
            rows_ascending(final(self).rows()),
            ready_unblocked(final(self).rows(), final(self).newly_ready()),
            forall|o: IngressOrdinal| #[trigger]
                final(self).newly_ready().contains(o) == (old(self).newly_ready().contains(o)
                    || released_by(old(self).rows(), event, o)),
    {
        let ghost rows = self.rows();
        let mut i: usize = 0;
        while i < self.pending.len()
            invariant
                self.parts_wf(),
                rows == old(self).rows(),
                self.published == old(self).published,
                i <= self.pending@.len(),
                self.rows().len() == rows.len(),
                self.pending@.len() == rows.len(),
                forall|j: int| 0 <= j < i ==> #[trigger] self.rows()[j] == rows[j].after(event),
                forall|j: int| i <= j < rows.len() ==> #[trigger] self.rows()[j] == rows[j],
                forall|o: IngressOrdinal| #[trigger]
                    self.ready@.contains(o) == (old(self).ready@.contains(o) || released_before(
                        rows,
                        event,
                        o,
                        i as int,
                    )),
            decreases self.pending.len() - i,
        {
            let ghost before = self.rows();
            assert(self.rows()[i as int] == self.pending@[i as int]@);
            let ordinal = self.pending[i].ordinal;
            let blocked = !self.pending[i].is_unblocked();
            let row = &mut self.pending[i];
            row.discharge(event);
            let free = row.is_unblocked();
            proof {
                assert forall|j: int| 0 <= j < rows.len() && j != i implies #[trigger] self.rows()[j]
                    == before[j] by {}
                assert(self.rows()[i as int] == rows[i as int].after(event));
                assert forall|o: IngressOrdinal| #[trigger]
                    released_before(rows, event, o, i + 1) == (released_before(
                        rows,
                        event,
                        o,
                        i as int,
                    ) || (ordinal == o && blocked && free)) by {
                    lemma_released_step(rows, event, o, i as int);
                }
            }
            if blocked && free {
                let _ = self.ready.insert(ordinal);
            }
            i = i + 1;
        }
        proof {
            let after = self.rows();
            assert(after =~= all_after(rows, event));
            assert forall|a: int, b: int| 0 <= a < b < after.len() implies (
            #[trigger] after[a]).ordinal.0 < (#[trigger] after[b]).ordinal.0 by {
                assert(after[a].ordinal == rows[a].ordinal);
                assert(after[b].ordinal == rows[b].ordinal);
            }
            assert forall|o: IngressOrdinal| #[trigger]
                self.newly_ready().contains(o) == (old(self).newly_ready().contains(o)
                    || released_by(rows, event, o)) by {
                lemma_released_all(rows, event, o);
            }
            assert forall|o: IngressOrdinal| #[trigger]
                self.newly_ready().contains(o) implies is_unblocked(after, o) by {
                if old(self).newly_ready().contains(o) {
                    let k = choose|k: int|
                        0 <= k < rows.len() && (#[trigger] rows[k]).ordinal == o
                            && rows[k].unblocked();
                    discharging_never_blocks(rows[k], event);
                    assert(after[k] == rows[k].after(event));
                } else {
                    let k = choose|k: int|
                        0 <= k < rows.len() && (#[trigger] rows[k]).ordinal == o
                            && !rows[k].unblocked() && rows[k].after(event).unblocked();
                    assert(after[k] == rows[k].after(event));
                }
            }
        }
    }

    /// Publish a stamp value without completing a transaction.
    ///
    /// The slot keeps the later value in the wrapping order, so it advances
    /// past a wrap and never goes backwards.
    pub fn publish(&mut self, stamp: CompletionStamp)
        requires
            old(self).wf(),
        ensures
            final(self).wf(),
            final(self).stamps() == old(self).stamps().insert(
                stamp.slot,
                slot_after(old(self).stamps(), stamp),
            ),
            final(self).rows() == all_after(
                old(self).rows(),
                Discharge::Published(stamp.slot, slot_after(old(self).stamps(), stamp)),
            ),
            forall|o: IngressOrdinal| #[trigger]
                final(self).newly_ready().contains(o) == (old(self).newly_ready().contains(o)
                    || released_by(
                    old(self).rows(),
                    Discharge::Published(stamp.slot, slot_after(old(self).stamps(), stamp)),
                    o,
                )),
            final(self).state() == old(self).state().published(stamp),
    {
        let ghost rows = self.rows();
        let value = match self.published_value(stamp.slot) {
            Some(v) => v.later(stamp.value),
            None => stamp.value,
        };
        self.published.insert(stamp.slot, value);
        assert(self.rows() == rows);
        let event = Discharge::Published(stamp.slot, value);
        self.discharge(event);
        proof {
            lemma_event_keeps_hazards(rows, event);
            lemma_publication_keeps_stamps(rows, old(self).stamps(), stamp.slot, value);
        }
    }

    /// A pipeline finished building: release what was held for it.
    pub fn pipeline_ready(&mut self, pipeline: ResourceId)
        requires
            old(self).wf(),
        ensures
            final(self).wf(),
            final(self).stamps() == old(self).stamps(),
            final(self).rows() == all_after(old(self).rows(), Discharge::Built(pipeline)),
            forall|o: IngressOrdinal| #[trigger]
                final(self).newly_ready().contains(o) == (old(self).newly_ready().contains(o)
                    || released_by(old(self).rows(), Discharge::Built(pipeline), o)),
            final(self).state() == old(self).state().after(Discharge::Built(pipeline)),
    {
        let ghost rows = self.rows();
        let event = Discharge::Built(pipeline);
        self.discharge(event);
        proof {
            lemma_event_keeps_hazards(rows, event);
            lemma_event_keeps_stamps(rows, self.stamps(), event);
        }
    }

    /// A pipeline will never build: the transactions that can therefore never
    /// be ready, in arrival order.
    ///
    /// They are neither made ready nor dropped; the caller withdraws each one.
    #[must_use]
    pub fn pipeline_refused(&self, pipeline: ResourceId) -> (stranded: Vec<IngressOrdinal>)
        requires
            self.wf(),
        ensures
            crate::ordinal_set::ascending(stranded@),
            forall|o: IngressOrdinal| #[trigger]
                stranded@.contains(o) == (exists|i: int|
                    0 <= i < self.rows().len() && (#[trigger] self.rows()[i]).ordinal == o
                        && self.rows()[i].pipelines.contains(pipeline)),
    {
        let mut stranded = OrdinalSet::new();
        let mut i: usize = 0;
        while i < self.pending.len()
            invariant
                self.wf(),
                i <= self.pending@.len(),
                stranded.wf(),
                forall|o: IngressOrdinal| #[trigger]
                    stranded@.contains(o) == (exists|j: int|
                        0 <= j < i && (#[trigger] self.rows()[j]).ordinal == o
                            && self.rows()[j].pipelines.contains(pipeline)),
            decreases self.pending.len() - i,
        {
            let ghost before = stranded@;
            assert(self.rows()[i as int] == self.pending@[i as int]@);
            if holds(&self.pending[i].pipelines, pipeline) {
                let _ = stranded.insert(self.pending[i].ordinal);
            }
            proof {
                assert forall|o: IngressOrdinal| #[trigger]
                    stranded@.contains(o) == (exists|j: int|
                        0 <= j < i + 1 && (#[trigger] self.rows()[j]).ordinal == o
                            && self.rows()[j].pipelines.contains(pipeline)) by {
                    if before.contains(o) {
                        let j = choose|j: int|
                            0 <= j < i && (#[trigger] self.rows()[j]).ordinal == o
                                && self.rows()[j].pipelines.contains(pipeline);
                        assert(self.rows()[j].ordinal == o);
                    }
                    if stranded@.contains(o) && !before.contains(o) {
                        assert(self.rows()[i as int].ordinal == o);
                    }
                }
            }
            i = i + 1;
        }
        stranded.into_vec()
    }

    /// How many outstanding transactions wait for a pipeline.
    #[must_use]
    pub fn waiting_on_pipelines(&self) -> (n: usize)
        ensures
            n == self.rows().filter(|r: Waiting| r.pipelines.len() > 0).len(),
    {
        let ghost p = |r: Waiting| r.pipelines.len() > 0;
        let mut n: usize = 0;
        let mut i: usize = 0;
        proof {
            lemma_filter_empty(self.rows(), p);
        }
        while i < self.pending.len()
            invariant
                i <= self.pending@.len(),
                n <= i,
                p == (|r: Waiting| r.pipelines.len() > 0),
                n == self.rows().take(i as int).filter(p).len(),
            decreases self.pending.len() - i,
        {
            proof {
                lemma_filter_step(self.rows(), p, i as int);
                assert(self.rows()[i as int] == self.pending@[i as int]@);
            }
            if self.pending[i].pipelines.len() > 0 {
                n = n + 1;
            }
            i = i + 1;
        }
        assert(self.rows().take(i as int) =~= self.rows());
        n
    }

    /// Take the transactions that have become ready since the last call.
    pub fn take_ready(&mut self) -> (taken: Vec<IngressOrdinal>)
        requires
            old(self).wf(),
        ensures
            final(self).wf(),
            taken@ == old(self).newly_ready(),
            crate::ordinal_set::ascending(taken@),
            final(self).newly_ready() == Seq::<IngressOrdinal>::empty(),
            final(self).rows() == old(self).rows(),
            final(self).stamps() == old(self).stamps(),
            final(self).state() == old(self).state().taken(),
    {
        let taken = self.ready.to_vec();
        self.ready = OrdinalSet::new();
        taken
    }

    /// Admitted transactions that have not completed.
    #[must_use]
    pub fn pending(&self) -> (n: usize)
        ensures
            n == self.rows().len(),
    {
        self.pending.len()
    }

    /// Transactions waiting on a stamp point no admitted transaction will ever
    /// publish, in arrival order.
    ///
    /// A diagnosis of what has been admitted and not a timeout: it does not
    /// depend on how long anyone waited, and nothing is cancelled.
    #[must_use]
    pub fn stalled(&self) -> (out: Vec<IngressOrdinal>)
        requires
            self.wf(),
        ensures
            crate::ordinal_set::ascending(out@),
            forall|o: IngressOrdinal| #[trigger]
                out@.contains(o) == (exists|i: int|
                    0 <= i < self.rows().len() && (#[trigger] self.rows()[i]).ordinal == o
                        && unanswerable(self.rows(), self.rows()[i])),
    {
        let mut out = OrdinalSet::new();
        let mut i: usize = 0;
        while i < self.pending.len()
            invariant
                self.wf(),
                i <= self.pending@.len(),
                out.wf(),
                forall|o: IngressOrdinal| #[trigger]
                    out@.contains(o) == (exists|j: int|
                        0 <= j < i && (#[trigger] self.rows()[j]).ordinal == o && unanswerable(
                            self.rows(),
                            self.rows()[j],
                        )),
            decreases self.pending.len() - i,
        {
            let ghost before = out@;
            assert(self.rows()[i as int] == self.pending@[i as int]@);
            if self.has_unanswerable(i) {
                let _ = out.insert(self.pending[i].ordinal);
            }
            proof {
                assert forall|o: IngressOrdinal| #[trigger]
                    out@.contains(o) == (exists|j: int|
                        0 <= j < i + 1 && (#[trigger] self.rows()[j]).ordinal == o && unanswerable(
                            self.rows(),
                            self.rows()[j],
                        )) by {
                    if before.contains(o) {
                        let j = choose|j: int|
                            0 <= j < i && (#[trigger] self.rows()[j]).ordinal == o && unanswerable(
                                self.rows(),
                                self.rows()[j],
                            );
                        assert(self.rows()[j].ordinal == o);
                    }
                    if out@.contains(o) && !before.contains(o) {
                        assert(self.rows()[i as int].ordinal == o);
                    }
                }
            }
            i = i + 1;
        }
        out.into_vec()
    }

    /// Whether a row waits for a point no admitted transaction will publish.
    fn has_unanswerable(&self, i: usize) -> (stuck: bool)
        requires
            i < self.rows().len(),
        ensures
            stuck == unanswerable(self.rows(), self.rows()[i as int]),
    {
        let row = &self.pending[i];
        assert(self.rows()[i as int] == row@);
        let mut k: usize = 0;
        while k < row.stamps.len()
            invariant
                k <= row.stamps@.len(),
                self.rows()[i as int] == row@,
                forall|j: int|
                    0 <= j < k ==> (#[trigger] row@.stamps[j]).met_by(
                        publishable(self.rows(), row@.stamps[j].slot),
                    ),
            decreases row.stamps.len() - k,
        {
            let w = row.stamps[k];
            assert(row@.stamps[k as int] == w);
            if !w.satisfied_by(self.highest(w.slot)) {
                return true;
            }
            k = k + 1;
        }
        false
    }

    /// The highest value admitted transactions will publish into a slot.
    fn highest(&self, slot: StampSlot) -> (v: Option<StampValue>)
        ensures
            v == publishable(self.rows(), slot),
    {
        let mut v: Option<StampValue> = None;
        let mut i: usize = 0;
        while i < self.pending.len()
            invariant
                i <= self.pending@.len(),
                v == publishable(self.rows().take(i as int), slot),
            decreases self.pending.len() - i,
        {
            proof {
                assert(self.rows().take(i + 1).drop_last() =~= self.rows().take(i as int));
                assert(self.rows()[i as int] == self.pending@[i as int]@);
            }
            match self.pending[i].completion {
                Some(c) => {
                    if c.slot.0 == slot.0 {
                        v = match v {
                            Some(held) => Some(held.later(c.value)),
                            None => Some(c.value),
                        };
                    }
                },
                None => {},
            }
            i = i + 1;
        }
        assert(self.rows().take(i as int) =~= self.rows());
        v
    }
}

fn holds(ids: &Vec<ResourceId>, id: ResourceId) -> (held: bool)
    ensures
        held == ids@.contains(id),
{
    let mut i: usize = 0;
    while i < ids.len()
        invariant
            i <= ids@.len(),
            forall|j: int| 0 <= j < i ==> #[trigger] ids@[j] != id,
        decreases ids.len() - i,
    {
        if ids[i] == id {
            assert(ids@[i as int] == id);
            return true;
        }
        i = i + 1;
    }
    false
}

/// An event changes what rows wait for and not which rows there are.
pub proof fn lemma_pending_after(rows: Seq<Waiting>, event: Discharge, o: IngressOrdinal)
    ensures
        is_pending(all_after(rows, event), o) == is_pending(rows, o),
{
    let after = all_after(rows, event);
    if is_pending(rows, o) {
        let i = choose|i: int| 0 <= i < rows.len() && (#[trigger] rows[i]).ordinal == o;
        assert(after[i].ordinal == o);
    }
    if is_pending(after, o) {
        let i = choose|i: int| 0 <= i < after.len() && (#[trigger] after[i]).ordinal == o;
        assert(rows[i].ordinal == o);
    }
}

/// Completing takes one row out and no other.
pub proof fn lemma_pending_completed(state: Readiness, gone: IngressOrdinal, o: IngressOrdinal)
    requires
        rows_ascending(state.rows),
        is_pending(state.rows, gone),
    ensures
        is_pending(state.completed(gone).rows, o) == (is_pending(state.rows, o) && o != gone),
{
    let rows = state.rows;
    let at = choose|i: int| 0 <= i < rows.len() && (#[trigger] rows[i]).ordinal == gone;
    lemma_rows_without(rows, at);
    let left = rows.remove(at);
    lemma_pending_after(left, Discharge::Completed(gone), o);
    if is_pending(left, o) {
        let i = choose|i: int| 0 <= i < left.len() && (#[trigger] left[i]).ordinal == o;
        let k = if i < at { i } else { i + 1 };
        assert(rows[k].ordinal == o);
        if k < at {
            assert(rows[k].ordinal.0 < rows[at].ordinal.0);
        } else {
            assert(rows[at].ordinal.0 < rows[k].ordinal.0);
        }
    }
    if is_pending(rows, o) && o != gone {
        let i = choose|i: int| 0 <= i < rows.len() && (#[trigger] rows[i]).ordinal == o;
        assert(left[if i < at { i } else { i - 1 }].ordinal == o);
    }
}

/// Accepting adds one row and no other.
pub proof fn lemma_pending_with(rows: Seq<Waiting>, row: Waiting, o: IngressOrdinal)
    ensures
        is_pending(rows_with(rows, row), o) == (is_pending(rows, o) || o == row.ordinal),
    decreases rows.len(),
{
    let after = rows_with(rows, row);
    if rows.len() == 0 || rows.last().ordinal.0 < row.ordinal.0 {
        assert(after[after.len() - 1] == row);
        if is_pending(rows, o) {
            let i = choose|i: int| 0 <= i < rows.len() && (#[trigger] rows[i]).ordinal == o;
            assert(after[i].ordinal == o);
        }
        if is_pending(after, o) {
            let i = choose|i: int| 0 <= i < after.len() && (#[trigger] after[i]).ordinal == o;
            if i < rows.len() {
                assert(rows[i].ordinal == o);
            }
        }
    } else {
        let init = rows.drop_last();
        let before = rows_with(init, row);
        lemma_pending_with(init, row, o);
        assert(after == before.push(rows.last()));
        assert(after[before.len() as int] == rows.last());
        if is_pending(before, o) {
            let i = choose|i: int| 0 <= i < before.len() && (#[trigger] before[i]).ordinal == o;
            assert(after[i].ordinal == o);
        }
        if is_pending(init, o) {
            let i = choose|i: int| 0 <= i < init.len() && (#[trigger] init[i]).ordinal == o;
            assert(rows[i].ordinal == o);
        }
        if is_pending(rows, o) {
            let i = choose|i: int| 0 <= i < rows.len() && (#[trigger] rows[i]).ordinal == o;
            if i < init.len() {
                assert(init[i].ordinal == o);
            }
        }
        if is_pending(after, o) {
            let i = choose|i: int| 0 <= i < after.len() && (#[trigger] after[i]).ordinal == o;
            if i < before.len() {
                assert(before[i].ordinal == o);
            } else {
                assert(rows[rows.len() - 1].ordinal == o);
            }
        }
    }
}

/// Publishing changes no row's place.
pub proof fn lemma_announced_pending(readiness: Readiness, releases: Seq<Release>, o: IngressOrdinal)
    ensures
        is_pending(announced(readiness, releases).rows, o)
            == is_pending(readiness.rows, o),
    decreases releases.len(),
{
    if releases.len() > 0 {
        lemma_announced_pending(readiness, releases.drop_last(), o);
        let before = announced(readiness, releases.drop_last());
        match releases.last().stamp {
            Some(stamp) => {
                lemma_pending_after(
                    before.rows,
                    Discharge::Published(
                        stamp.slot,
                        slot_after(before.stamps, stamp),
                    ),
                    o,
                );
            },
            None => {},
        }
    }
}

/// What the ready transactions are has no say in what publishing does.
pub proof fn lemma_announced_same(a: Readiness, b: Readiness, releases: Seq<Release>)
    requires
        a.rows == b.rows,
        a.stamps == b.stamps,
    ensures
        announced(a, releases).rows == announced(b, releases).rows,
        announced(a, releases).stamps == announced(b, releases).stamps,
    decreases releases.len(),
{
    if releases.len() > 0 {
        lemma_announced_same(a, b, releases.drop_last());
    }
}

/// The row of a transaction says what it owes.
pub proof fn lemma_owed(state: Readiness, at: int)
    requires
        rows_ascending(state.rows),
        0 <= at < state.rows.len(),
    ensures
        state.owed_by(state.rows[at].ordinal) == state.rows[at].completion,
{
    let o = state.rows[at].ordinal;
    assert(row_at(state.rows, o, at));
    let i = choose|i: int| row_at(state.rows, o, i);
    if i < at {
        assert(state.rows[i].ordinal.0 < state.rows[at].ordinal.0);
    } else if at < i {
        assert(state.rows[at].ordinal.0 < state.rows[i].ordinal.0);
    }
}

/// The event released the transaction, looking at the first `n` rows.
spec fn released_before(rows: Seq<Waiting>, event: Discharge, o: IngressOrdinal, n: int) -> bool {
    exists|i: int|
        0 <= i < n && i < rows.len() && (#[trigger] rows[i]).ordinal == o && !rows[i].unblocked()
            && rows[i].after(event).unblocked()
}

proof fn lemma_released_step(rows: Seq<Waiting>, event: Discharge, o: IngressOrdinal, i: int)
    requires
        0 <= i < rows.len(),
    ensures
        released_before(rows, event, o, i + 1) == (released_before(rows, event, o, i) || (
        rows[i].ordinal == o && !rows[i].unblocked() && rows[i].after(event).unblocked())),
{
    if released_before(rows, event, o, i) {
        let j = choose|j: int|
            0 <= j < i && j < rows.len() && (#[trigger] rows[j]).ordinal == o
                && !rows[j].unblocked() && rows[j].after(event).unblocked();
        assert(rows[j].ordinal == o);
    }
}

proof fn lemma_released_all(rows: Seq<Waiting>, event: Discharge, o: IngressOrdinal)
    ensures
        released_before(rows, event, o, rows.len() as int) == released_by(rows, event, o),
{
}

/// A filtered element satisfies the filter and was in the sequence.
proof fn lemma_filtered<A>(s: Seq<A>, p: spec_fn(A) -> bool, k: int)
    requires
        0 <= k < s.filter(p).len(),
    ensures
        p(s.filter(p)[k]),
        s.contains(s.filter(p)[k]),
    decreases s.len(),
{
    reveal(Seq::filter);
    if s.len() > 0 {
        let init = s.drop_last();
        let rest = init.filter(p);
        if k < rest.len() {
            lemma_filtered(init, p, k);
            assert(s.filter(p)[k] == rest[k]);
            let j = choose|j: int| 0 <= j < init.len() && init[j] == rest[k];
            assert(s[j] == rest[k]);
        } else {
            assert(s[s.len() - 1] == s.filter(p)[k]);
        }
    }
}

/// A row stands after the smaller ordinals and before the larger ones.
proof fn lemma_rows_with(rows: Seq<Waiting>, row: Waiting, at: int)
    requires
        0 <= at <= rows.len(),
        forall|j: int| 0 <= j < at ==> (#[trigger] rows[j]).ordinal.0 < row.ordinal.0,
        forall|j: int| at <= j < rows.len() ==> (#[trigger] rows[j]).ordinal.0 > row.ordinal.0,
    ensures
        rows_with(rows, row) == rows.insert(at, row),
    decreases rows.len(),
{
    if at == rows.len() {
        if rows.len() > 0 {
            assert(rows[rows.len() - 1].ordinal.0 < row.ordinal.0);
        }
        assert(rows.insert(at, row) =~= rows.push(row));
    } else {
        let init = rows.drop_last();
        assert(rows[rows.len() - 1].ordinal.0 > row.ordinal.0);
        assert forall|j: int| 0 <= j < at implies (#[trigger] init[j]).ordinal.0 < row.ordinal.0 by {
            assert(init[j] == rows[j]);
        }
        assert forall|j: int| at <= j < init.len() implies (#[trigger] init[j]).ordinal.0
            > row.ordinal.0 by {
            assert(init[j] == rows[j]);
        }
        lemma_rows_with(init, row, at);
        assert(rows.insert(at, row) =~= init.insert(at, row).push(rows.last()));
    }
}

/// A new row leaves the others as they were.
proof fn lemma_insert_keeps(
    rows: Seq<Waiting>,
    published: Map<StampSlot, StampValue>,
    ready: Seq<IngressOrdinal>,
    row: Waiting,
    at: int,
)
    requires
        rows_ascending(rows),
        hazards_outstanding(rows),
        stamps_unmet(rows, published),
        ready_unblocked(rows, ready),
        0 <= at <= rows.len(),
        forall|j: int| 0 <= j < at ==> (#[trigger] rows[j]).ordinal.0 < row.ordinal.0,
        forall|j: int| at <= j < rows.len() ==> (#[trigger] rows[j]).ordinal.0 > row.ordinal.0,
        forall|o: IngressOrdinal| #[trigger] row.hazards.contains(o) ==> is_pending(rows, o),
        forall|k: int|
            0 <= k < row.stamps.len() ==> !(#[trigger] row.stamps[k]).met_by(
                standing(published, row.stamps[k].slot),
            ),
    ensures
        rows_ascending(rows.insert(at, row)),
        hazards_outstanding(rows.insert(at, row)),
        stamps_unmet(rows.insert(at, row), published),
        forall|o: IngressOrdinal| #[trigger]
            ready.contains(o) ==> is_unblocked(rows.insert(at, row), o),
        row.unblocked() ==> is_unblocked(rows.insert(at, row), row.ordinal),
{
    let after = rows.insert(at, row);
    assert(after[at] == row);
    assert forall|o: IngressOrdinal| is_pending(rows, o) implies is_pending(after, o) by {
        let i = choose|i: int| 0 <= i < rows.len() && (#[trigger] rows[i]).ordinal == o;
        assert(after[if i < at { i } else { i + 1 }] == rows[i]);
    }
    assert forall|i: int, j: int| 0 <= i < j < after.len() implies (
    #[trigger] after[i]).ordinal.0 < (#[trigger] after[j]).ordinal.0 by {
        let x = if i < at { i } else { i - 1 };
        let y = if j < at { j } else { j - 1 };
        if i != at {
            assert(after[i] == rows[x]);
        }
        if j != at {
            assert(after[j] == rows[y]);
        }
        if i != at && j != at {
            assert(rows[x].ordinal.0 < rows[y].ordinal.0);
        }
    }
    assert forall|i: int, o: IngressOrdinal|
        0 <= i < after.len() && #[trigger] after[i].hazards.contains(o) implies is_pending(after, o) by {
        if i != at {
            let x = if i < at { i } else { i - 1 };
            assert(after[i] == rows[x]);
            assert(rows[x].hazards.contains(o));
        }
    }
    assert forall|i: int, k: int|
        0 <= i < after.len() && 0 <= k < after[i].stamps.len() implies !(
    #[trigger] after[i].stamps[k]).met_by(standing(published, after[i].stamps[k].slot)) by {
        if i != at {
            let x = if i < at { i } else { i - 1 };
            assert(after[i] == rows[x]);
            assert(!rows[x].stamps[k].met_by(standing(published, rows[x].stamps[k].slot)));
        }
    }
    assert forall|o: IngressOrdinal| #[trigger] ready.contains(o) implies is_unblocked(after, o) by {
        let i = choose|i: int|
            0 <= i < rows.len() && (#[trigger] rows[i]).ordinal == o && rows[i].unblocked();
        assert(after[if i < at { i } else { i + 1 }] == rows[i]);
    }
}

/// Taking a row out leaves the others as they were.
proof fn lemma_remove_keeps(
    rows: Seq<Waiting>,
    published: Map<StampSlot, StampValue>,
    ready: Seq<IngressOrdinal>,
    at: int,
)
    requires
        rows_ascending(rows),
        stamps_unmet(rows, published),
        ready_unblocked(rows, ready),
        0 <= at < rows.len(),
    ensures
        rows_ascending(rows.remove(at)),
        stamps_unmet(rows.remove(at), published),
        forall|o: IngressOrdinal| #[trigger]
            ready.contains(o) && o != rows[at].ordinal ==> is_unblocked(rows.remove(at), o),
{
    let after = rows.remove(at);
    assert forall|i: int, j: int| 0 <= i < j < after.len() implies (
    #[trigger] after[i]).ordinal.0 < (#[trigger] after[j]).ordinal.0 by {
        let x = if i < at { i } else { i + 1 };
        let y = if j < at { j } else { j + 1 };
        assert(after[i] == rows[x] && after[j] == rows[y]);
    }
    assert forall|i: int, k: int|
        0 <= i < after.len() && 0 <= k < after[i].stamps.len() implies !(
    #[trigger] after[i].stamps[k]).met_by(standing(published, after[i].stamps[k].slot)) by {
        let x = if i < at { i } else { i + 1 };
        assert(after[i] == rows[x]);
        assert(!rows[x].stamps[k].met_by(standing(published, rows[x].stamps[k].slot)));
    }
    assert forall|o: IngressOrdinal| #[trigger]
        ready.contains(o) && o != rows[at].ordinal implies is_unblocked(after, o) by {
        let i = choose|i: int|
            0 <= i < rows.len() && (#[trigger] rows[i]).ordinal == o && rows[i].unblocked();
        assert(after[if i < at { i } else { i - 1 }] == rows[i]);
    }
}

/// Once the transaction that completed is gone, every hazard that is left names
/// one that is not.
proof fn lemma_completion_keeps_hazards(rows: Seq<Waiting>, at: int)
    requires
        hazards_outstanding(rows),
        0 <= at < rows.len(),
    ensures
        hazards_outstanding(
            all_after(rows.remove(at), Discharge::Completed(rows[at].ordinal)),
        ),
{
    let event = Discharge::Completed(rows[at].ordinal);
    let gone = rows.remove(at);
    let after = all_after(gone, event);
    assert forall|i: int, o: IngressOrdinal|
        0 <= i < after.len() && #[trigger] after[i].hazards.contains(o) implies is_pending(after, o) by {
        let x = if i < at { i } else { i + 1 };
        assert(after[i] == gone[i].after(event) && gone[i] == rows[x]);
        assert(rows[x].hazards.contains(o));
        let j = choose|j: int| 0 <= j < rows.len() && (#[trigger] rows[j]).ordinal == o;
        let y = if j < at { j } else { j - 1 };
        assert(after[y] == gone[y].after(event) && gone[y] == rows[j]);
    }
}

/// What an event leaves still names only outstanding transactions.
proof fn lemma_event_keeps_hazards(rows: Seq<Waiting>, event: Discharge)
    requires
        hazards_outstanding(rows),
    ensures
        hazards_outstanding(all_after(rows, event)),
{
    let after = all_after(rows, event);
    assert forall|i: int, o: IngressOrdinal|
        0 <= i < after.len() && #[trigger] after[i].hazards.contains(o) implies is_pending(after, o) by {
        assert(after[i] == rows[i].after(event));
        assert(rows[i].hazards.contains(o));
        let j = choose|j: int| 0 <= j < rows.len() && (#[trigger] rows[j]).ordinal == o;
        assert(after[j] == rows[j].after(event));
    }
}

/// What an event leaves of the stamp waits is still unanswered.
proof fn lemma_event_keeps_stamps(
    rows: Seq<Waiting>,
    published: Map<StampSlot, StampValue>,
    event: Discharge,
)
    requires
        stamps_unmet(rows, published),
        !(event is Published),
    ensures
        stamps_unmet(all_after(rows, event), published),
{
    let after = all_after(rows, event);
    assert forall|i: int, k: int|
        0 <= i < after.len() && 0 <= k < after[i].stamps.len() implies !(
    #[trigger] after[i].stamps[k]).met_by(standing(published, after[i].stamps[k].slot)) by {
        assert(after[i] == rows[i].after(event));
        assert(!rows[i].stamps[k].met_by(standing(published, rows[i].stamps[k].slot)));
    }
}

/// The waits a publication leaves are those the slot's new value does not
/// answer.
proof fn lemma_publication_keeps_stamps(
    rows: Seq<Waiting>,
    published: Map<StampSlot, StampValue>,
    slot: StampSlot,
    value: StampValue,
)
    requires
        stamps_unmet(rows, published),
    ensures
        stamps_unmet(
            all_after(rows, Discharge::Published(slot, value)),
            published.insert(slot, value),
        ),
{
    let event = Discharge::Published(slot, value);
    let after = all_after(rows, event);
    let now = published.insert(slot, value);
    assert forall|i: int, k: int|
        0 <= i < after.len() && 0 <= k < after[i].stamps.len() implies !(
    #[trigger] after[i].stamps[k]).met_by(standing(now, after[i].stamps[k].slot)) by {
        assert(after[i] == rows[i].after(event));
        lemma_filtered(rows[i].stamps, |w: StampWait| !point_met(w, slot, value), k);
        let w = after[i].stamps[k];
        let m = choose|m: int| 0 <= m < rows[i].stamps.len() && rows[i].stamps[m] == w;
        assert(!rows[i].stamps[m].met_by(standing(published, rows[i].stamps[m].slot)));
    }
}

/// Whether completing one transaction releases another does not depend on the
/// completed row.
proof fn lemma_release_ignores_own_row(rows: Seq<Waiting>, at: int, o: IngressOrdinal)
    requires
        rows_ascending(rows),
        0 <= at < rows.len(),
    ensures
        ({
            let event = Discharge::Completed(rows[at].ordinal);
            released_by(rows.remove(at), event, o) == (o != rows[at].ordinal && released_by(
                rows,
                event,
                o,
            ))
        }),
{
    let event = Discharge::Completed(rows[at].ordinal);
    let gone = rows.remove(at);
    if released_by(gone, event, o) {
        let i = choose|i: int|
            0 <= i < gone.len() && (#[trigger] gone[i]).ordinal == o && !gone[i].unblocked()
                && gone[i].after(event).unblocked();
        let x = if i < at { i } else { i + 1 };
        assert(gone[i] == rows[x]);
        if x < at {
            assert(rows[x].ordinal.0 < rows[at].ordinal.0);
        } else {
            assert(rows[at].ordinal.0 < rows[x].ordinal.0);
        }
    }
    if o != rows[at].ordinal && released_by(rows, event, o) {
        let i = choose|i: int|
            0 <= i < rows.len() && (#[trigger] rows[i]).ordinal == o && !rows[i].unblocked()
                && rows[i].after(event).unblocked();
        assert(gone[if i < at { i } else { i - 1 }] == rows[i]);
    }
}

/// Taking the one row with an ordinal out is removing it.
pub proof fn lemma_rows_without(rows: Seq<Waiting>, i: int)
    requires
        rows_ascending(rows),
        0 <= i < rows.len(),
    ensures
        rows_without(rows, rows[i].ordinal) == rows.remove(i),
    decreases rows.len(),
{
    let o = rows[i].ordinal;
    reveal(Seq::filter);
    let init = rows.drop_last();
    if i == rows.len() - 1 {
        lemma_no_row(init, o);
        assert(rows.remove(i) =~= init);
    } else {
        assert(init[i] == rows[i]);
        lemma_rows_without(init, i);
        assert(rows[i].ordinal.0 < rows[rows.len() - 1].ordinal.0);
        assert(rows.remove(i) =~= init.remove(i).push(rows.last()));
    }
}

proof fn lemma_no_row(rows: Seq<Waiting>, o: IngressOrdinal)
    requires
        forall|k: int| 0 <= k < rows.len() ==> (#[trigger] rows[k]).ordinal != o,
    ensures
        rows_without(rows, o) == rows,
    decreases rows.len(),
{
    reveal(Seq::filter);
    if rows.len() > 0 {
        let init = rows.drop_last();
        assert(rows[rows.len() - 1].ordinal != o);
        assert forall|k: int| 0 <= k < init.len() implies (#[trigger] init[k]).ordinal != o by {
            assert(init[k] == rows[k]);
        }
        lemma_no_row(init, o);
        assert(init.push(rows.last()) =~= rows);
    }
}

/// A transaction with nothing left to wait for never has something to wait for
/// again, so it becomes ready at most once.
pub proof fn discharging_never_blocks(row: Waiting, event: Discharge)
    requires
        row.unblocked(),
    ensures
        row.after(event).unblocked(),
{
    reveal(Seq::filter);
    match event {
        Discharge::Completed(o) => {
            assert(row.hazards.remove(o) =~= Set::<IngressOrdinal>::empty());
        },
        _ => {},
    }
}

/// Completion is not publication: a transaction waiting for a stamp is not
/// released by any completion, only by the slot reaching the value.
pub proof fn a_stamp_waiter_is_released_only_by_publication(row: Waiting, event: Discharge)
    requires
        row.stamps.len() > 0,
        !(event is Published),
    ensures
        !row.after(event).unblocked(),
{
}

/// A hazard dependent stays held until the transaction it names completes.
pub proof fn a_hazard_dependent_waits_for_the_work(
    row: Waiting,
    o: IngressOrdinal,
    event: Discharge,
)
    requires
        row.hazards.contains(o),
        event != Discharge::Completed(o),
    ensures
        !row.after(event).unblocked(),
{
    assert(row.after(event).hazards.contains(o));
}

pub(crate) proof fn lemma_kept_by<A>(s: Seq<A>, p: spec_fn(A) -> bool, x: A)
    ensures
        s.filter(p).contains(x) == (s.contains(x) && p(x)),
    decreases s.len(),
{
    reveal(Seq::filter);
    if s.len() > 0 {
        let init = s.drop_last();
        let kept = init.filter(p);
        let out = s.filter(p);
        lemma_kept_by(init, p, x);
        assert(s == init.push(s.last()));
        if s.contains(x) {
            let k = choose|k: int| 0 <= k < s.len() && s[k] == x;
            if k < init.len() {
                assert(init[k] == x);
            }
        }
        if init.contains(x) {
            let k = choose|k: int| 0 <= k < init.len() && init[k] == x;
            assert(s[k] == x);
        }
        assert(s[s.len() - 1] == s.last());
        if kept.contains(x) {
            let k = choose|k: int| 0 <= k < kept.len() && kept[k] == x;
            assert(out[k] == x);
        }
        if p(s.last()) {
            assert(out[kept.len() as int] == s.last());
        }
        if out.contains(x) {
            let k = choose|k: int| 0 <= k < out.len() && out[k] == x;
            if k < kept.len() {
                assert(kept[k] == x);
            }
        }
    }
}

/// A newly accepted transaction waits for exactly what has not happened: the
/// hazards whose transactions are outstanding, the stamps whose slots stand
/// short of them, and every pipeline it was given.
pub proof fn an_accepted_transaction_waits_for_what_has_not_happened(
    service: Readiness,
    ordinal: IngressOrdinal,
    hazards: Seq<IngressOrdinal>,
    stamps: Seq<StampWait>,
    pipelines: Seq<ResourceId>,
    completion: Option<CompletionStamp>,
    o: IngressOrdinal,
    w: StampWait,
)
    ensures
        ({
            let row = service.row_for(ordinal, hazards, stamps, pipelines, completion);
            &&& row.ordinal == ordinal
            &&& row.completion == completion
            &&& row.pipelines == pipelines
            &&& row.hazards.contains(o) == (hazards.contains(o) && exists|i: int|
                0 <= i < service.rows.len() && (#[trigger] service.rows[i]).ordinal == o)
            &&& row.stamps.contains(w) == (stamps.contains(w) && !(service.stamps.dom().contains(
                w.slot,
            ) && (service.stamps[w.slot] == w.value || service.stamps[w.slot].is_after(w.value))))
        }),
{
    lemma_kept_by(stamps, |w: StampWait| !w.met_by(standing(service.stamps, w.slot)), w);
}

/// A transaction with anything left to wait for may not begin, and one with
/// nothing left may.
pub proof fn one_thing_left_holds_a_transaction(row: Waiting, o: IngressOrdinal)
    ensures
        row.hazards.contains(o) ==> !row.unblocked(),
        row.stamps.len() > 0 ==> !row.unblocked(),
        row.pipelines.len() > 0 ==> !row.unblocked(),
        (forall|x: IngressOrdinal| !row.hazards.contains(x)) && row.stamps.len() == 0
            && row.pipelines.len() == 0 ==> row.unblocked(),
{
    if forall|x: IngressOrdinal| !row.hazards.contains(x) {
        assert(row.hazards =~= Set::<IngressOrdinal>::empty());
    }
}

/// A completion answers exactly the hazard on it, a publication exactly the
/// waits its slot has now reached, and a built pipeline exactly the waits for
/// it; nothing else of a transaction's business changes.
pub proof fn an_event_answers_its_own_waits_alone(
    row: Waiting,
    done: IngressOrdinal,
    slot: StampSlot,
    value: StampValue,
    built: ResourceId,
    o: IngressOrdinal,
    w: StampWait,
    p: ResourceId,
)
    ensures
        ({
            let after = row.after(Discharge::Completed(done));
            &&& after.hazards.contains(o) == (row.hazards.contains(o) && o != done)
            &&& after.stamps == row.stamps
            &&& after.pipelines == row.pipelines
            &&& after.ordinal == row.ordinal && after.completion == row.completion
        }),
        ({
            let after = row.after(Discharge::Published(slot, value));
            &&& after.hazards == row.hazards
            &&& after.stamps.contains(w) == (row.stamps.contains(w) && !(w.slot == slot && (value
                == w.value || value.is_after(w.value))))
            &&& after.pipelines == row.pipelines
            &&& after.ordinal == row.ordinal && after.completion == row.completion
        }),
        ({
            let after = row.after(Discharge::Built(built));
            &&& after.hazards == row.hazards
            &&& after.stamps == row.stamps
            &&& after.pipelines.contains(p) == (row.pipelines.contains(p) && p != built)
            &&& after.ordinal == row.ordinal && after.completion == row.completion
        }),
{
    lemma_kept_by(row.stamps, |w: StampWait| !point_met(w, slot, value), w);
    lemma_kept_by(row.pipelines, |x: ResourceId| x != built, p);
}

/// Completing a transaction removes it and no other from what is outstanding.
pub proof fn completing_ends_one_transaction(
    service: Readiness,
    done: IngressOrdinal,
    o: IngressOrdinal,
)
    requires
        rows_ascending(service.rows),
        is_pending(service.rows, done),
    ensures
        is_pending(service.completed(done).rows, o) == (is_pending(service.rows, o) && o != done),
        service.completed(done).stamps == service.stamps,
        !service.completed(done).ready.contains(done),
{
    lemma_pending_completed(service, done, o);
}

/// A transaction that an event left with nothing to wait for becomes ready, one
/// that still has something does not, and one that was ready stays so.
pub proof fn the_last_thing_answered_makes_ready(service: Readiness, event: Discharge, i: int)
    requires
        rows_ascending(service.rows),
        0 <= i < service.rows.len(),
    ensures
        !service.rows[i].unblocked() && service.rows[i].after(event).unblocked()
            ==> service.after(event).ready.contains(service.rows[i].ordinal),
        !service.rows[i].after(event).unblocked() && !service.ready.contains(
            service.rows[i].ordinal,
        ) ==> !service.after(event).ready.contains(service.rows[i].ordinal),
        service.ready.contains(service.rows[i].ordinal) ==> service.after(event).ready.contains(
            service.rows[i].ordinal,
        ),
{
    let o = service.rows[i].ordinal;
    if released_by(service.rows, event, o) {
        let k = choose|k: int|
            0 <= k < service.rows.len() && (#[trigger] service.rows[k]).ordinal == o
                && !service.rows[k].unblocked() && service.rows[k].after(event).unblocked();
        if k < i {
            assert(service.rows[k].ordinal.0 < service.rows[i].ordinal.0);
        } else if i < k {
            assert(service.rows[i].ordinal.0 < service.rows[k].ordinal.0);
        }
    }
}

/// A published slot stands at the later of what it held and what was published,
/// and no other slot moves.
pub proof fn publishing_moves_its_slot_forward(
    service: Readiness,
    stamp: CompletionStamp,
    other: StampSlot,
)
    requires
        other != stamp.slot,
    ensures
        standing(service.published(stamp).stamps, other) == standing(service.stamps, other),
        !service.stamps.dom().contains(stamp.slot) ==> standing(
            service.published(stamp).stamps,
            stamp.slot,
        ) == Some(stamp.value),
        service.stamps.dom().contains(stamp.slot) && stamp.value.is_after(
            service.stamps[stamp.slot],
        ) ==> standing(service.published(stamp).stamps, stamp.slot) == Some(stamp.value),
        service.stamps.dom().contains(stamp.slot) && !stamp.value.is_after(
            service.stamps[stamp.slot],
        ) ==> standing(service.published(stamp).stamps, stamp.slot) == Some(
            service.stamps[stamp.slot],
        ),
{
}

/// A wait for a slot nothing outstanding will stamp is one nobody will answer.
pub proof fn a_wait_no_one_will_stamp_is_unanswerable(rows: Seq<Waiting>, row: Waiting, k: int)
    requires
        0 <= k < row.stamps.len(),
        forall|i: int|
            0 <= i < rows.len() ==> !((#[trigger] rows[i]).completion matches Some(c) && c.slot
                == row.stamps[k].slot),
    ensures
        unanswerable(rows, row),
{
    lemma_nothing_publishable(rows, row.stamps[k].slot);
    assert(!row.stamps[k].met_by(publishable(rows, row.stamps[k].slot)));
}

proof fn lemma_nothing_publishable(rows: Seq<Waiting>, slot: StampSlot)
    requires
        forall|i: int|
            0 <= i < rows.len() ==> !((#[trigger] rows[i]).completion matches Some(c) && c.slot
                == slot),
    ensures
        publishable(rows, slot) is None,
    decreases rows.len(),
{
    if rows.len() > 0 {
        let init = rows.drop_last();
        assert(forall|i: int| 0 <= i < init.len() ==> (#[trigger] init[i]) == rows[i]);
        lemma_nothing_publishable(init, slot);
        assert(rows[rows.len() - 1] == rows.last());
    }
}

/// A wait that the one outstanding stamp of its slot reaches is answerable.
pub proof fn a_wait_someone_will_stamp_is_answerable(rows: Seq<Waiting>, w: StampWait, at: int)
    requires
        0 <= at < rows.len(),
        rows[at].completion matches Some(c) && c.slot == w.slot && (c.value == w.value
            || c.value.is_after(w.value)),
        forall|i: int|
            0 <= i < rows.len() && i != at ==> !((#[trigger] rows[i]).completion matches Some(c)
                && c.slot == w.slot),
    ensures
        w.met_by(publishable(rows, w.slot)),
    decreases rows.len(),
{
    let init = rows.drop_last();
    assert(forall|i: int| 0 <= i < init.len() ==> (#[trigger] init[i]) == rows[i]);
    assert(rows[rows.len() - 1] == rows.last());
    if at == rows.len() - 1 {
        lemma_nothing_publishable(init, w.slot);
    } else {
        a_wait_someone_will_stamp_is_answerable(init, w, at);
    }
}

/// Words are announced one after the other: announcing two lists is announcing
/// the second after the first, a release without a word announces nothing, and
/// one with a word publishes it.
pub proof fn words_are_announced_in_order(
    service: Readiness,
    first: Seq<Release>,
    second: Seq<Release>,
    release: Release,
)
    ensures
        announced(service, first + second) == announced(announced(service, first), second),
        release.stamp is None ==> announced(service, seq![release]) == service,
        release.stamp matches Some(stamp) ==> announced(service, seq![release]) == service.published(
            stamp,
        ),
    decreases second.len(),
{
    let both = first + second;
    if second.len() == 0 {
        assert(both =~= first);
    } else {
        words_are_announced_in_order(service, first, second.drop_last(), release);
        assert(both.drop_last() =~= first + second.drop_last());
        assert(both.last() == second.last());
    }
    let one = seq![release];
    assert(one.drop_last() =~= Seq::<Release>::empty());
    assert(one.last() == release);
    assert(announced(service, one.drop_last()) == service);
}

/// Every slot a word was announced into holds a value.
pub proof fn an_announced_word_reaches_its_slot(
    service: Readiness,
    releases: Seq<Release>,
    k: int,
)
    requires
        0 <= k < releases.len(),
        releases[k].stamp is Some,
    ensures
        announced(service, releases).stamps.dom().contains(releases[k].stamp->0.slot),
    decreases releases.len(),
{
    let rest = releases.drop_last();
    if k < rest.len() {
        an_announced_word_reaches_its_slot(service, rest, k);
    }
}

/// Taking the newly ready leaves none newly ready, and moves nothing else.
pub proof fn taking_leaves_none_newly_ready(service: Readiness, o: IngressOrdinal)
    ensures
        !service.taken().ready.contains(o),
        service.taken().rows == service.rows,
        service.taken().stamps == service.stamps,
{
}

/// A transaction that waits for nothing when it is accepted is newly ready at
/// once; one that waits for something is not, and no other becomes ready.
pub proof fn a_transaction_that_waits_for_nothing_is_ready_at_once(
    service: Readiness,
    row: Waiting,
    other: IngressOrdinal,
)
    requires
        !service.ready.contains(row.ordinal),
    ensures
        service.with_row(row).ready.contains(row.ordinal) <==> row.hazards == Set::<
            IngressOrdinal,
        >::empty() && row.stamps.len() == 0 && row.pipelines.len() == 0,
        other != row.ordinal ==> service.with_row(row).ready.contains(other)
            == service.ready.contains(other),
        service.with_row(row).stamps == service.stamps,
        is_pending(service.with_row(row).rows, row.ordinal),
{
    lemma_pending_with(service.rows, row, row.ordinal);
}

} // verus!
