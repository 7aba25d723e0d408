//! The explicit half of ordering: waits the guest wrote down, and the diagnosis
//! when nothing will ever answer one.
//!
//! A hazard edge always points backwards in arrival order. An explicit wait may
//! name a point nothing has produced yet, so these edges may point forwards and
//! two packets may wait on each other. Both answers here are derived from what
//! has been accepted and not from a clock, and neither cancels anything: a
//! packet that would break a cycle may still arrive.
//!
//! A fence is encoder-scoped and has no producer in another packet, so it is
//! not in this graph.

use vstd::prelude::*;
use crate::exec::{ExecTransaction, Prerequisite, ResolvedOperation, StreamRecord};
use crate::identity::{CompletionStamp, IngressOrdinal, ResourceId, StampSlot, StampValue};
use crate::ordinal_set::OrdinalSet;
use crate::sync::EventKind;
use crate::table::{Table, TableKey};

verus! {

/// A point a transaction waits for.
#[allow(inconsistent_fields)]
#[derive(Clone, Copy, Debug, PartialEq, Eq, Hash, Structural)]
pub enum WaitPoint {
    /// A completion-stamp slot must have reached a value.
    Stamp { slot: StampSlot, value: StampValue },
    /// An event must have reached a value.
    Event { event: ResourceId, value: u64 },
}

/// A point a transaction publishes.
#[allow(inconsistent_fields)]
#[derive(Clone, Copy, Debug, PartialEq, Eq, Hash, Structural)]
pub enum Production {
    Stamp { slot: StampSlot, value: StampValue },
    Event { event: ResourceId, value: u64 },
}

impl Production {
    /// Publishing this answers the wait.
    pub open spec fn answers(self, wait: WaitPoint) -> bool {
        match (self, wait) {
            (
                Production::Stamp { slot: produced, value: at },
                WaitPoint::Stamp { slot: wanted, value: needed },
            ) => produced == wanted && at.has_reached(needed),
            (
                Production::Event { event: produced, value: at },
                WaitPoint::Event { event: wanted, value: needed },
            ) => produced == wanted && at >= needed,
            _ => false,
        }
    }

    /// Whether publishing this discharges `wait`.
    #[must_use]
    pub fn discharges(self, wait: WaitPoint) -> (answers: bool)
        ensures
            answers == self.answers(wait),
    {
        match (self, wait) {
            (
                Production::Stamp { slot: produced, value: at },
                WaitPoint::Stamp { slot: wanted, value: needed },
            ) => produced.0 == wanted.0 && at.reached(needed),
            (
                Production::Event { event: produced, value: at },
                WaitPoint::Event { event: wanted, value: needed },
            ) => produced.same(&wanted) && at >= needed,
            _ => false,
        }
    }
}

/// Why a set of explicit waits cannot be answered.
#[derive(Debug, PartialEq, Eq)]
pub enum Diagnosis {
    /// A waiter names a point that nothing accepted, and nothing already
    /// published, produces.
    Unproduced { waiter: IngressOrdinal, point: WaitPoint },
    /// Transactions wait on each other, so none of them can run first. Members
    /// are in arrival order, and a set of members is reported once.
    Cycle {
        members: Vec<IngressOrdinal>,
        /// One wait that closes the cycle.
        closed_by: WaitPoint,
    },
}

impl Diagnosis {
    #[must_use]
    pub fn slug(&self) -> (slug: &'static str)
        ensures
            slug@ == (match self {
                Diagnosis::Unproduced { .. } => "prereq_unproduced"@,
                Diagnosis::Cycle { .. } => "prereq_cycle"@,
            }),
    {
        match self {
            Diagnosis::Unproduced { .. } => "prereq_unproduced",
            Diagnosis::Cycle { .. } => "prereq_cycle",
        }
    }
}

/// One accepted transaction's explicit waits and productions, mathematically.
#[verifier::ext_equal]
pub struct NodeModel {
    pub ordinal: IngressOrdinal,
    pub waits: Seq<WaitPoint>,
    pub produces: Seq<Production>,
}

/// The wait-for graph, mathematically.
#[verifier::ext_equal]
pub struct WaitModel {
    pub nodes: Seq<NodeModel>,
    /// Points published outside the accepted transactions.
    pub stamps: Map<StampSlot, StampValue>,
    pub events: Map<ResourceId, u64>,
}

/// The point a prerequisite names, if it has producers in other packets.
pub open spec fn point_of(p: Prerequisite) -> Option<WaitPoint> {
    match p {
        Prerequisite::Stamp(w) => Some(WaitPoint::Stamp { slot: w.slot, value: w.value }),
        Prerequisite::Event { event, value } => Some(WaitPoint::Event { event, value }),
        Prerequisite::Fence { .. } => None,
    }
}

/// The points a packet's prerequisites name, in order.
pub open spec fn waits_of(ps: Seq<Prerequisite>) -> Seq<WaitPoint>
    decreases ps.len(),
{
    if ps.len() == 0 {
        Seq::empty()
    } else {
        match point_of(ps.last()) {
            Some(w) => waits_of(ps.drop_last()).push(w),
            None => waits_of(ps.drop_last()),
        }
    }
}

/// What an operation signals, if anything.
pub open spec fn signal_of(op: ResolvedOperation) -> Option<Production> {
    match op {
        ResolvedOperation::Event(e) => if e.kind is Signal {
            Some(Production::Event { event: e.event, value: e.value })
        } else {
            None
        },
        _ => None,
    }
}

/// What records signal, in order.
pub open spec fn signals_of(records: Seq<StreamRecord>) -> Seq<Production>
    decreases records.len(),
{
    if records.len() == 0 {
        Seq::empty()
    } else {
        match signal_of(records.last().op) {
            Some(p) => signals_of(records.drop_last()).push(p),
            None => signals_of(records.drop_last()),
        }
    }
}

/// What a completion stamp produces.
pub open spec fn stamp_of(stamp: Option<CompletionStamp>) -> Seq<Production> {
    match stamp {
        Some(s) => seq![Production::Stamp { slot: s.slot, value: s.value }],
        None => Seq::empty(),
    }
}

/// A transaction's waits and productions: its completion stamp, then its
/// signals. A signal is a production of the whole packet, because the packet's
/// completion is the earliest point another packet may rely on it.
pub open spec fn node_of(tx: ExecTransaction) -> NodeModel {
    NodeModel {
        ordinal: tx.ingress,
        waits: waits_of(tx.prerequisites@),
        produces: stamp_of(tx.publication.stamp) + signals_of(crate::exec::all_records(tx.streams@)),
    }
}

/// One of the productions answers the wait.
pub open spec fn some_answers(produces: Seq<Production>, wait: WaitPoint) -> bool {
    exists|k: int| 0 <= k < produces.len() && (#[trigger] produces[k]).answers(wait)
}

impl WaitModel {
    /// No transaction is in the graph twice.
    pub open spec fn wf(self) -> bool {
        forall|i: int, j: int|
            0 <= i < self.nodes.len() && 0 <= j < self.nodes.len() && i != j ==> (
            #[trigger] self.nodes[i]).ordinal != (#[trigger] self.nodes[j]).ordinal
    }

    /// What is already published answers the wait.
    pub open spec fn published(self, wait: WaitPoint) -> bool {
        match wait {
            WaitPoint::Stamp { slot, value } => self.stamps.dom().contains(slot)
                && self.stamps[slot].has_reached(value),
            WaitPoint::Event { event, value } => self.events.dom().contains(event)
                && self.events[event] >= value,
        }
    }

    /// A point was published. A slot stands at the later of its values and an
    /// event at the higher.
    pub open spec fn satisfied(self, production: Production) -> WaitModel {
        match production {
            Production::Stamp { slot, value } => WaitModel {
                stamps: self.stamps.insert(
                    slot,
                    if self.stamps.dom().contains(slot) {
                        self.stamps[slot].latest(value)
                    } else {
                        value
                    },
                ),
                ..self
            },
            Production::Event { event, value } => WaitModel {
                events: self.events.insert(
                    event,
                    if self.events.dom().contains(event) && self.events[event] > value {
                        self.events[event]
                    } else {
                        value
                    },
                ),
                ..self
            },
        }
    }

    /// Points were published, in order.
    pub open spec fn all_satisfied(self, productions: Seq<Production>) -> WaitModel
        decreases productions.len(),
    {
        if productions.len() == 0 {
            self
        } else {
            self.all_satisfied(productions.drop_last()).satisfied(productions.last())
        }
    }

    /// Where a transaction stands.
    pub open spec fn holds_at(self, ordinal: IngressOrdinal, i: int) -> bool {
        0 <= i < self.nodes.len() && self.nodes[i].ordinal == ordinal
    }

    /// The transaction is in the graph.
    pub open spec fn holds(self, ordinal: IngressOrdinal) -> bool {
        exists|i: int| self.holds_at(ordinal, i)
    }

    /// Transaction `i` waits for a point that nothing published answers and
    /// that transaction `j` produces.
    pub open spec fn unmet(self, i: int, wait: WaitPoint, j: int) -> bool {
        &&& 0 <= i < self.nodes.len()
        &&& 0 <= j < self.nodes.len()
        &&& self.nodes[i].waits.contains(wait)
        &&& !self.published(wait)
        &&& some_answers(self.nodes[j].produces, wait)
    }

    /// One transaction waits for a point that nothing published answers and
    /// that another one produces.
    pub open spec fn waits_for(
        self,
        waiter: IngressOrdinal,
        wait: WaitPoint,
        producer: IngressOrdinal,
    ) -> bool {
        waiter != producer && exists|i: int, j: int| #[trigger]
            self.unmet(i, wait, j) && self.nodes[i].ordinal == waiter && self.nodes[j].ordinal
                == producer
    }

    /// What is published, or a transaction of `order`, answers the wait.
    pub open spec fn answered_by(self, order: Seq<int>, wait: WaitPoint) -> bool {
        self.published(wait) || exists|m: int|
            0 <= m < order.len() && some_answers(
                self.nodes[#[trigger] order[m]].produces,
                wait,
            )
    }

    /// What is published, or a transaction of `order`, answers every wait of
    /// transaction `i`.
    pub open spec fn ready_after(self, order: Seq<int>, i: int) -> bool {
        0 <= i < self.nodes.len() && forall|k: int|
            0 <= k < self.nodes[i].waits.len() ==> self.answered_by(
                order,
                #[trigger] self.nodes[i].waits[k],
            )
    }

    /// Run in this order, every transaction finds its waits answered.
    pub open spec fn runs_in(self, order: Seq<int>) -> bool {
        forall|k: int|
            0 <= k < order.len() ==> self.ready_after(order.take(k), #[trigger] order[k])
    }

    /// Every transaction can run.
    pub open spec fn all_run(self) -> bool {
        forall|i: int| 0 <= i < self.nodes.len() ==> #[trigger] self.can_run(i)
    }

    /// There is an order in which the transaction runs.
    pub open spec fn can_run(self, i: int) -> bool {
        exists|order: Seq<int>| #[trigger] self.runs_in(order) && order.contains(i)
    }

    /// The wait is answered by what is published, or by a transaction that can
    /// run.
    pub open spec fn answerable(self, wait: WaitPoint) -> bool {
        self.published(wait) || exists|j: int| #[trigger]
            self.can_run(j) && some_answers(self.nodes[j].produces, wait)
    }

    /// Transaction `i` is held up by a wait that nothing able to run answers
    /// and that transaction `j` would.
    pub open spec fn edge(self, i: int, wait: WaitPoint, j: int) -> bool {
        &&& 0 <= i < self.nodes.len()
        &&& 0 <= j < self.nodes.len()
        &&& self.nodes[i].waits.contains(wait)
        &&& !self.answerable(wait)
        &&& some_answers(self.nodes[j].produces, wait)
    }

    /// The producers, among the first `n` transactions, of one wait.
    pub open spec fn producers_of(self, waiter: IngressOrdinal, wait: WaitPoint, n: int) -> Seq<
        (IngressOrdinal, WaitPoint, IngressOrdinal),
    >
        decreases n,
    {
        if n <= 0 {
            Seq::empty()
        } else {
            let before = self.producers_of(waiter, wait, n - 1);
            if some_answers(self.nodes[n - 1].produces, wait) {
                before.push((waiter, wait, self.nodes[n - 1].ordinal))
            } else {
                before
            }
        }
    }

    /// What answers the first `k` waits of a transaction, itself not left out.
    pub open spec fn answers_of_waits(self, i: int, k: int) -> Seq<
        (IngressOrdinal, WaitPoint, IngressOrdinal),
    >
        decreases k,
    {
        if k <= 0 {
            Seq::empty()
        } else {
            let before = self.answers_of_waits(i, k - 1);
            let wait = self.nodes[i].waits[k - 1];
            if self.published(wait) {
                before
            } else {
                before + self.producers_of(
                    self.nodes[i].ordinal,
                    wait,
                    self.nodes.len() as int,
                )
            }
        }
    }

    /// What answers the unmet waits of the first `n` transactions: the waiter,
    /// the wait and the producer, which may be the waiter.
    pub open spec fn answers_of(self, n: int) -> Seq<(IngressOrdinal, WaitPoint, IngressOrdinal)>
        decreases n,
    {
        if n <= 0 {
            Seq::empty()
        } else {
            self.answers_of(n - 1) + self.answers_of_waits(
                n - 1,
                self.nodes[n - 1].waits.len() as int,
            )
        }
    }

    /// The waiter-to-producer edges.
    pub open spec fn edges(self) -> Seq<(IngressOrdinal, WaitPoint, IngressOrdinal)> {
        self.answers_of(self.nodes.len() as int).filter(
            |e: (IngressOrdinal, WaitPoint, IngressOrdinal)| e.0 != e.2,
        )
    }

    /// Some accepted transaction produces the point.
    pub open spec fn produced(self, wait: WaitPoint) -> bool {
        exists|j: int|
            0 <= j < self.nodes.len() && some_answers((#[trigger] self.nodes[j]).produces, wait)
    }

    /// What of a transaction's first `k` waits nothing produces.
    pub open spec fn unproduced_of(self, i: int, k: int) -> Seq<(IngressOrdinal, WaitPoint)>
        decreases k,
    {
        if k <= 0 {
            Seq::empty()
        } else {
            let before = self.unproduced_of(i, k - 1);
            let wait = self.nodes[i].waits[k - 1];
            if self.published(wait) || self.produced(wait) {
                before
            } else {
                before.push((self.nodes[i].ordinal, wait))
            }
        }
    }

    /// What the waits of several transactions are left without, in order.
    pub open spec fn unproduced_by(self, order: Seq<int>) -> Seq<(IngressOrdinal, WaitPoint)>
        decreases order.len(),
    {
        if order.len() == 0 {
            Seq::empty()
        } else {
            self.unproduced_by(order.drop_last()) + self.unproduced_of(
                order.last(),
                self.nodes[order.last()].waits.len() as int,
            )
        }
    }

    /// A list of positions with one more, where its ordinal belongs.
    pub open spec fn placed(self, order: Seq<int>, i: int) -> Seq<int>
        decreases order.len(),
    {
        if order.len() == 0 || self.nodes[order.last()].ordinal.0 <= self.nodes[i].ordinal.0 {
            order.push(i)
        } else {
            self.placed(order.drop_last(), i).push(order.last())
        }
    }

    /// The first `n` transactions' positions, in arrival order.
    pub open spec fn arrival(self, n: int) -> Seq<int>
        decreases n,
    {
        if n <= 0 {
            Seq::empty()
        } else {
            self.placed(self.arrival(n - 1), n - 1)
        }
    }

    /// The waits nothing produces, in arrival order of the waiters.
    pub open spec fn unproduced(self) -> Seq<(IngressOrdinal, WaitPoint)> {
        self.unproduced_by(self.arrival(self.nodes.len() as int))
    }

    /// A step of the walk waits for the next, and the last for `end`.
    pub open spec fn steps(self, walk: Seq<(int, WaitPoint)>, k: int, end: int) -> bool {
        self.edge(walk[k].0, walk[k].1, next_of(walk, k, end))
    }

    /// Each step of the walk waits for the next, and the last for `end`.
    pub open spec fn leads_to(self, walk: Seq<(int, WaitPoint)>, end: int) -> bool {
        forall|k: int| 0 <= k < walk.len() ==> #[trigger] self.steps(walk, k, end)
    }

    /// The walk waits on itself: each step for the next, and the last for the
    /// first.
    pub open spec fn is_cycle(self, walk: Seq<(int, WaitPoint)>) -> bool {
        walk.len() > 0 && self.leads_to(walk, walk[0].0)
    }

    /// The members are the transactions of the walk, ascending.
    pub open spec fn are_members(self, members: Seq<IngressOrdinal>, walk: Seq<(int, WaitPoint)>) -> bool {
        crate::ordinal_set::ascending(members) && forall|o: IngressOrdinal| #[trigger]
            members.contains(o) == visits(self, walk, o)
    }

    /// A cycle report names a cycle there is.
    pub open spec fn true_report(self, d: Diagnosis) -> bool {
        d matches Diagnosis::Cycle { members, closed_by } && exists|walk: Seq<(int, WaitPoint)>| #[trigger]
            self.is_cycle(walk) && self.are_members(members@, walk) && closed_by == walk[0].1
    }
}

/// A cycle as it is reported.
#[verifier::ext_equal]
pub struct Loop {
    pub members: Seq<IngressOrdinal>,
    pub closed_by: WaitPoint,
}

/// What a search for cycles has found.
#[verifier::ext_equal]
pub struct Found {
    /// The transactions everything ahead of which has been searched.
    pub done: Set<int>,
    pub loops: Seq<Loop>,
}

impl WaitModel {
    /// The transactions among the first `n` that answer a wait.
    pub open spec fn answerers(self, wait: WaitPoint, n: int) -> Seq<(WaitPoint, int)>
        decreases n,
    {
        if n <= 0 {
            Seq::empty()
        } else if some_answers(self.nodes[n - 1].produces, wait) {
            self.answerers(wait, n - 1).push((wait, n - 1))
        } else {
            self.answerers(wait, n - 1)
        }
    }

    /// Where the first `k` waits of a transaction lead: from each wait that holds
    /// it up, to each transaction that answers it.
    pub open spec fn steps_of_waits(self, i: int, k: int) -> Seq<(WaitPoint, int)>
        decreases k,
    {
        if k <= 0 {
            Seq::empty()
        } else {
            let before = self.steps_of_waits(i, k - 1);
            let wait = self.nodes[i].waits[k - 1];
            if self.answerable(wait) {
                before
            } else {
                before + self.answerers(wait, self.nodes.len() as int)
            }
        }
    }

    /// Where a transaction's waits lead.
    pub open spec fn steps_from(self, i: int) -> Seq<(WaitPoint, int)> {
        self.steps_of_waits(i, self.nodes[i].waits.len() as int)
    }

    /// The transactions of a walk, ascending.
    pub open spec fn members_of(self, walk: Seq<(int, WaitPoint)>) -> Seq<IngressOrdinal> {
        choose|members: Seq<IngressOrdinal>| self.are_members(members, walk)
    }

    /// The walk came back to a transaction that stands on it: a cycle from
    /// there on, reported unless its members were.
    pub open spec fn closed(self, walk: Seq<(int, WaitPoint)>, at: int, found: Found) -> Found {
        let start = choose|start: int| first_on(walk, at, start);
        let members = self.members_of(walk.skip(start));
        if has_members(found.loops, members) {
            found
        } else {
            Found {
                loops: found.loops.push(Loop { members, closed_by: walk[start].1 }),
                ..found
            }
        }
    }

    /// What a depth-first search finds from a transaction on.
    pub open spec fn searched(self, walk: Seq<(int, WaitPoint)>, at: int, found: Found) -> Found
        decreases self.nodes.len() - walk.len(), 1int, 0int,
    {
        if found.done.contains(at) {
            found
        } else if on_walk(walk, at) {
            self.closed(walk, at, found)
        } else if walk.len() >= self.nodes.len() {
            found
        } else {
            let ahead = self.searched_ahead(walk, at, found, self.steps_from(at).len() as int);
            Found { done: ahead.done.insert(at), ..ahead }
        }
    }

    /// What the first `k` of a transaction's steps add.
    pub open spec fn searched_ahead(
        self,
        walk: Seq<(int, WaitPoint)>,
        at: int,
        found: Found,
        k: int,
    ) -> Found
        decreases self.nodes.len() - walk.len(), 0int, k,
    {
        if k <= 0 || walk.len() >= self.nodes.len() {
            found
        } else {
            let step = self.steps_from(at)[k - 1];
            self.searched(
                walk.push((at, step.0)),
                step.1,
                self.searched_ahead(walk, at, found, k - 1),
            )
        }
    }

    /// What a search from each of several transactions finds.
    pub open spec fn searched_all(self, order: Seq<int>) -> Found
        decreases order.len(),
    {
        if order.len() == 0 {
            Found { done: Set::empty(), loops: Seq::empty() }
        } else {
            self.searched(Seq::empty(), order.last(), self.searched_all(order.drop_last()))
        }
    }

    /// The cycles a search in arrival order reports.
    pub open spec fn loops(self) -> Seq<Loop> {
        self.searched_all(self.arrival(self.nodes.len() as int)).loops
    }
}

/// A transaction stands on the walk.
pub open spec fn on_walk(walk: Seq<(int, WaitPoint)>, at: int) -> bool {
    exists|k: int| 0 <= k < walk.len() && (#[trigger] walk[k]).0 == at
}

/// A transaction first stands on the walk here.
pub open spec fn first_on(walk: Seq<(int, WaitPoint)>, at: int, start: int) -> bool {
    0 <= start < walk.len() && walk[start].0 == at && forall|k: int|
        0 <= k < start ==> (#[trigger] walk[k]).0 != at
}

/// A cycle with these members has been reported.
pub open spec fn has_members(loops: Seq<Loop>, members: Seq<IngressOrdinal>) -> bool {
    exists|k: int| 0 <= k < loops.len() && (#[trigger] loops[k]).members == members
}

/// The report is the cycle.
pub open spec fn reports_loop(d: Diagnosis, l: Loop) -> bool {
    d matches Diagnosis::Cycle { members, closed_by } && members@ == l.members && closed_by
        == l.closed_by
}

/// The reports are exactly these cycles, in order.
pub open spec fn report_loops(cycles: Seq<Diagnosis>, loops: Seq<Loop>) -> bool {
    cycles.len() == loops.len() && forall|k: int|
        0 <= k < cycles.len() ==> reports_loop(#[trigger] cycles[k], loops[k])
}

/// Where a walk goes from a step; the last goes to `end`.
pub open spec fn next_of(walk: Seq<(int, WaitPoint)>, k: int, end: int) -> int {
    if k + 1 < walk.len() {
        walk[k + 1].0
    } else {
        end
    }
}

/// Some report holds together the two ends of a step of a cycle.
pub open spec fn step_reported(
    g: WaitModel,
    cycles: Seq<Diagnosis>,
    walk: Seq<(int, WaitPoint)>,
    k: int,
) -> bool {
    0 <= k < walk.len() && reported(
        cycles,
        g.nodes[walk[k].0].ordinal,
        g.nodes[next_of(walk, k, walk[0].0)].ordinal,
    )
}

/// The walk goes through a transaction.
pub open spec fn visits(g: WaitModel, walk: Seq<(int, WaitPoint)>, o: IngressOrdinal) -> bool {
    exists|k: int| 0 <= k < walk.len() && g.nodes[(#[trigger] walk[k]).0].ordinal == o
}

/// A report is a cycle with both transactions among its members.
pub open spec fn reports_both(d: Diagnosis, a: IngressOrdinal, b: IngressOrdinal) -> bool {
    d matches Diagnosis::Cycle { members, .. } && members@.contains(a) && members@.contains(b)
}

/// Some report is a cycle with both transactions among its members.
pub open spec fn reported(cycles: Seq<Diagnosis>, a: IngressOrdinal, b: IngressOrdinal) -> bool {
    exists|k: int| 0 <= k < cycles.len() && reports_both(#[trigger] cycles[k], a, b)
}

/// The reports are cycles there are, and no set of members is reported twice.
pub open spec fn sound_reports(g: WaitModel, cycles: Seq<Diagnosis>) -> bool {
    &&& forall|k: int| 0 <= k < cycles.len() ==> g.true_report(#[trigger] cycles[k])
    &&& forall|i: int, j: int|
        0 <= i < j < cycles.len() ==> (#[trigger] cycles[i])->members@ != (
        #[trigger] cycles[j])->members@
}

/// Every cycle of the graph has a step whose two ends some report holds
/// together.
pub open spec fn complete_reports(g: WaitModel, cycles: Seq<Diagnosis>) -> bool {
    forall|walk: Seq<(int, WaitPoint)>| #[trigger]
        g.is_cycle(walk) ==> exists|k: int| step_reported(g, cycles, walk, k)
}

/// One accepted transaction's explicit waits and productions.
#[derive(Debug)]
struct Node {
    ordinal: IngressOrdinal,
    waits: Vec<WaitPoint>,
    produces: Vec<Production>,
}

impl View for Node {
    type V = NodeModel;

    closed spec fn view(&self) -> NodeModel {
        NodeModel { ordinal: self.ordinal, waits: self.waits@, produces: self.produces@ }
    }
}

/// The explicit wait-for graph over accepted, uncompleted transactions.
///
/// Transactions may be accepted in any order: an explicit wait may name a
/// producer that has not arrived yet.
#[derive(Debug)]
pub struct WaitGraph {
    nodes: Vec<Node>,
    published_stamps: Table<StampSlot, StampValue>,
    published_events: Table<ResourceId, u64>,
}

impl View for WaitGraph {
    type V = WaitModel;

    closed spec fn view(&self) -> WaitModel {
        WaitModel {
            nodes: Seq::new(self.nodes@.len(), |i: int| self.nodes@[i]@),
            stamps: self.published_stamps@,
            events: self.published_events@,
        }
    }
}

impl Default for WaitGraph {
    fn default() -> (g: WaitGraph)
        ensures
            g.wf(),
            g@.nodes == Seq::<NodeModel>::empty(),
            g@.stamps == Map::<StampSlot, StampValue>::empty(),
            g@.events == Map::<ResourceId, u64>::empty(),
    {
        let g = WaitGraph {
            nodes: Vec::new(),
            published_stamps: Table::new(),
            published_events: Table::new(),
        };
        assert(g@.nodes =~= Seq::<NodeModel>::empty());
        g
    }
}

impl WaitGraph {
    pub closed spec fn rows_wf(&self) -> bool {
        self.published_stamps.wf() && self.published_events.wf()
    }

    pub open spec fn wf(&self) -> bool {
        self.rows_wf() && self@.wf()
    }

    #[must_use]
    pub fn new() -> (g: Self)
        ensures
            g.wf(),
            g@.nodes == Seq::<NodeModel>::empty(),
            g@.stamps == Map::<StampSlot, StampValue>::empty(),
            g@.events == Map::<ResourceId, u64>::empty(),
    {
        WaitGraph::default()
    }

    /// Record a point that is already published.
    pub fn satisfy(&mut self, production: Production)
        requires
            old(self).wf(),
        ensures
            final(self).wf(),
            final(self)@ == old(self)@.satisfied(production),
    {
        match production {
            Production::Stamp { slot, value } => {
                let at = match self.published_stamps.get(slot) {
                    Some(at) => at.later(value),
                    None => value,
                };
                self.published_stamps.insert(slot, at);
            },
            Production::Event { event, value } => {
                let at = match self.published_events.get(event) {
                    Some(at) => if *at > value {
                        *at
                    } else {
                        value
                    },
                    None => value,
                };
                self.published_events.insert(event, at);
            },
        }
        assert(self@ =~= old(self)@.satisfied(production));
    }

    /// Whether what is already published discharges `wait`.
    fn already_published(&self, wait: WaitPoint) -> (met: bool)
        requires
            self.wf(),
        ensures
            met == self@.published(wait),
    {
        match wait {
            WaitPoint::Stamp { slot, value } => match self.published_stamps.get(slot) {
                Some(at) => at.reached(value),
                None => false,
            },
            WaitPoint::Event { event, value } => match self.published_events.get(event) {
                Some(at) => *at >= value,
                None => false,
            },
        }
    }

    /// Accept a transaction: its prerequisites become waits, and its stamp and
    /// event signals become productions.
    pub fn accept(&mut self, tx: &ExecTransaction)
        requires
            old(self).wf(),
            !old(self)@.holds(tx.ingress),
        ensures
            final(self).wf(),
            final(self)@ == (WaitModel {
                nodes: old(self)@.nodes.push(node_of(*tx)),
                ..old(self)@
            }),
    {
        let mut waits: Vec<WaitPoint> = Vec::new();
        let mut i: usize = 0;
        while i < tx.prerequisites.len()
            invariant
                i <= tx.prerequisites@.len(),
                waits@ == waits_of(tx.prerequisites@.take(i as int)),
            decreases tx.prerequisites.len() - i,
        {
            proof {
                assert(tx.prerequisites@.take(i + 1).drop_last() =~= tx.prerequisites@.take(
                    i as int,
                ));
                assert(tx.prerequisites@.take(i + 1).last() == tx.prerequisites@[i as int]);
            }
            match tx.prerequisites[i] {
                Prerequisite::Stamp(w) => {
                    waits.push(WaitPoint::Stamp { slot: w.slot, value: w.value });
                },
                Prerequisite::Event { event, value } => {
                    waits.push(WaitPoint::Event { event, value });
                },
                Prerequisite::Fence { .. } => {},
            }
            i = i + 1;
        }
        assert(tx.prerequisites@.take(i as int) =~= tx.prerequisites@);
        let mut produces: Vec<Production> = Vec::new();
        match tx.publication.stamp {
            Some(stamp) => {
                produces.push(Production::Stamp { slot: stamp.slot, value: stamp.value });
            },
            None => {},
        }
        let ghost stamped = stamp_of(tx.publication.stamp);
        assert(produces@ =~= stamped);
        let records = tx.records();
        let mut j: usize = 0;
        assert(produces@ =~= stamped + signals_of(records@.take(0)));
        while j < records.len()
            invariant
                j <= records@.len(),
                produces@ == stamped + signals_of(records@.take(j as int)),
            decreases records.len() - j,
        {
            proof {
                assert(records@.take(j + 1).drop_last() =~= records@.take(j as int));
                assert(records@.take(j + 1).last() == records@[j as int]);
            }
            match records[j].op {
                ResolvedOperation::Event(event) => match event.kind {
                    EventKind::Signal => {
                        produces.push(
                            Production::Event { event: event.event, value: event.value },
                        );
                    },
                    EventKind::Wait => {},
                },
                _ => {},
            }
            assert(produces@ =~= stamped + signals_of(records@.take(j + 1)));
            j = j + 1;
        }
        assert(records@.take(j as int) =~= records@);
        let node = Node { ordinal: tx.ingress, waits, produces };
        let ghost model = node@;
        self.nodes.push(node);
        proof {
            assert(model =~= node_of(*tx));
            assert(self@.nodes =~= old(self)@.nodes.push(node_of(*tx)));
            let nodes = old(self)@.nodes;
            assert forall|a: int| 0 <= a < nodes.len() implies (#[trigger] nodes[a]).ordinal
                != tx.ingress by {
                if nodes[a].ordinal == tx.ingress {
                    assert(old(self)@.holds_at(tx.ingress, a));
                }
            }
        }
    }

    /// Accepted transactions.
    #[must_use]
    pub fn len(&self) -> (n: usize)
        ensures
            n == self@.nodes.len(),
    {
        self.nodes.len()
    }

    #[must_use]
    pub fn is_empty(&self) -> (empty: bool)
        ensures
            empty == (self@.nodes.len() == 0),
    {
        self.nodes.len() == 0
    }

    /// Forget a transaction once it has completed, publishing what it produced:
    /// a wait its production discharged must stay discharged.
    pub fn retire(&mut self, ordinal: IngressOrdinal)
        requires
            old(self).wf(),
        ensures
            final(self).wf(),
            !old(self)@.holds(ordinal) ==> final(self)@ == old(self)@,
            forall|i: int| #[trigger]
                old(self)@.holds_at(ordinal, i) ==> final(self)@ == (WaitModel {
                    nodes: old(self)@.nodes.remove(i),
                    ..old(self)@
                }).all_satisfied(old(self)@.nodes[i].produces),
    {
        let mut at: usize = 0;
        while at < self.nodes.len() && self.nodes[at].ordinal.0 != ordinal.0
            invariant
                *self == *old(self),
                at <= self.nodes@.len(),
                forall|k: int| 0 <= k < at ==> (#[trigger] self.nodes@[k]).ordinal != ordinal,
            decreases self.nodes.len() - at,
        {
            at = at + 1;
        }
        let ghost before = self@;
        if at >= self.nodes.len() {
            proof {
                if self@.holds(ordinal) {
                    let i = choose|i: int| self@.holds_at(ordinal, i);
                    assert(self.nodes@[i].ordinal == ordinal);
                }
            }
            return;
        }
        let node = self.nodes.remove(at);
        let ghost gone = WaitModel { nodes: before.nodes.remove(at as int), ..before };
        proof {
            assert(before.holds_at(ordinal, at as int));
            assert(self@.nodes =~= before.nodes.remove(at as int));
            assert(self@ =~= gone);
            assert(gone.wf());
        }
        let mut k: usize = 0;
        while k < node.produces.len()
            invariant
                k <= node.produces@.len(),
                self.wf(),
                self@ == gone.all_satisfied(node.produces@.take(k as int)),
            decreases node.produces.len() - k,
        {
            proof {
                assert(node.produces@.take(k + 1).drop_last() =~= node.produces@.take(k as int));
                assert(node.produces@.take(k + 1).last() == node.produces@[k as int]);
            }
            self.satisfy(node.produces[k]);
            k = k + 1;
        }
        proof {
            assert(node.produces@.take(k as int) =~= node.produces@);
            assert(before.nodes[at as int].produces == node.produces@);
            assert forall|i: int| #[trigger] before.holds_at(ordinal, i) implies i == at by {
                if i != at {
                    assert(before.nodes[i].ordinal != before.nodes[at as int].ordinal);
                }
            }
        }
    }

    /// Whether a transaction produces a point.
    fn node_answers(&self, j: usize, wait: WaitPoint) -> (answers: bool)
        requires
            j < self@.nodes.len(),
        ensures
            answers == some_answers(self@.nodes[j as int].produces, wait),
    {
        let produces = &self.nodes[j].produces;
        assert(self@.nodes[j as int] == self.nodes@[j as int]@);
        let mut k: usize = 0;
        while k < produces.len()
            invariant
                k <= produces@.len(),
                self@.nodes[j as int].produces == produces@,
                forall|m: int| 0 <= m < k ==> !(#[trigger] produces@[m]).answers(wait),
            decreases produces.len() - k,
        {
            if produces[k].discharges(wait) {
                assert(self@.nodes[j as int].produces[k as int].answers(wait));
                return true;
            }
            k = k + 1;
        }
        false
    }

    /// Whether any accepted transaction produces a point.
    fn any_answers(&self, wait: WaitPoint) -> (answers: bool)
        ensures
            answers == self@.produced(wait),
    {
        let mut j: usize = 0;
        while j < self.nodes.len()
            invariant
                j <= self@.nodes.len(),
                self@.nodes.len() == self.nodes@.len(),
                forall|m: int|
                    0 <= m < j ==> !some_answers((#[trigger] self@.nodes[m]).produces, wait),
            decreases self.nodes.len() - j,
        {
            if self.node_answers(j, wait) {
                return true;
            }
            j = j + 1;
        }
        false
    }

    /// Waiter-to-producer edges, one per waiter, wait and producer.
    ///
    /// A wait already discharged makes no edge, and a transaction never depends
    /// on itself: its prerequisites are checked before its own records run, so
    /// its own signal cannot answer it. [`WaitGraph::diagnose`] reports that
    /// wait as a cycle of one.
    #[must_use]
    pub fn edges(&self) -> (out: Vec<(IngressOrdinal, WaitPoint, IngressOrdinal)>)
        requires
            self.wf(),
        ensures
            out@ == self@.edges(),
            forall|w: IngressOrdinal, p: WaitPoint, q: IngressOrdinal| #[trigger]
                out@.contains((w, p, q)) <==> self@.waits_for(w, p, q),
    {
        let ghost g = self@;
        let all = self.answering();
        let ghost apart = |e: (IngressOrdinal, WaitPoint, IngressOrdinal)| e.0 != e.2;
        let mut out: Vec<(IngressOrdinal, WaitPoint, IngressOrdinal)> = Vec::new();
        let mut i: usize = 0;
        proof {
            reveal(Seq::filter);
        }
        while i < all.len()
            invariant
                i <= all@.len(),
                apart == (|e: (IngressOrdinal, WaitPoint, IngressOrdinal)| e.0 != e.2),
                out@ == all@.take(i as int).filter(apart),
            decreases all.len() - i,
        {
            let e = all[i];
            proof {
                reveal(Seq::filter);
                assert(all@.take(i + 1).drop_last() =~= all@.take(i as int));
                assert(all@.take(i + 1).last() == e);
            }
            if e.0.0 != e.2.0 {
                out.push(e);
            }
            i = i + 1;
        }
        proof {
            assert(all@.take(i as int) =~= all@);
            assert forall|w: IngressOrdinal, p: WaitPoint, q: IngressOrdinal| #[trigger]
                out@.contains((w, p, q)) <==> g.waits_for(w, p, q) by {
                lemma_edge_iff(g, w, p, q);
            }
        }
        out
    }

    /// Every unmet wait with each of its producers, the waiter not left out.
    pub(crate) fn answering(&self) -> (out: Vec<(IngressOrdinal, WaitPoint, IngressOrdinal)>)
        requires
            self.wf(),
        ensures
            out@ == self@.answers_of(self@.nodes.len() as int),
    {
        let ghost g = self@;
        let mut out: Vec<(IngressOrdinal, WaitPoint, IngressOrdinal)> = Vec::new();
        let mut i: usize = 0;
        while i < self.nodes.len()
            invariant
                self.wf(),
                g == self@,
                i <= self.nodes@.len(),
                self.nodes@.len() == g.nodes.len(),
                out@ == g.answers_of(i as int),
            decreases self.nodes.len() - i,
        {
            let node = &self.nodes[i];
            assert(g.nodes[i as int] == node@);
            let ghost so_far = out@;
            let mut k: usize = 0;
            assert(out@ =~= so_far + g.answers_of_waits(i as int, 0));
            while k < node.waits.len()
                invariant
                    self.wf(),
                    g == self@,
                    i < self.nodes@.len(),
                    self.nodes@.len() == g.nodes.len(),
                    g.nodes[i as int] == node@,
                    k <= node.waits@.len(),
                    out@ == so_far + g.answers_of_waits(i as int, k as int),
                decreases node.waits.len() - k,
            {
                let wait = node.waits[k];
                if !self.already_published(wait) {
                    let ghost earlier = out@;
                    let mut j: usize = 0;
                    assert(out@ =~= earlier + g.producers_of(node.ordinal, wait, 0));
                    while j < self.nodes.len()
                        invariant
                            self.wf(),
                            g == self@,
                            self.nodes@.len() == g.nodes.len(),
                            j <= self.nodes@.len(),
                            out@ == earlier + g.producers_of(node.ordinal, wait, j as int),
                        decreases self.nodes.len() - j,
                    {
                        if self.node_answers(j, wait) {
                            out.push((node.ordinal, wait, self.nodes[j].ordinal));
                        }
                        assert(out@ =~= earlier + g.producers_of(node.ordinal, wait, j + 1));
                        j = j + 1;
                    }
                }
                assert(out@ =~= so_far + g.answers_of_waits(i as int, k + 1));
                k = k + 1;
            }
            i = i + 1;
        }
        out
    }
}

/// How far the search has come with a transaction.
#[derive(Clone, Copy, Debug, PartialEq, Eq, Structural)]
enum Colour {
    Unseen,
    Open,
    Done,
}

/// How many transactions the search has not met.
spec fn unseen(colour: Seq<Colour>) -> nat
    decreases colour.len(),
{
    if colour.len() == 0 {
        0
    } else {
        unseen(colour.drop_last()) + (if colour.last() is Unseen { 1nat } else { 0nat })
    }
}

proof fn lemma_unseen_drops(colour: Seq<Colour>, at: int, c: Colour)
    requires
        0 <= at < colour.len(),
        colour[at] is Unseen,
        !(c is Unseen),
    ensures
        unseen(colour.update(at, c)) + 1 == unseen(colour),
    decreases colour.len(),
{
    let next = colour.update(at, c);
    if at == colour.len() - 1 {
        assert(next.drop_last() =~= colour.drop_last());
    } else {
        assert(next.drop_last() =~= colour.drop_last().update(at, c));
        lemma_unseen_drops(colour.drop_last(), at, c);
    }
}

proof fn lemma_unseen_only_drops(before: Seq<Colour>, after: Seq<Colour>)
    requires
        before.len() == after.len(),
        forall|k: int| 0 <= k < before.len() && !(before[k] is Unseen) ==> !((#[trigger] after[k]) is Unseen),
    ensures
        unseen(after) <= unseen(before),
    decreases before.len(),
{
    if before.len() > 0 {
        let b = before.drop_last();
        let a = after.drop_last();
        assert forall|k: int| 0 <= k < b.len() && !(b[k] is Unseen) implies !((#[trigger] a[k]) is Unseen) by {
            assert(after[k] == a[k]);
        }
        lemma_unseen_only_drops(b, a);
        assert(after[after.len() - 1] == after.last());
    }
}

/// The list is the steps.
spec fn lists_steps(list: Seq<(WaitPoint, usize)>, steps: Seq<(WaitPoint, int)>) -> bool {
    list.len() == steps.len() && forall|k: int|
        0 <= k < list.len() ==> (#[trigger] list[k]).0 == steps[k].0 && list[k].1 == steps[k].1
}

/// The adjacency lists are the graph's edges.
#[verifier::opaque]
spec fn lists_edges(g: WaitModel, adjacency: Seq<Vec<(WaitPoint, usize)>>) -> bool {
    &&& adjacency.len() == g.nodes.len()
    &&& g.nodes.len() <= usize::MAX
    &&& forall|i: int, k: int| #![trigger adjacency[i]@[k]]
        0 <= i < adjacency.len() && 0 <= k < adjacency[i]@.len() ==> g.edge(
            i,
            adjacency[i]@[k].0,
            adjacency[i]@[k].1 as int,
        )
    &&& forall|i: int, w: WaitPoint, j: int| #[trigger]
        g.edge(i, w, j) ==> adjacency[i]@.contains((w, j as usize))
    &&& forall|i: int|
        0 <= i < adjacency.len() ==> lists_steps((#[trigger] adjacency[i])@, g.steps_from(i))
}

/// The path as a walk.
spec fn walk_of(path: Seq<(usize, WaitPoint)>) -> Seq<(int, WaitPoint)> {
    Seq::new(path.len(), |k: int| (path[k].0 as int, path[k].1))
}

/// A transaction stands on the path.
spec fn on_path(path: Seq<(usize, WaitPoint)>, at: int) -> bool {
    exists|k: int| 0 <= k < path.len() && (#[trigger] path[k]).0 == at
}

/// A transaction finished before the `n`-th.
spec fn finished_before(finished: Seq<usize>, n: int, at: int) -> bool {
    exists|m: int| 0 <= m < n && m < finished.len() && (#[trigger] finished[m]) == at
}

/// Every edge of a finished transaction leads to one that finished before it,
/// or closes a reported cycle.
spec fn settled(g: WaitModel, finished: Seq<usize>, cycles: Seq<Diagnosis>) -> bool {
    forall|k: int, w: WaitPoint, j: int| #![trigger finished[k], g.edge(finished[k] as int, w, j)]
        0 <= k < finished.len() && g.edge(finished[k] as int, w, j) ==> finished_before(
            finished,
            k,
            j,
        ) || reported(cycles, g.nodes[finished[k] as int].ordinal, g.nodes[j].ordinal)
}

/// A transaction is finished exactly when it is in the list, and is in it once.
spec fn finished_listed(colour: Seq<Colour>, finished: Seq<usize>) -> bool {
    &&& forall|k: int| 0 <= k < finished.len() ==> (#[trigger] finished[k]) < colour.len()
        && colour[finished[k] as int] is Done
    &&& forall|i: int|
        0 <= i < colour.len() && (#[trigger] colour[i]) is Done ==> finished_before(
            finished,
            finished.len() as int,
            i,
        )
    &&& forall|a: int, b: int|
        0 <= a < b < finished.len() ==> (#[trigger] finished[a]) != (#[trigger] finished[b])
}

/// The search's state is in order.
#[verifier::opaque]
spec fn searching(
    g: WaitModel,
    colour: Seq<Colour>,
    path: Seq<(usize, WaitPoint)>,
    finished: Seq<usize>,
    cycles: Seq<Diagnosis>,
) -> bool {
    &&& g.wf()
    &&& colour.len() == g.nodes.len()
    &&& forall|i: int|
        0 <= i < colour.len() ==> ((#[trigger] colour[i]) is Open <==> on_path(path, i))
    &&& forall|k: int| 0 <= k < path.len() ==> (#[trigger] path[k]).0 < colour.len()
    &&& forall|a: int, b: int|
        0 <= a < b < path.len() ==> (#[trigger] path[a]).0 != (#[trigger] path[b]).0
    &&& finished_listed(colour, finished)
    &&& settled(g, finished, cycles)
    &&& sound_reports(g, cycles)
}

/// The cycles reported, mathematically.
spec fn loops_of(cycles: Seq<Diagnosis>) -> Seq<Loop> {
    Seq::new(
        cycles.len(),
        |k: int| Loop { members: cycles[k]->members@, closed_by: cycles[k]->closed_by },
    )
}

/// What the search has found, mathematically.
spec fn found_of(colour: Seq<Colour>, cycles: Seq<Diagnosis>) -> Found {
    Found {
        done: Set::new(|i: int| 0 <= i < colour.len() && colour[i] is Done),
        loops: loops_of(cycles),
    }
}

/// Sound reports are all cycles.
proof fn lemma_all_loops(g: WaitModel, cycles: Seq<Diagnosis>)
    requires
        sound_reports(g, cycles),
    ensures
        report_loops(cycles, loops_of(cycles)),
{
    assert forall|k: int| 0 <= k < cycles.len() implies reports_loop(
        #[trigger] cycles[k],
        loops_of(cycles)[k],
    ) by {
        assert(g.true_report(cycles[k]));
    }
}

/// Where the search stands: an open transaction is on the walk, and while any
/// is unseen the walk is shorter than the graph.
proof fn lemma_search_place(
    g: WaitModel,
    colour: Seq<Colour>,
    path: Seq<(usize, WaitPoint)>,
    finished: Seq<usize>,
    cycles: Seq<Diagnosis>,
    at: int,
)
    requires
        searching(g, colour, path, finished, cycles),
        0 <= at < g.nodes.len(),
    ensures
        on_walk(walk_of(path), at) == (colour[at] is Open),
        !(colour[at] is Open) ==> walk_of(path).len() < g.nodes.len(),
{
    reveal(searching);
    let walk = walk_of(path);
    assert(colour[at] is Open <==> on_path(path, at));
    if on_path(path, at) {
        let k = choose|k: int| 0 <= k < path.len() && (#[trigger] path[k]).0 == at;
        assert(walk[k].0 == at);
    }
    if on_walk(walk, at) {
        let k = choose|k: int| 0 <= k < walk.len() && (#[trigger] walk[k]).0 == at;
        assert(path[k].0 == at);
    }
    if !(colour[at] is Open) {
        let nodes = Seq::new(path.len(), |k: int| path[k].0 as int);
        let all = vstd::set_lib::set_int_range(0, g.nodes.len() as int);
        vstd::set_lib::lemma_int_range(0, g.nodes.len() as int);
        assert(nodes.no_duplicates()) by {
            assert forall|a: int, b: int|
                0 <= a < nodes.len() && 0 <= b < nodes.len() && a != b implies nodes[a] != nodes[b] by {
                if a < b {
                    assert(path[a].0 != path[b].0);
                } else {
                    assert(path[b].0 != path[a].0);
                }
            }
        }
        nodes.unique_seq_to_set();
        let held = nodes.to_set();
        assert(held.subset_of(all.remove(at))) by {
            assert forall|x: int| held.contains(x) implies all.remove(at).contains(x) by {
                let k = choose|k: int| 0 <= k < nodes.len() && nodes[k] == x;
                assert(path[k].0 < colour.len());
                if x == at {
                    assert(on_path(path, at));
                }
            }
        }
        vstd::set_lib::lemma_len_subset(held, all.remove(at));
    }
}

/// A path that comes back to a transaction closes exactly there, on exactly
/// these members.
proof fn lemma_closes_at(
    g: WaitModel,
    path: Seq<(usize, WaitPoint)>,
    start: int,
    at: int,
    members: Seq<IngressOrdinal>,
)
    requires
        0 <= start < path.len(),
        path[start].0 == at,
        forall|k: int| 0 <= k < start ==> (#[trigger] path[k]).0 != at,
        g.are_members(members, walk_of(path).skip(start)),
    ensures
        first_on(walk_of(path), at, start),
        forall|s: int| #[trigger] first_on(walk_of(path), at, s) ==> s == start,
        g.members_of(walk_of(path).skip(start)) == members,
{
    let walk = walk_of(path);
    assert forall|k: int| 0 <= k < start implies (#[trigger] walk[k]).0 != at by {
        assert(path[k].0 != at);
    }
    assert forall|s: int| #[trigger] first_on(walk, at, s) implies s == start by {
        if s < start {
            assert(walk[s].0 != at);
        } else if start < s {
            assert(walk[start].0 != at);
        }
    }
    let chosen = g.members_of(walk.skip(start));
    assert(g.are_members(chosen, walk.skip(start)));
    assert forall|o: IngressOrdinal| chosen.contains(o) == members.contains(o) by {
        assert(chosen.contains(o) == visits(g, walk.skip(start), o));
        assert(members.contains(o) == visits(g, walk.skip(start), o));
    }
    crate::ordinal_set::ascending_is_determined(chosen, members);
}

/// What the search may change on its way through a transaction.
#[verifier::opaque]
spec fn search_grew(
    colour0: Seq<Colour>,
    finished0: Seq<usize>,
    cycles0: Seq<Diagnosis>,
    colour: Seq<Colour>,
    finished: Seq<usize>,
    cycles: Seq<Diagnosis>,
) -> bool {
    &&& colour.len() == colour0.len()
    &&& forall|i: int|
        0 <= i < colour0.len() && !(colour0[i] is Unseen) ==> (#[trigger] colour[i]) == colour0[i]
    &&& forall|i: int|
        0 <= i < colour0.len() && colour0[i] is Unseen ==> !((#[trigger] colour[i]) is Open)
    &&& finished0.is_prefix_of(finished)
    &&& cycles0.is_prefix_of(cycles)
}

proof fn lemma_reported_grows(
    before: Seq<Diagnosis>,
    after: Seq<Diagnosis>,
    a: IngressOrdinal,
    b: IngressOrdinal,
)
    requires
        before.is_prefix_of(after),
        reported(before, a, b),
    ensures
        reported(after, a, b),
{
    let k = choose|k: int| 0 <= k < before.len() && reports_both(#[trigger] before[k], a, b);
    assert(after[k] == before[k]);
}

proof fn lemma_finished_grows(before: Seq<usize>, after: Seq<usize>, n: int, at: int)
    requires
        before.is_prefix_of(after),
        finished_before(before, n, at),
    ensures
        finished_before(after, n, at),
{
    let m = choose|m: int| 0 <= m < n && m < before.len() && (#[trigger] before[m]) == at;
    assert(after[m] == before[m]);
}

/// With every transaction finished and every edge settled, no cycle of the
/// graph goes without a report.
proof fn lemma_complete(
    g: WaitModel,
    colour: Seq<Colour>,
    finished: Seq<usize>,
    cycles: Seq<Diagnosis>,
)
    requires
        searching(g, colour, Seq::empty(), finished, cycles),
        forall|i: int| 0 <= i < colour.len() ==> (#[trigger] colour[i]) is Done,
    ensures
        complete_reports(g, cycles),
{
    reveal(searching);
    assert forall|walk: Seq<(int, WaitPoint)>| #[trigger] g.is_cycle(walk) implies exists|k: int|
        step_reported(g, cycles, walk, k) by {
        if forall|k: int| !step_reported(g, cycles, walk, k) {
            assert(g.steps(walk, 0, walk[0].0));
            assert(colour[walk[0].0] is Done);
            assert(finished_before(finished, finished.len() as int, walk[0].0));
            let start = choose|m: int|
                0 <= m < finished.len() && m < finished.len() && (#[trigger] finished[m])
                    == walk[0].0;
            let end = walk.len() - 1;
            lemma_descends(g, finished, cycles, walk, start, end as nat);
            let last = choose|m: int|
                0 <= m <= start - end && (#[trigger] finished[m]) == walk[end].0;
            assert(g.steps(walk, end, walk[0].0));
            assert(!step_reported(g, cycles, walk, end));
            assert(g.edge(finished[last] as int, walk[end].1, walk[0].0));
            assert(finished_before(finished, last, walk[0].0));
            let again = choose|m: int|
                0 <= m < last && m < finished.len() && (#[trigger] finished[m]) == walk[0].0;
            assert(finished[again] == finished[start]);
        }
    }
}

/// Along unreported edges the finishing order goes down.
proof fn lemma_descends(
    g: WaitModel,
    finished: Seq<usize>,
    cycles: Seq<Diagnosis>,
    walk: Seq<(int, WaitPoint)>,
    start: int,
    n: nat,
)
    requires
        settled(g, finished, cycles),
        g.is_cycle(walk),
        n < walk.len(),
        0 <= start < finished.len(),
        finished[start] == walk[0].0,
        forall|k: int| !step_reported(g, cycles, walk, k),
    ensures
        exists|m: int| 0 <= m <= start - n && (#[trigger] finished[m]) == walk[n as int].0,
    decreases n,
{
    if n == 0 {
        assert(finished[start] == walk[0].0);
    } else {
        lemma_descends(g, finished, cycles, walk, start, (n - 1) as nat);
        let m = choose|m: int|
            0 <= m <= start - (n - 1) && (#[trigger] finished[m]) == walk[n - 1].0;
        let k = n - 1;
        assert(g.steps(walk, k, walk[0].0));
        assert(!step_reported(g, cycles, walk, k));
        assert(g.edge(finished[m] as int, walk[k].1, walk[n as int].0));
        assert(finished_before(finished, m, walk[n as int].0));
        let x = choose|x: int|
            0 <= x < m && x < finished.len() && (#[trigger] finished[x]) == walk[n as int].0;
        assert(finished[x] == walk[n as int].0);
    }
}

impl WaitGraph {
    /// The transactions' positions, in arrival order.
    fn in_arrival_order(&self) -> (order: Vec<usize>)
        ensures
            order@.len() == self@.nodes.len(),
            Seq::new(order@.len(), |k: int| order@[k] as int) == self@.arrival(
                self@.nodes.len() as int,
            ),
            forall|k: int| 0 <= k < order@.len() ==> (#[trigger] order@[k]) < self@.nodes.len(),
            forall|i: int|
                0 <= i < self@.nodes.len() ==> order@.contains(#[trigger] (i as usize)),
    {
        let ghost g = self@;
        let mut order: Vec<usize> = Vec::new();
        let mut i: usize = 0;
        assert(positions(order@) =~= g.arrival(0));
        while i < self.nodes.len()
            invariant
                g == self@,
                self.nodes@.len() == g.nodes.len(),
                i <= g.nodes.len(),
                order@.len() == i,
                positions(order@) == g.arrival(i as int),
                forall|k: int| 0 <= k < order@.len() ==> (#[trigger] order@[k]) < i,
                forall|m: int| 0 <= m < i ==> order@.contains(#[trigger] (m as usize)),
            decreases self.nodes.len() - i,
        {
            let ghost before = order@;
            let mut at: usize = order.len();
            assert(before.take(at as int) =~= before);
            assert(before.skip(at as int) =~= Seq::<usize>::empty());
            assert(g.placed(positions(before), i as int) =~= g.placed(
                positions(before.take(at as int)),
                i as int,
            ) + positions(before.skip(at as int)));
            while at > 0 && self.nodes[order[at - 1]].ordinal.0 > self.nodes[i].ordinal.0
                invariant
                    g == self@,
                    self.nodes@.len() == g.nodes.len(),
                    i < g.nodes.len(),
                    order@ == before,
                    at <= before.len(),
                    forall|k: int| 0 <= k < before.len() ==> (#[trigger] before[k]) < i,
                    g.placed(positions(before), i as int) == g.placed(
                        positions(before.take(at as int)),
                        i as int,
                    ) + positions(before.skip(at as int)),
                decreases at,
            {
                proof {
                    let short = positions(before.take(at as int));
                    assert(short.drop_last() =~= positions(before.take(at - 1)));
                    assert(short.last() == before[at - 1]);
                    assert(g.nodes[before[at - 1] as int].ordinal
                        == self.nodes@[before[at - 1] as int].ordinal);
                    assert(g.nodes[i as int].ordinal == self.nodes@[i as int].ordinal);
                    assert(positions(before.skip(at - 1)) =~= seq![before[at - 1] as int]
                        + positions(before.skip(at as int)));
                    assert(g.placed(short, i as int) + positions(before.skip(at as int))
                        =~= g.placed(positions(before.take(at - 1)), i as int) + positions(
                        before.skip(at - 1),
                    ));
                }
                at = at - 1;
            }
            proof {
                let short = positions(before.take(at as int));
                if at > 0 {
                    assert(short.last() == before[at - 1]);
                    assert(g.nodes[before[at - 1] as int].ordinal
                        == self.nodes@[before[at - 1] as int].ordinal);
                    assert(g.nodes[i as int].ordinal == self.nodes@[i as int].ordinal);
                }
                assert(g.placed(short, i as int) == short.push(i as int));
            }
            order.insert(at, i);
            proof {
                assert(order@ =~= before.insert(at as int, i));
                assert(positions(order@) =~= g.placed(positions(before), i as int));
                assert forall|m: int| 0 <= m < i + 1 implies order@.contains(
                    #[trigger] (m as usize),
                ) by {
                    if m < i {
                        assert(before.contains(m as usize));
                        let k = choose|k: int| 0 <= k < before.len() && before[k] == m as usize;
                        assert(order@[if k < at { k } else { k + 1 }] == m as usize);
                    } else {
                        assert(order@[at as int] == m as usize);
                    }
                }
                assert forall|k: int| 0 <= k < order@.len() implies (#[trigger] order@[k]) < i
                    + 1 by {
                    if k < at {
                        assert(order@[k] == before[k]);
                    } else if k > at {
                        assert(order@[k] == before[k - 1]);
                    }
                }
            }
            i = i + 1;
        }
        assert(positions(order@) =~= Seq::new(order@.len(), |k: int| order@[k] as int));
        order
    }

    /// Whether what is published, or one of these transactions, answers a wait.
    fn is_answered_by(&self, order: &Vec<usize>, wait: WaitPoint) -> (met: bool)
        requires
            self.wf(),
            forall|k: int| 0 <= k < order@.len() ==> (#[trigger] order@[k]) < self@.nodes.len(),
        ensures
            met == self@.answered_by(positions(order@), wait),
    {
        if self.already_published(wait) {
            return true;
        }
        let ghost at = positions(order@);
        let mut m: usize = 0;
        while m < order.len()
            invariant
                m <= order@.len(),
                at == positions(order@),
                forall|k: int| 0 <= k < order@.len() ==> (#[trigger] order@[k]) < self@.nodes.len(),
                forall|k: int|
                    0 <= k < m ==> !some_answers(self@.nodes[#[trigger] at[k]].produces, wait),
            decreases order.len() - m,
        {
            assert(at[m as int] == order@[m as int]);
            if self.node_answers(order[m], wait) {
                return true;
            }
            m = m + 1;
        }
        false
    }

    /// Whether what is published, or one of these transactions, answers every
    /// wait of a transaction.
    fn is_ready_after(&self, order: &Vec<usize>, i: usize) -> (ready: bool)
        requires
            self.wf(),
            i < self@.nodes.len(),
            forall|k: int| 0 <= k < order@.len() ==> (#[trigger] order@[k]) < self@.nodes.len(),
        ensures
            ready == self@.ready_after(positions(order@), i as int),
    {
        let node = &self.nodes[i];
        assert(self@.nodes[i as int] == node@);
        let mut k: usize = 0;
        while k < node.waits.len()
            invariant
                self.wf(),
                i < self@.nodes.len(),
                self@.nodes[i as int] == node@,
                forall|m: int| 0 <= m < order@.len() ==> (#[trigger] order@[m]) < self@.nodes.len(),
                k <= node.waits@.len(),
                forall|x: int|
                    0 <= x < k ==> self@.answered_by(
                        positions(order@),
                        #[trigger] self@.nodes[i as int].waits[x],
                    ),
            decreases node.waits.len() - k,
        {
            if !self.is_answered_by(order, node.waits[k]) {
                assert(!self@.answered_by(
                    positions(order@),
                    self@.nodes[i as int].waits[k as int],
                ));
                return false;
            }
            k = k + 1;
        }
        true
    }

    /// A transaction that is not among these and finds its waits answered by
    /// them.
    fn next_to_run(&self, order: &Vec<usize>) -> (next: Option<usize>)
        requires
            self.wf(),
            forall|k: int| 0 <= k < order@.len() ==> (#[trigger] order@[k]) < self@.nodes.len(),
        ensures
            match next {
                Some(i) => !order@.contains(i) && self@.ready_after(
                    positions(order@),
                    i as int,
                ),
                None => forall|i: int| #[trigger]
                    self@.ready_after(positions(order@), i) ==> order@.contains(i as usize),
            },
    {
        let mut i: usize = 0;
        while i < self.nodes.len()
            invariant
                self.wf(),
                self.nodes@.len() == self@.nodes.len(),
                i <= self.nodes@.len(),
                forall|k: int| 0 <= k < order@.len() ==> (#[trigger] order@[k]) < self@.nodes.len(),
                forall|m: int| #[trigger]
                    self@.ready_after(positions(order@), m) && m < i ==> order@.contains(
                        m as usize,
                    ),
            decreases self.nodes.len() - i,
        {
            let mut listed = false;
            let mut k: usize = 0;
            while k < order.len()
                invariant
                    k <= order@.len(),
                    listed == order@.take(k as int).contains(i),
                decreases order.len() - k,
            {
                proof {
                    let shorter = order@.take(k as int);
                    let longer = order@.take(k + 1);
                    assert(longer[k as int] == order@[k as int]);
                    if shorter.contains(i) {
                        let x = choose|x: int| 0 <= x < shorter.len() && shorter[x] == i;
                        assert(longer[x] == i);
                    }
                    if longer.contains(i) && !shorter.contains(i) {
                        let x = choose|x: int| 0 <= x < longer.len() && longer[x] == i;
                        if x < k {
                            assert(shorter[x] == i);
                        }
                    }
                }
                if order[k] == i {
                    listed = true;
                }
                k = k + 1;
            }
            assert(order@.take(k as int) =~= order@);
            if !listed && self.is_ready_after(order, i) {
                return Some(i);
            }
            i = i + 1;
        }
        None
    }

    /// Every transaction that can run, in an order in which they do.
    fn runnable(&self) -> (order: Vec<usize>)
        requires
            self.wf(),
        ensures
            forall|k: int| 0 <= k < order@.len() ==> (#[trigger] order@[k]) < self@.nodes.len(),
            self@.runs_in(positions(order@)),
            are_runnable(self@, order@),
    {
        let ghost g = self@;
        let mut order: Vec<usize> = Vec::new();
        loop
            invariant
                self.wf(),
                g == self@,
                forall|k: int| 0 <= k < order@.len() ==> (#[trigger] order@[k]) < g.nodes.len(),
                order@.no_duplicates(),
                g.runs_in(positions(order@)),
            ensures
                forall|i: int| #[trigger]
                    g.ready_after(positions(order@), i) ==> order@.contains(i as usize),
            decreases g.nodes.len() - order@.len(),
        {
            let i = match self.next_to_run(&order) {
                Some(i) => i,
                None => {
                    break;
                },
            };
            let ghost before = positions(order@);
            order.push(i);
            proof {
                assert(positions(order@) =~= before.push(i as int));
                lemma_run_next(g, before, i as int);
                lemma_distinct_positions(positions(order@), g.nodes.len() as int);
            }
        }
        proof {
            assert(g.nodes.len() == self.nodes.len());
            lemma_runnable(g, order@);
        }
        order
    }

    /// Each transaction's edges.
    fn adjacency(&self, order: &Vec<usize>) -> (lists: Vec<Vec<(WaitPoint, usize)>>)
        requires
            self.wf(),
            are_runnable(self@, order@),
        ensures
            lists_edges(self@, lists@),
    {
        let ghost g = self@;
        let mut lists: Vec<Vec<(WaitPoint, usize)>> = Vec::new();
        let mut i: usize = 0;
        while i < self.nodes.len()
            invariant
                self.wf(),
                g == self@,
                are_runnable(g, order@),
                self.nodes@.len() == g.nodes.len(),
                i <= g.nodes.len(),
                lists@.len() == i,
                forall|a: int, k: int| #![trigger lists@[a]@[k]]
                    0 <= a < lists@.len() && 0 <= k < lists@[a]@.len() ==> g.edge(
                        a,
                        lists@[a]@[k].0,
                        lists@[a]@[k].1 as int,
                    ),
                forall|a: int, w: WaitPoint, j: int| #[trigger]
                    g.edge(a, w, j) && a < i ==> lists@[a]@.contains((w, j as usize)),
                forall|a: int|
                    0 <= a < i ==> lists_steps((#[trigger] lists@[a])@, g.steps_from(a)),
            decreases self.nodes.len() - i,
        {
            let list = self.edges_from(i, order);
            let ghost before = lists@;
            let ghost added = list@;
            lists.push(list);
            proof {
                assert forall|a: int, k: int| #![trigger lists@[a]@[k]]
                    0 <= a < lists@.len() && 0 <= k < lists@[a]@.len() implies g.edge(
                    a,
                    lists@[a]@[k].0,
                    lists@[a]@[k].1 as int,
                ) by {
                    if a < i {
                        assert(before[a]@[k] == lists@[a]@[k]);
                    } else {
                        assert(added[k] == lists@[a]@[k]);
                    }
                }
                assert forall|a: int, w: WaitPoint, j: int| #[trigger]
                    g.edge(a, w, j) && a < i + 1 implies lists@[a]@.contains((w, j as usize)) by {
                    if a < i {
                        assert(before[a]@.contains((w, j as usize)));
                    } else {
                        assert(added.contains((w, j as usize)));
                    }
                }
            }
            i = i + 1;
        }
        reveal(lists_edges);
        lists
    }

    /// One transaction's edges.
    fn edges_from(&self, i: usize, order: &Vec<usize>) -> (list: Vec<(WaitPoint, usize)>)
        requires
            self.wf(),
            are_runnable(self@, order@),
            i < self@.nodes.len(),
        ensures
            forall|k: int|
                0 <= k < list@.len() ==> self@.edge(
                    i as int,
                    (#[trigger] list@[k]).0,
                    list@[k].1 as int,
                ),
            forall|w: WaitPoint, j: int| #[trigger]
                self@.edge(i as int, w, j) ==> list@.contains((w, j as usize)),
            lists_steps(list@, self@.steps_from(i as int)),
    {
        let ghost g = self@;
        let node = &self.nodes[i];
        assert(g.nodes[i as int] == node@);
        let mut list: Vec<(WaitPoint, usize)> = Vec::new();
        let mut k: usize = 0;
        while k < node.waits.len()
            invariant
                self.wf(),
                g == self@,
                are_runnable(g, order@),
                i < g.nodes.len(),
                self.nodes@.len() == g.nodes.len(),
                g.nodes[i as int] == node@,
                k <= node.waits@.len(),
                forall|m: int|
                    0 <= m < list@.len() ==> g.edge(
                        i as int,
                        (#[trigger] list@[m]).0,
                        list@[m].1 as int,
                    ),
                forall|x: int, j: int| #![trigger node.waits@[x], g.nodes[j]]
                    0 <= x < k && g.edge(i as int, node.waits@[x], j) ==> list@.contains(
                        (node.waits@[x], j as usize),
                    ),
                lists_steps(list@, g.steps_of_waits(i as int, k as int)),
            decreases node.waits.len() - k,
        {
            let wait = node.waits[k];
            let ghost earlier = list@;
            proof {
                lemma_answerable(g, order@, wait);
            }
            if !self.is_answered_by(order, wait) {
                let mut j: usize = 0;
                while j < self.nodes.len()
                    invariant
                        self.wf(),
                        g == self@,
                        i < g.nodes.len(),
                        self.nodes@.len() == g.nodes.len(),
                        g.nodes[i as int] == node@,
                        k < node.waits@.len(),
                        wait == node.waits@[k as int],
                        !g.answerable(wait),
                        j <= g.nodes.len(),
                        earlier.is_prefix_of(list@),
                        forall|m: int|
                            0 <= m < list@.len() ==> g.edge(
                                i as int,
                                (#[trigger] list@[m]).0,
                                list@[m].1 as int,
                            ),
                        forall|x: int|
                            0 <= x < j && some_answers((#[trigger] g.nodes[x]).produces, wait)
                                ==> list@.contains((wait, x as usize)),
                        lists_steps(
                            list@,
                            g.steps_of_waits(i as int, k as int) + g.answerers(wait, j as int),
                        ),
                    decreases self.nodes.len() - j,
                {
                    let ghost before = list@;
                    assert(g.nodes[j as int].produces == self.nodes@[j as int]@.produces);
                    if self.node_answers(j, wait) {
                        list.push((wait, j));
                        assert(g.nodes[i as int].waits[k as int] == wait);
                        assert(g.edge(i as int, wait, j as int));
                        assert(list@[before.len() as int] == (wait, j));
                    }
                    proof {
                        assert forall|x: int|
                            0 <= x < j + 1 && some_answers(
                                (#[trigger] g.nodes[x]).produces,
                                wait,
                            ) implies list@.contains((wait, x as usize)) by {
                            if x < j {
                                assert(before.contains((wait, x as usize)));
                                let m = choose|m: int|
                                    0 <= m < before.len() && before[m] == (wait, x as usize);
                                assert(list@[m] == before[m]);
                            }
                        }
                    }
                    j = j + 1;
                }
            }
            proof {
                assert forall|x: int, j: int| #![trigger node.waits@[x], g.nodes[j]]
                    0 <= x < k + 1 && g.edge(i as int, node.waits@[x], j) implies list@.contains(
                    (node.waits@[x], j as usize),
                ) by {
                    if x < k {
                        assert(earlier.contains((node.waits@[x], j as usize)));
                        let m = choose|m: int|
                            0 <= m < earlier.len() && earlier[m] == (
                                node.waits@[x],
                                j as usize,
                            );
                        assert(list@[m] == earlier[m]);
                    } else {
                        assert(some_answers(g.nodes[j].produces, wait));
                    }
                }
            }
            k = k + 1;
        }
        proof {
            assert forall|w: WaitPoint, j: int| #[trigger]
                g.edge(i as int, w, j) implies list@.contains((w, j as usize)) by {
                let x = choose|x: int| 0 <= x < node.waits@.len() && node.waits@[x] == w;
                assert(node.waits@[x] == w);
                let n = g.nodes[j];
            }
        }
        list
    }
}

/// The positions are of exactly the transactions that can run.
spec fn are_runnable(g: WaitModel, order: Seq<usize>) -> bool {
    &&& forall|k: int| 0 <= k < order.len() ==> (#[trigger] order[k]) < g.nodes.len()
    &&& forall|i: int| #[trigger] g.can_run(i) <==> positions(order).contains(i)
}

/// Distinct positions below a bound are no more than the bound.
proof fn lemma_distinct_positions(at: Seq<int>, n: int)
    requires
        at.no_duplicates(),
        forall|k: int| 0 <= k < at.len() ==> 0 <= #[trigger] at[k] < n,
        0 <= n,
    ensures
        at.len() <= n,
{
    let all = vstd::set_lib::set_int_range(0, n);
    vstd::set_lib::lemma_int_range(0, n);
    at.unique_seq_to_set();
    assert(at.to_set().subset_of(all)) by {
        assert forall|x: int| at.to_set().contains(x) implies all.contains(x) by {
            let k = choose|k: int| 0 <= k < at.len() && at[k] == x;
        }
    }
    vstd::set_lib::lemma_len_subset(at.to_set(), all);
}

/// More transactions answer no less.
proof fn lemma_answered_more(g: WaitModel, a: Seq<int>, b: Seq<int>, wait: WaitPoint)
    requires
        forall|k: int| 0 <= k < a.len() ==> b.contains(#[trigger] a[k]),
        g.answered_by(a, wait),
    ensures
        g.answered_by(b, wait),
{
    if !g.published(wait) {
        let m = choose|m: int|
            0 <= m < a.len() && some_answers(g.nodes[#[trigger] a[m]].produces, wait);
        assert(b.contains(a[m]));
        let x = choose|x: int| 0 <= x < b.len() && b[x] == a[m];
        assert(some_answers(g.nodes[b[x]].produces, wait));
    }
}

/// A transaction whose waits an order answers may run after it.
proof fn lemma_run_next(g: WaitModel, order: Seq<int>, i: int)
    requires
        g.runs_in(order),
        g.ready_after(order, i),
    ensures
        g.runs_in(order.push(i)),
{
    let longer = order.push(i);
    assert forall|k: int| 0 <= k < longer.len() implies g.ready_after(
        longer.take(k),
        #[trigger] longer[k],
    ) by {
        if k < order.len() {
            assert(longer.take(k) =~= order.take(k));
            assert(g.ready_after(order.take(k), order[k]));
        } else {
            assert(longer.take(k) =~= order);
        }
    }
}

/// One order may follow another.
proof fn lemma_run_both(g: WaitModel, a: Seq<int>, b: Seq<int>)
    requires
        g.runs_in(a),
        g.runs_in(b),
    ensures
        g.runs_in(a + b),
{
    let both = a + b;
    assert forall|k: int| 0 <= k < both.len() implies g.ready_after(
        both.take(k),
        #[trigger] both[k],
    ) by {
        if k < a.len() {
            assert(both.take(k) =~= a.take(k));
            assert(g.ready_after(a.take(k), a[k]));
        } else {
            let before = b.take(k - a.len());
            let i = b[k - a.len()];
            assert(g.ready_after(before, i));
            assert forall|x: int| 0 <= x < before.len() implies both.take(k).contains(
                #[trigger] before[x],
            ) by {
                assert(both.take(k)[a.len() + x] == before[x]);
            }
            assert forall|x: int| 0 <= x < g.nodes[i].waits.len() implies g.answered_by(
                both.take(k),
                #[trigger] g.nodes[i].waits[x],
            ) by {
                lemma_answered_more(g, before, both.take(k), g.nodes[i].waits[x]);
            }
        }
    }
}

/// An order that leaves out nothing it makes ready holds all that can run.
proof fn lemma_runnable(g: WaitModel, order: Seq<usize>)
    requires
        g.runs_in(positions(order)),
        g.nodes.len() <= usize::MAX,
        forall|k: int| 0 <= k < order.len() ==> (#[trigger] order[k]) < g.nodes.len(),
        forall|i: int| #[trigger]
            g.ready_after(positions(order), i) ==> order.contains(i as usize),
    ensures
        are_runnable(g, order),
{
    let at = positions(order);
    assert forall|i: int| #[trigger] g.can_run(i) implies at.contains(i) by {
        let other = choose|other: Seq<int>| #[trigger] g.runs_in(other) && other.contains(i);
        let k = choose|k: int| 0 <= k < other.len() && other[k] == i;
        lemma_run_listed(g, order, other, k);
    }
}

proof fn lemma_run_listed(g: WaitModel, order: Seq<usize>, other: Seq<int>, k: int)
    requires
        g.nodes.len() <= usize::MAX,
        forall|i: int| #[trigger]
            g.ready_after(positions(order), i) ==> order.contains(i as usize),
        g.runs_in(other),
        0 <= k < other.len(),
    ensures
        positions(order).contains(other[k]),
    decreases k,
{
    let at = positions(order);
    let before = other.take(k);
    let i = other[k];
    assert(g.ready_after(before, i));
    assert forall|x: int| 0 <= x < before.len() implies at.contains(#[trigger] before[x]) by {
        lemma_run_listed(g, order, other, x);
    }
    assert forall|x: int| 0 <= x < g.nodes[i].waits.len() implies g.answered_by(
        at,
        #[trigger] g.nodes[i].waits[x],
    ) by {
        lemma_answered_more(g, before, at, g.nodes[i].waits[x]);
    }
    assert(g.ready_after(at, i));
    assert(order.contains(i as usize));
    let x = choose|x: int| 0 <= x < order.len() && order[x] == i as usize;
    assert(at[x] == i);
}

/// A wait is answerable exactly when one of those that can run answers it.
proof fn lemma_answerable(g: WaitModel, order: Seq<usize>, wait: WaitPoint)
    requires
        are_runnable(g, order),
    ensures
        g.answered_by(positions(order), wait) == g.answerable(wait),
{
    let at = positions(order);
    if g.answered_by(at, wait) && !g.published(wait) {
        let m = choose|m: int|
            0 <= m < at.len() && some_answers(g.nodes[#[trigger] at[m]].produces, wait);
        assert(at.contains(at[m]));
        assert(g.can_run(at[m]));
    }
    if g.answerable(wait) && !g.published(wait) {
        let j = choose|j: int| #[trigger]
            g.can_run(j) && some_answers(g.nodes[j].produces, wait);
        let m = choose|m: int| 0 <= m < at.len() && at[m] == j;
        assert(some_answers(g.nodes[at[m]].produces, wait));
    }
}

/// Some order answers the first `k` waits of a transaction, if each is
/// answerable.
proof fn lemma_order_answering(g: WaitModel, i: int, k: int) -> (order: Seq<int>)
    requires
        0 <= i < g.nodes.len(),
        0 <= k <= g.nodes[i].waits.len(),
        forall|x: int| 0 <= x < k ==> g.answerable(#[trigger] g.nodes[i].waits[x]),
    ensures
        g.runs_in(order),
        forall|x: int| 0 <= x < k ==> g.answered_by(order, #[trigger] g.nodes[i].waits[x]),
    decreases k,
{
    if k == 0 {
        Seq::empty()
    } else {
        let before = lemma_order_answering(g, i, k - 1);
        let wait = g.nodes[i].waits[k - 1];
        if g.published(wait) {
            before
        } else {
            let j = choose|j: int| #[trigger]
                g.can_run(j) && some_answers(g.nodes[j].produces, wait);
            let more = choose|more: Seq<int>| #[trigger] g.runs_in(more) && more.contains(j);
            let m = choose|m: int| 0 <= m < more.len() && more[m] == j;
            let both = before + more;
            lemma_run_both(g, before, more);
            assert forall|x: int| 0 <= x < k implies g.answered_by(
                both,
                #[trigger] g.nodes[i].waits[x],
            ) by {
                if x < k - 1 {
                    assert forall|y: int| 0 <= y < before.len() implies both.contains(
                        #[trigger] before[y],
                    ) by {
                        assert(both[y] == before[y]);
                    }
                    lemma_answered_more(g, before, both, g.nodes[i].waits[x]);
                } else {
                    assert(both[before.len() + m] == j);
                }
            }
            both
        }
    }
}

/// A transaction that cannot run is held up by one of its waits.
proof fn lemma_held_up(g: WaitModel, i: int) -> (k: int)
    requires
        0 <= i < g.nodes.len(),
        !g.can_run(i),
    ensures
        0 <= k < g.nodes[i].waits.len(),
        !g.answerable(g.nodes[i].waits[k]),
{
    if forall|x: int|
        0 <= x < g.nodes[i].waits.len() ==> g.answerable(#[trigger] g.nodes[i].waits[x]) {
        let order = lemma_order_answering(g, i, g.nodes[i].waits.len() as int);
        lemma_run_next(g, order, i);
        assert(order.push(i)[order.len() as int] == i);
        assert(g.can_run(i));
    }
    choose|k: int|
        0 <= k < g.nodes[i].waits.len() && !g.answerable(#[trigger] g.nodes[i].waits[k])
}

/// A transaction that can run has every wait answerable.
proof fn lemma_running_is_answered(g: WaitModel, i: int, k: int)
    requires
        g.can_run(i),
    ensures
        0 <= i < g.nodes.len(),
        0 <= k < g.nodes[i].waits.len() ==> g.answerable(g.nodes[i].waits[k]),
{
    let order = choose|order: Seq<int>| #[trigger] g.runs_in(order) && order.contains(i);
    let n = choose|n: int| 0 <= n < order.len() && order[n] == i;
    assert(g.ready_after(order.take(n), order[n]));
    if 0 <= k < g.nodes[i].waits.len() {
        let wait = g.nodes[i].waits[k];
        assert(g.answered_by(order.take(n), wait));
        if !g.published(wait) {
            let m = choose|m: int|
                0 <= m < n && some_answers(g.nodes[#[trigger] order.take(n)[m]].produces, wait);
            assert(order.contains(order[m]));
            assert(g.can_run(order[m]));
        }
    }
}

/// Where every point is produced, whatever cannot run waits in a circle, which
/// following the waits that hold it up comes to.
proof fn lemma_finds_cycle(g: WaitModel, walk: Seq<(int, WaitPoint)>, at: int) -> (cycle: Seq<
    (int, WaitPoint),
>)
    requires
        forall|i: int, k: int|
            0 <= i < g.nodes.len() && 0 <= k < g.nodes[i].waits.len() ==> g.published(
                #[trigger] g.nodes[i].waits[k],
            ) || g.produced(g.nodes[i].waits[k]),
        0 <= at < g.nodes.len(),
        !g.can_run(at),
        !on_walk(walk, at),
        g.leads_to(walk, at),
        forall|k: int| 0 <= k < walk.len() ==> 0 <= (#[trigger] walk[k]).0 < g.nodes.len(),
        forall|a: int, b: int|
            0 <= a < b < walk.len() ==> (#[trigger] walk[a]).0 != (#[trigger] walk[b]).0,
    ensures
        g.is_cycle(cycle),
    decreases g.nodes.len() - walk.len(),
{
    let k = lemma_held_up(g, at);
    let wait = g.nodes[at].waits[k];
    assert(g.nodes[at].waits.contains(wait));
    assert(g.produced(wait));
    let j = choose|j: int|
        0 <= j < g.nodes.len() && some_answers((#[trigger] g.nodes[j]).produces, wait);
    assert(g.edge(at, wait, j));
    assert(!g.can_run(j));
    let longer = walk.push((at, wait));
    assert forall|x: int| 0 <= x < longer.len() implies #[trigger] g.steps(longer, x, j) by {
        if x < walk.len() {
            assert(g.steps(walk, x, at));
            assert(longer[x] == walk[x]);
            assert(next_of(longer, x, j) == next_of(walk, x, at));
        }
    }
    assert forall|a: int, b: int| 0 <= a < b < longer.len() implies (#[trigger] longer[a]).0 != (
    #[trigger] longer[b]).0 by {
        assert(longer[a] == walk[a]);
        if b < walk.len() {
            assert(longer[b] == walk[b]);
        } else if longer[a].0 == at {
            assert(on_walk(walk, at));
        }
    }
    if on_walk(longer, j) {
        let start = choose|start: int|
            0 <= start < longer.len() && (#[trigger] longer[start]).0 == j;
        let cycle = longer.skip(start);
        assert forall|x: int| 0 <= x < cycle.len() implies #[trigger] g.steps(
            cycle,
            x,
            cycle[0].0,
        ) by {
            assert(g.steps(longer, start + x, j));
            assert(cycle[x] == longer[start + x]);
            assert(next_of(cycle, x, cycle[0].0) == next_of(longer, start + x, j));
        }
        cycle
    } else {
        let at_each = Seq::new(longer.len(), |x: int| longer[x].0);
        assert forall|a: int, b: int|
            0 <= a < at_each.len() && 0 <= b < at_each.len() && a != b implies at_each[a]
            != at_each[b] by {
            if a < b {
                assert(longer[a].0 != longer[b].0);
            } else {
                assert(longer[b].0 != longer[a].0);
            }
        }
        lemma_distinct_positions(at_each, g.nodes.len() as int);
        lemma_finds_cycle(g, longer, j)
    }
}

/// An edge is listed exactly when one transaction waits for the other.
proof fn lemma_edge_iff(
    g: WaitModel,
    w: IngressOrdinal,
    p: WaitPoint,
    q: IngressOrdinal,
)
    ensures
        g.edges().contains((w, p, q)) <==> g.waits_for(w, p, q),
{
    let n = g.nodes.len() as int;
    let all = g.answers_of(n);
    let e = (w, p, q);
    let apart = |e: (IngressOrdinal, WaitPoint, IngressOrdinal)| e.0 != e.2;
    assert(g.edges() == all.filter(apart));
    lemma_answers_iff(g, n, e);
    if g.edges().contains(e) {
        let k = choose|k: int| 0 <= k < g.edges().len() && g.edges()[k] == e;
        all.lemma_filter_pred(apart, k);
        all.lemma_filter_contains_rev(apart, e);
        let (i, j) = choose|i: int, j: int| #[trigger] answers_at(g, n, e, i, j);
        assert(g.unmet(i, p, j));
    }
    if g.waits_for(w, p, q) {
        let (i, j) = choose|i: int, j: int| #[trigger]
            g.unmet(i, p, j) && g.nodes[i].ordinal == w && g.nodes[j].ordinal == q;
        assert(answers_at(g, n, e, i, j));
        let k = choose|k: int| 0 <= k < all.len() && all[k] == e;
        all.lemma_filter_contains(apart, k);
    }
}

/// The wait of one of the first `n` transactions and what answers it.
spec fn answers_at(
    g: WaitModel,
    n: int,
    e: (IngressOrdinal, WaitPoint, IngressOrdinal),
    i: int,
    j: int,
) -> bool {
    i < n && g.unmet(i, e.1, j) && g.nodes[i].ordinal == e.0 && g.nodes[j].ordinal == e.2
}

/// What answers is listed, and nothing else.
proof fn lemma_answers_iff(g: WaitModel, n: int, e: (IngressOrdinal, WaitPoint, IngressOrdinal))
    requires
        0 <= n <= g.nodes.len(),
    ensures
        g.answers_of(n).contains(e) <==> exists|i: int, j: int| #[trigger]
            answers_at(g, n, e, i, j),
    decreases n,
{
    if n > 0 {
        let before = g.answers_of(n - 1);
        let waits = g.nodes[n - 1].waits;
        let more = g.answers_of_waits(n - 1, waits.len() as int);
        lemma_answers_iff(g, n - 1, e);
        lemma_answers_of_waits_iff(g, n - 1, waits.len() as int, e);
        lemma_either(before, more, e);
        if before.contains(e) {
            let (i, j) = choose|i: int, j: int| #[trigger] answers_at(g, n - 1, e, i, j);
            assert(answers_at(g, n, e, i, j));
        }
        if more.contains(e) {
            let (k, j) = choose|k: int, j: int| #[trigger]
                wait_answered_at(g, n - 1, waits.len() as int, e, k, j);
            assert(waits[k] == e.1);
            assert(answers_at(g, n, e, n - 1, j));
        }
        if exists|i: int, j: int| #[trigger] answers_at(g, n, e, i, j) {
            let (i, j) = choose|i: int, j: int| #[trigger] answers_at(g, n, e, i, j);
            if i < n - 1 {
                assert(answers_at(g, n - 1, e, i, j));
            } else {
                let k = choose|k: int| 0 <= k < waits.len() && waits[k] == e.1;
                assert(wait_answered_at(g, n - 1, waits.len() as int, e, k, j));
            }
        }
    }
}

/// One of the first `n` waits of a transaction and what answers it.
spec fn wait_answered_at(
    g: WaitModel,
    i: int,
    n: int,
    e: (IngressOrdinal, WaitPoint, IngressOrdinal),
    k: int,
    j: int,
) -> bool {
    0 <= k < n && g.nodes[i].waits[k] == e.1 && !g.published(e.1) && g.nodes[i].ordinal == e.0
        && produced_at(g, g.nodes.len() as int, e, j)
}

/// One of the first `n` transactions is the producer.
spec fn produced_at(
    g: WaitModel,
    n: int,
    e: (IngressOrdinal, WaitPoint, IngressOrdinal),
    j: int,
) -> bool {
    0 <= j < n && some_answers(g.nodes[j].produces, e.1) && g.nodes[j].ordinal == e.2
}

proof fn lemma_answers_of_waits_iff(
    g: WaitModel,
    i: int,
    n: int,
    e: (IngressOrdinal, WaitPoint, IngressOrdinal),
)
    requires
        0 <= i < g.nodes.len(),
        0 <= n <= g.nodes[i].waits.len(),
    ensures
        g.answers_of_waits(i, n).contains(e) <==> exists|k: int, j: int| #[trigger]
            wait_answered_at(g, i, n, e, k, j),
    decreases n,
{
    if n > 0 {
        let before = g.answers_of_waits(i, n - 1);
        let wait = g.nodes[i].waits[n - 1];
        let all = g.nodes.len() as int;
        let more = g.producers_of(g.nodes[i].ordinal, wait, all);
        lemma_answers_of_waits_iff(g, i, n - 1, e);
        lemma_producers_iff(g, g.nodes[i].ordinal, wait, all, e);
        lemma_either(before, more, e);
        if before.contains(e) {
            let (k, j) = choose|k: int, j: int| #[trigger]
                wait_answered_at(g, i, n - 1, e, k, j);
            assert(wait_answered_at(g, i, n, e, k, j));
        }
        if more.contains(e) && !g.published(wait) {
            let j = choose|j: int| #[trigger] produced_at(g, all, e, j);
            assert(wait_answered_at(g, i, n, e, n - 1, j));
        }
        if exists|k: int, j: int| #[trigger] wait_answered_at(g, i, n, e, k, j) {
            let (k, j) = choose|k: int, j: int| #[trigger] wait_answered_at(g, i, n, e, k, j);
            if k < n - 1 {
                assert(wait_answered_at(g, i, n - 1, e, k, j));
            } else {
                assert(produced_at(g, all, e, j));
            }
        }
    }
}

proof fn lemma_producers_iff(
    g: WaitModel,
    waiter: IngressOrdinal,
    wait: WaitPoint,
    n: int,
    e: (IngressOrdinal, WaitPoint, IngressOrdinal),
)
    requires
        0 <= n <= g.nodes.len(),
    ensures
        g.producers_of(waiter, wait, n).contains(e) <==> e.0 == waiter && e.1 == wait
            && exists|j: int| #[trigger] produced_at(g, n, e, j),
    decreases n,
{
    if n > 0 {
        let before = g.producers_of(waiter, wait, n - 1);
        let out = g.producers_of(waiter, wait, n);
        let last = (waiter, wait, g.nodes[n - 1].ordinal);
        lemma_producers_iff(g, waiter, wait, n - 1, e);
        if some_answers(g.nodes[n - 1].produces, wait) {
            assert(out =~= before + seq![last]);
            lemma_either(before, seq![last], e);
            assert(seq![last].contains(e) <==> e == last) by {
                assert(seq![last][0] == last);
            }
            if e == last {
                assert(produced_at(g, n, e, n - 1));
            }
        }
        if before.contains(e) {
            let j = choose|j: int| #[trigger] produced_at(g, n - 1, e, j);
            assert(produced_at(g, n, e, j));
        }
        if e.0 == waiter && e.1 == wait && exists|j: int| #[trigger] produced_at(g, n, e, j) {
            let j = choose|j: int| #[trigger] produced_at(g, n, e, j);
            if j < n - 1 {
                assert(produced_at(g, n - 1, e, j));
            }
        }
    }
}

proof fn lemma_either<A>(a: Seq<A>, b: Seq<A>, e: A)
    ensures
        (a + b).contains(e) <==> a.contains(e) || b.contains(e),
{
    if a.contains(e) {
        let k = choose|k: int| 0 <= k < a.len() && a[k] == e;
        assert((a + b)[k] == e);
    }
    if b.contains(e) {
        let k = choose|k: int| 0 <= k < b.len() && b[k] == e;
        assert((a + b)[a.len() + k] == e);
    }
    if (a + b).contains(e) {
        let k = choose|k: int| 0 <= k < (a + b).len() && (a + b)[k] == e;
        if k < a.len() {
            assert(a[k] == e);
        } else {
            assert(b[k - a.len()] == e);
        }
    }
}

/// Positions as integers.
spec fn positions(order: Seq<usize>) -> Seq<int> {
    Seq::new(order.len(), |k: int| order[k] as int)
}

impl WaitGraph {
    /// The transactions of a path from one of its steps on, ascending.
    fn members_from(&self, path: &Vec<(usize, WaitPoint)>, start: usize) -> (members: Vec<
        IngressOrdinal,
    >)
        requires
            start <= path@.len(),
            forall|k: int| 0 <= k < path@.len() ==> (#[trigger] path@[k]).0 < self@.nodes.len(),
        ensures
            self@.are_members(members@, walk_of(path@).skip(start as int)),
    {
        let ghost g = self@;
        let ghost walk = walk_of(path@).skip(start as int);
        let mut set = OrdinalSet::new();
        let mut k: usize = start;
        while k < path.len()
            invariant
                g == self@,
                self.nodes@.len() == g.nodes.len(),
                start <= k <= path@.len(),
                walk == walk_of(path@).skip(start as int),
                forall|m: int| 0 <= m < path@.len() ==> (#[trigger] path@[m]).0 < g.nodes.len(),
                set.wf(),
                forall|o: IngressOrdinal| #[trigger]
                    set@.contains(o) == visits(g, walk.take(k - start), o),
            decreases path.len() - k,
        {
            let ghost before = set@;
            let node = path[k].0;
            set.insert(self.nodes[node].ordinal);
            proof {
                assert(g.nodes[node as int].ordinal == self.nodes@[node as int].ordinal);
                let short = walk.take(k - start);
                let long = walk.take(k + 1 - start);
                assert(long[k - start].0 == node);
                assert forall|o: IngressOrdinal| #[trigger]
                    set@.contains(o) == visits(g, long, o) by {
                    assert(before.contains(o) == visits(g, short, o));
                    if visits(g, short, o) {
                        let m = choose|m: int|
                            0 <= m < short.len() && g.nodes[(#[trigger] short[m]).0].ordinal == o;
                        assert(long[m] == short[m]);
                    }
                    if visits(g, long, o) {
                        let m = choose|m: int|
                            0 <= m < long.len() && g.nodes[(#[trigger] long[m]).0].ordinal == o;
                        if m < short.len() {
                            assert(short[m] == long[m]);
                        }
                    }
                }
            }
            k = k + 1;
        }
        assert(walk.take(k - start) =~= walk);
        set.into_vec()
    }

    /// Report the cycle that stands on the path from `at` on, unless its
    /// members were reported.
    fn close_cycle(&self, at: usize, path: &Vec<(usize, WaitPoint)>, cycles: &mut Vec<Diagnosis>)
        requires
            self.wf(),
            sound_reports(self@, old(cycles)@),
            self@.leads_to(walk_of(path@), at as int),
            on_path(path@, at as int),
            forall|k: int| 0 <= k < path@.len() ==> (#[trigger] path@[k]).0 < self@.nodes.len(),
        ensures
            sound_reports(self@, final(cycles)@),
            old(cycles)@.is_prefix_of(final(cycles)@),
            reported(
                final(cycles)@,
                self@.nodes[path@.last().0 as int].ordinal,
                self@.nodes[at as int].ordinal,
            ),
            forall|done: Set<int>| #[trigger]
                self@.closed(
                    walk_of(path@),
                    at as int,
                    Found { done, loops: loops_of(old(cycles)@) },
                ) == (Found { done, loops: loops_of(final(cycles)@) }),
    {
        let ghost g = self@;
        let mut start: usize = 0;
        while start < path.len() && path[start].0 != at
            invariant
                start <= path@.len(),
                forall|k: int| 0 <= k < start ==> (#[trigger] path@[k]).0 != at,
            decreases path.len() - start,
        {
            start = start + 1;
        }
        if start >= path.len() {
            proof {
                let k = choose|k: int| 0 <= k < path@.len() && (#[trigger] path@[k]).0 == at;
                assert(path@[k].0 != at);
            }
            return;
        }
        let closed_by = path[start].1;
        let members = self.members_from(path, start);
        let ghost walk = walk_of(path@).skip(start as int);
        proof {
            lemma_closed_walk(g, path@, start as int, at as int, members@);
            lemma_closes_at(g, path@, start as int, at as int, members@);
            lemma_all_loops(g, cycles@);
        }
        match find_members(cycles, &members) {
            Some(i) => {
                assert(loops_of(cycles@)[i as int].members == members@);
                assert(has_members(loops_of(cycles@), members@));
                assert(reports_both(
                    cycles@[i as int],
                    g.nodes[path@.last().0 as int].ordinal,
                    g.nodes[at as int].ordinal,
                ));
            },
            None => {
                let report = Diagnosis::Cycle { members, closed_by };
                assert(g.is_cycle(walk) && g.are_members(members@, walk) && closed_by
                    == walk[0].1);
                assert(g.true_report(report));
                let ghost prior = cycles@;
                assert(!has_members(loops_of(prior), members@)) by {
                    if has_members(loops_of(prior), members@) {
                        let k = choose|k: int|
                            0 <= k < prior.len() && (#[trigger] loops_of(prior)[k]).members
                                == members@;
                        assert(reports_loop(prior[k], loops_of(prior)[k]));
                    }
                }
                cycles.push(report);
                proof {
                    assert(loops_of(cycles@) =~= loops_of(prior).push(
                        Loop { members: members@, closed_by },
                    ));
                    lemma_report_added(g, prior, report);
                    assert(reports_both(
                        cycles@[prior.len() as int],
                        g.nodes[path@.last().0 as int].ordinal,
                        g.nodes[at as int].ordinal,
                    ));
                }
            },
        }
    }

    /// Depth-first cycle search from one transaction.
    fn walk(
        &self,
        at: usize,
        adjacency: &Vec<Vec<(WaitPoint, usize)>>,
        colour: &mut Vec<Colour>,
        path: &mut Vec<(usize, WaitPoint)>,
        finished: &mut Vec<usize>,
        cycles: &mut Vec<Diagnosis>,
    )
        requires
            self.wf(),
            at < self@.nodes.len(),
            lists_edges(self@, adjacency@),
            searching(self@, old(colour)@, old(path)@, old(finished)@, old(cycles)@),
            self@.leads_to(walk_of(old(path)@), at as int),
        ensures
            final(path)@ == old(path)@,
            searching(self@, final(colour)@, final(path)@, final(finished)@, final(cycles)@),
            search_grew(
                old(colour)@,
                old(finished)@,
                old(cycles)@,
                final(colour)@,
                final(finished)@,
                final(cycles)@,
            ),
            old(colour)@[at as int] is Unseen ==> final(colour)@[at as int] is Done,
            old(colour)@[at as int] is Open ==> reported(
                final(cycles)@,
                self@.nodes[old(path)@.last().0 as int].ordinal,
                self@.nodes[at as int].ordinal,
            ),
            found_of(final(colour)@, final(cycles)@) == self@.searched(
                walk_of(old(path)@),
                at as int,
                found_of(old(colour)@, old(cycles)@),
            ),
        decreases unseen(old(colour)@),
    {
        let ghost g = self@;
        let ghost colour0 = colour@;
        let ghost path0 = path@;
        let ghost finished0 = finished@;
        let ghost cycles0 = cycles@;
        let ghost found0 = found_of(colour0, cycles0);
        let ghost walk0 = walk_of(path0);
        proof {
            lemma_searching_facts(g, colour0, path0, finished0, cycles0, at as int);
            lemma_search_place(g, colour0, path0, finished0, cycles0, at as int);
        }
        match colour[at] {
            Colour::Done => {
                return;
            },
            Colour::Open => {
                self.close_cycle(at, path, cycles);
                proof {
                    lemma_reports_grew(g, colour0, path0, finished0, cycles0, cycles@);
                }
                return;
            },
            Colour::Unseen => {},
        }
        proof {
            lemma_unseen_drops(colour0, at as int, Colour::Open);
            lemma_opened(g, colour0, path0, finished0, cycles0, at as int);
            lemma_adjacency_in_range(g, adjacency@, at as int);
        }
        colour.set(at, Colour::Open);
        let ghost opened = colour@;
        let edges = &adjacency[at];
        let ghost steps = g.steps_from(at as int);
        proof {
            assert(found_of(opened, cycles0) =~= found0);
            reveal(lists_edges);
            assert(lists_steps(adjacency@[at as int]@, steps));
        }
        let mut k: usize = 0;
        while k < edges.len()
            invariant
                self.wf(),
                g == self@,
                at < g.nodes.len(),
                lists_edges(g, adjacency@),
                forall|m: int|
                    0 <= m < edges@.len() ==> g.edge(
                        at as int,
                        (#[trigger] edges@[m]).0,
                        edges@[m].1 as int,
                    ),
                k <= edges@.len(),
                path@ == path0,
                g.leads_to(walk_of(path0), at as int),
                unseen(opened) < unseen(old(colour)@),
                half_open(g, colour@, path0, at as int, finished@, cycles@),
                search_grew(opened, finished0, cycles0, colour@, finished@, cycles@),
                walk0 == walk_of(path0),
                walk0.len() < g.nodes.len(),
                steps == g.steps_from(at as int),
                lists_steps(edges@, steps),
                found_of(colour@, cycles@) == g.searched_ahead(walk0, at as int, found0, k as int),
                forall|m: int|
                    0 <= m < k ==> leads_down(
                        g,
                        finished@,
                        cycles@,
                        at as int,
                        (#[trigger] edges@[m]).1 as int,
                    ),
            decreases edges.len() - k,
        {
            let (wait, next) = edges[k];
            let ghost colour1 = colour@;
            let ghost finished1 = finished@;
            let ghost cycles1 = cycles@;
            proof {
                lemma_grew_unseen(opened, finished0, cycles0, colour1, finished1, cycles1);
                lemma_push_path(g, colour1, path0, at as int, wait, finished1, cycles1);
                lemma_path_leads(g, path0, at as int, wait, next as int);
            }
            path.push((at, wait));
            let ghost longer = path@;
            self.walk(next, adjacency, colour, path, finished, cycles);
            let _ = path.pop();
            proof {
                assert(longer == path0.push((at, wait)));
                assert(path@ =~= path0);
                assert(longer.last().0 == at);
                assert(walk_of(longer) =~= walk0.push((at as int, wait)));
                assert(steps[k as int] == (wait, next as int));
                lemma_searching_facts(g, colour@, longer, finished@, cycles@, at as int);
                lemma_pop_path(g, colour@, path0, at as int, wait, finished@, cycles@);
                lemma_grew_twice(
                    opened,
                    finished0,
                    cycles0,
                    colour1,
                    finished1,
                    cycles1,
                    colour@,
                    finished@,
                    cycles@,
                );
                lemma_edge_led_down(
                    g,
                    colour1,
                    path0,
                    at as int,
                    finished1,
                    cycles1,
                    colour@,
                    finished@,
                    cycles@,
                    next as int,
                );
                assert forall|m: int| 0 <= m < k + 1 implies leads_down(
                    g,
                    finished@,
                    cycles@,
                    at as int,
                    (#[trigger] edges@[m]).1 as int,
                ) by {
                    if m < k {
                        lemma_leads_down_grew(
                            g,
                            colour1,
                            finished1,
                            cycles1,
                            colour@,
                            finished@,
                            cycles@,
                            at as int,
                            edges@[m].1 as int,
                        );
                    }
                }
            }
            k = k + 1;
        }
        let ghost colour2 = colour@;
        let ghost finished2 = finished@;
        proof {
            lemma_half_open_len(g, colour2, path0, at as int, finished2, cycles@);
        }
        colour.set(at, Colour::Done);
        finished.push(at);
        proof {
            assert forall|w: WaitPoint, j: int| #[trigger]
                g.edge(at as int, w, j) implies leads_down(g, finished2, cycles@, at as int, j) by {
                lemma_edge_listed(g, adjacency@, at as int, w, j);
                let m = choose|m: int| 0 <= m < edges@.len() && edges@[m] == (w, j as usize);
                assert(leads_down(g, finished2, cycles@, at as int, edges@[m].1 as int));
            }
            lemma_finish(g, colour2, path0, at, finished2, cycles@);
            assert(colour@ =~= colour2.update(at as int, Colour::Done));
            assert(finished@ =~= finished2.push(at));
            assert(found_of(colour@, cycles@).done =~= found_of(colour2, cycles@).done.insert(
                at as int,
            ));
            lemma_grew_through(
                colour0,
                finished0,
                cycles0,
                colour2,
                finished2,
                cycles@,
                at,
            );
        }
    }

    /// Every reason an accepted wait cannot be answered: the points nothing
    /// produces, in arrival order of the waiters, and then the cycles among what
    /// cannot run, as a depth-first search with its roots in arrival order
    /// comes to them.
    ///
    /// A transaction whose waits are answered by what is published, or by
    /// others that can run, is no part of a cycle.
    #[must_use]
    pub fn diagnose(&self) -> (out: Vec<Diagnosis>)
        requires
            self.wf(),
        ensures
            out@.len() >= self@.unproduced().len(),
            forall|k: int|
                0 <= k < self@.unproduced().len() ==> (#[trigger] out@[k]) == (
                Diagnosis::Unproduced {
                    waiter: self@.unproduced()[k].0,
                    point: self@.unproduced()[k].1,
                }),
            report_loops(out@.skip(self@.unproduced().len() as int), self@.loops()),
            sound_reports(self@, out@.skip(self@.unproduced().len() as int)),
            complete_reports(self@, out@.skip(self@.unproduced().len() as int)),
            out@.len() == 0 <==> self@.all_run(),
    {
        let ghost g = self@;
        let order = self.in_arrival_order();
        let ghost arrival = positions(order@);
        assert(arrival =~= g.arrival(g.nodes.len() as int));
        let mut out: Vec<Diagnosis> = Vec::new();
        let mut n: usize = 0;
        while n < order.len()
            invariant
                self.wf(),
                g == self@,
                self.nodes@.len() == g.nodes.len(),
                n <= order@.len(),
                arrival == positions(order@),
                forall|k: int| 0 <= k < order@.len() ==> (#[trigger] order@[k]) < g.nodes.len(),
                unproduced_reports(out@, g.unproduced_by(arrival.take(n as int))),
            decreases order.len() - n,
        {
            let i = order[n];
            proof {
                assert(arrival.take(n + 1).drop_last() =~= arrival.take(n as int));
                assert(arrival.take(n + 1).last() == i);
            }
            let node = &self.nodes[i];
            assert(g.nodes[i as int] == node@);
            let ghost so_far = g.unproduced_by(arrival.take(n as int));
            let mut k: usize = 0;
            assert(so_far + g.unproduced_of(i as int, 0) =~= so_far);
            while k < node.waits.len()
                invariant
                    self.wf(),
                    g == self@,
                    g.nodes[i as int] == node@,
                    k <= node.waits@.len(),
                    unproduced_reports(out@, so_far + g.unproduced_of(i as int, k as int)),
                decreases node.waits.len() - k,
            {
                let wait = node.waits[k];
                let ghost listed = so_far + g.unproduced_of(i as int, k as int);
                if !self.already_published(wait) && !self.any_answers(wait) {
                    out.push(Diagnosis::Unproduced { waiter: node.ordinal, point: wait });
                    assert(so_far + g.unproduced_of(i as int, k + 1) =~= listed.push(
                        (node.ordinal, wait),
                    ));
                }
                k = k + 1;
            }
            n = n + 1;
        }
        assert(arrival.take(n as int) =~= arrival);
        let runnable = self.runnable();
        let adjacency = self.adjacency(&runnable);
        let mut colour: Vec<Colour> = Vec::new();
        let mut c: usize = 0;
        while c < self.nodes.len()
            invariant
                c <= self.nodes@.len(),
                colour@.len() == c,
                forall|i: int| 0 <= i < colour@.len() ==> (#[trigger] colour@[i]) is Unseen,
            decreases self.nodes.len() - c,
        {
            colour.push(Colour::Unseen);
            c = c + 1;
        }
        let mut path: Vec<(usize, WaitPoint)> = Vec::new();
        let mut finished: Vec<usize> = Vec::new();
        let mut cycles: Vec<Diagnosis> = Vec::new();
        proof {
            lemma_search_starts(g, colour@);
            assert(arrival.take(0) =~= Seq::<int>::empty());
            assert(found_of(colour@, cycles@) =~= g.searched_all(arrival.take(0)));
        }
        let mut r: usize = 0;
        while r < order.len()
            invariant
                self.wf(),
                g == self@,
                r <= order@.len(),
                lists_edges(g, adjacency@),
                forall|k: int| 0 <= k < order@.len() ==> (#[trigger] order@[k]) < g.nodes.len(),
                path@ == Seq::<(usize, WaitPoint)>::empty(),
                searching(g, colour@, path@, finished@, cycles@),
                colour@.len() == g.nodes.len(),
                forall|k: int| 0 <= k < r ==> colour@[(#[trigger] order@[k]) as int] is Done,
                arrival == positions(order@),
                found_of(colour@, cycles@) == g.searched_all(arrival.take(r as int)),
            decreases order.len() - r,
        {
            let root = order[r];
            let ghost before = colour@;
            let ghost finished1 = finished@;
            let ghost cycles1 = cycles@;
            proof {
                lemma_searching_facts(g, before, path@, finished1, cycles1, root as int);
            }
            self.walk(root, &adjacency, &mut colour, &mut path, &mut finished, &mut cycles);
            proof {
                lemma_grew_keeps_done(before, finished1, cycles1, colour@, finished@, cycles@);
                assert(walk_of(path@) =~= Seq::<(int, WaitPoint)>::empty());
                assert(arrival.take(r + 1).drop_last() =~= arrival.take(r as int));
                assert(arrival.take(r + 1).last() == root as int);
                assert forall|k: int| 0 <= k < r + 1 implies colour@[(
                #[trigger] order@[k]) as int] is Done by {
                    if k < r {
                        assert(before[order@[k] as int] is Done);
                    }
                }
            }
            r = r + 1;
        }
        proof {
            assert forall|i: int| 0 <= i < colour@.len() implies (#[trigger] colour@[i]) is Done by {
                assert(order@.contains(i as usize));
                let k = choose|k: int| 0 <= k < order@.len() && order@[k] == i as usize;
                assert(colour@[order@[k] as int] is Done);
            }
            lemma_complete(g, colour@, finished@, cycles@);
            lemma_searching_sound(g, colour@, path@, finished@, cycles@);
            assert(arrival.take(r as int) =~= arrival);
            lemma_all_loops(g, cycles@);
        }
        let ghost first = out@;
        let ghost found = cycles@;
        out.append(&mut cycles);
        proof {
            assert(out@ =~= first + found);
            assert(out@.skip(g.unproduced().len() as int) =~= found);
            if found.len() > 0 {
                assert(g.true_report(found[0]));
                let walk = choose|walk: Seq<(int, WaitPoint)>| #[trigger]
                    g.is_cycle(walk) && g.are_members(found[0]->members@, walk)
                        && found[0]->closed_by == walk[0].1;
                no_member_of_a_cycle_can_run(g, walk, 0);
            }
            if first.len() > 0 {
                lemma_unproduced_held_up(g, arrival, 0);
            }
            if first.len() == 0 && found.len() == 0 {
                assert(g.unproduced().len() == 0);
                assert forall|i: int| 0 <= i < g.nodes.len() implies #[trigger] arrival.contains(i) by {
                    assert(order@.contains(i as usize));
                    let k = choose|k: int| 0 <= k < order@.len() && order@[k] == i as usize;
                    assert(arrival[k] == i);
                }
                lemma_nothing_unproduced(g, arrival);
                nothing_reported_means_everything_runs(g, found);
            }
        }
        out
    }
}

/// Whether two lists of ordinals are the same.
fn same_ordinals(a: &Vec<IngressOrdinal>, b: &Vec<IngressOrdinal>) -> (same: bool)
    ensures
        same == (a@ == b@),
{
    if a.len() != b.len() {
        return false;
    }
    let mut i: usize = 0;
    while i < a.len()
        invariant
            i <= a@.len(),
            a@.len() == b@.len(),
            forall|k: int| 0 <= k < i ==> a@[k] == b@[k],
        decreases a.len() - i,
    {
        if a[i].0 != b[i].0 {
            assert(a@[i as int] != b@[i as int]);
            return false;
        }
        i = i + 1;
    }
    assert(a@ =~= b@);
    true
}

/// A point listed as unproduced holds up its waiter.
proof fn lemma_unproduced_held_up(g: WaitModel, order: Seq<int>, x: int)
    requires
        0 <= x < g.unproduced_by(order).len(),
        forall|k: int| 0 <= k < order.len() ==> 0 <= #[trigger] order[k] < g.nodes.len(),
    ensures
        exists|i: int| 0 <= i < g.nodes.len() && !#[trigger] g.can_run(i),
    decreases order.len(),
{
    let before = g.unproduced_by(order.drop_last());
    if x < before.len() {
        lemma_unproduced_held_up(g, order.drop_last(), x);
    } else {
        lemma_unproduced_of_held_up(
            g,
            order.last(),
            g.nodes[order.last()].waits.len() as int,
        );
    }
}

proof fn lemma_unproduced_of_held_up(g: WaitModel, i: int, n: int)
    requires
        0 <= i < g.nodes.len(),
        n <= g.nodes[i].waits.len(),
        g.unproduced_of(i, n).len() > 0,
    ensures
        !g.can_run(i),
    decreases n,
{
    if n > 0 {
        if g.unproduced_of(i, n - 1).len() > 0 {
            lemma_unproduced_of_held_up(g, i, n - 1);
        } else {
            a_waiter_for_an_unproduced_point_cannot_run(g, i, n - 1);
        }
    }
}

/// Where no point is listed as unproduced, every point is produced.
proof fn lemma_nothing_unproduced(g: WaitModel, order: Seq<int>)
    requires
        g.unproduced_by(order).len() == 0,
        forall|i: int| 0 <= i < g.nodes.len() ==> #[trigger] order.contains(i),
    ensures
        forall|i: int, k: int|
            0 <= i < g.nodes.len() && 0 <= k < g.nodes[i].waits.len() ==> g.published(
                #[trigger] g.nodes[i].waits[k],
            ) || g.produced(g.nodes[i].waits[k]),
{
    assert forall|i: int, k: int|
        0 <= i < g.nodes.len() && 0 <= k < g.nodes[i].waits.len() implies g.published(
        #[trigger] g.nodes[i].waits[k],
    ) || g.produced(g.nodes[i].waits[k]) by {
        assert(order.contains(i));
        let x = choose|x: int| 0 <= x < order.len() && order[x] == i;
        lemma_none_unproduced_at(g, order, x);
        lemma_none_unproduced_of(g, i, g.nodes[i].waits.len() as int, k);
    }
}

proof fn lemma_none_unproduced_at(g: WaitModel, order: Seq<int>, x: int)
    requires
        g.unproduced_by(order).len() == 0,
        0 <= x < order.len(),
    ensures
        g.unproduced_of(order[x], g.nodes[order[x]].waits.len() as int).len() == 0,
    decreases order.len(),
{
    if x < order.len() - 1 {
        lemma_none_unproduced_at(g, order.drop_last(), x);
        assert(order.drop_last()[x] == order[x]);
    }
}

proof fn lemma_none_unproduced_of(g: WaitModel, i: int, n: int, k: int)
    requires
        0 <= k < n,
        g.unproduced_of(i, n).len() == 0,
    ensures
        g.published(g.nodes[i].waits[k]) || g.produced(g.nodes[i].waits[k]),
    decreases n,
{
    if k < n - 1 {
        lemma_none_unproduced_of(g, i, n - 1, k);
    }
}

/// The reports are exactly these unproduced points, in order.
spec fn unproduced_reports(out: Seq<Diagnosis>, points: Seq<(IngressOrdinal, WaitPoint)>) -> bool {
    out.len() == points.len() && forall|k: int|
        0 <= k < out.len() ==> (#[trigger] out[k]) == (Diagnosis::Unproduced {
            waiter: points[k].0,
            point: points[k].1,
        })
}

/// An edge leads to a finished transaction or closes a reported cycle.
spec fn leads_down(
    g: WaitModel,
    finished: Seq<usize>,
    cycles: Seq<Diagnosis>,
    i: int,
    j: int,
) -> bool {
    finished_before(finished, finished.len() as int, j) || reported(
        cycles,
        g.nodes[i].ordinal,
        g.nodes[j].ordinal,
    )
}

/// The search's state while a transaction is open and not yet on the path.
#[verifier::opaque]
spec fn half_open(
    g: WaitModel,
    colour: Seq<Colour>,
    path: Seq<(usize, WaitPoint)>,
    at: int,
    finished: Seq<usize>,
    cycles: Seq<Diagnosis>,
) -> bool {
    &&& g.wf()
    &&& colour.len() == g.nodes.len()
    &&& 0 <= at < colour.len()
    &&& !on_path(path, at)
    &&& forall|i: int|
        0 <= i < colour.len() ==> ((#[trigger] colour[i]) is Open <==> (on_path(path, i) || i
            == at))
    &&& forall|k: int| 0 <= k < path.len() ==> (#[trigger] path[k]).0 < colour.len()
    &&& forall|a: int, b: int|
        0 <= a < b < path.len() ==> (#[trigger] path[a]).0 != (#[trigger] path[b]).0
    &&& finished_listed(colour, finished)
    &&& settled(g, finished, cycles)
    &&& sound_reports(g, cycles)
}

proof fn lemma_settled_grows(
    g: WaitModel,
    finished: Seq<usize>,
    before: Seq<Diagnosis>,
    after: Seq<Diagnosis>,
)
    requires
        settled(g, finished, before),
        before.is_prefix_of(after),
    ensures
        settled(g, finished, after),
{
    assert forall|k: int, w: WaitPoint, j: int|
        #![trigger finished[k], g.edge(finished[k] as int, w, j)]
        0 <= k < finished.len() && g.edge(finished[k] as int, w, j) implies finished_before(
        finished,
        k,
        j,
    ) || reported(after, g.nodes[finished[k] as int].ordinal, g.nodes[j].ordinal) by {
        if !finished_before(finished, k, j) {
            lemma_reported_grows(
                before,
                after,
                g.nodes[finished[k] as int].ordinal,
                g.nodes[j].ordinal,
            );
        }
    }
}

proof fn lemma_push_path(
    g: WaitModel,
    colour: Seq<Colour>,
    path: Seq<(usize, WaitPoint)>,
    at: int,
    wait: WaitPoint,
    finished: Seq<usize>,
    cycles: Seq<Diagnosis>,
)
    requires
        half_open(g, colour, path, at, finished, cycles),
        at <= usize::MAX,
    ensures
        searching(g, colour, path.push((at as usize, wait)), finished, cycles),
{
    reveal(searching);
    reveal(half_open);
    let longer = path.push((at as usize, wait));
    assert forall|i: int| 0 <= i < colour.len() implies ((#[trigger] colour[i]) is Open
        <==> on_path(longer, i)) by {
        if on_path(path, i) {
            let k = choose|k: int| 0 <= k < path.len() && (#[trigger] path[k]).0 == i;
            assert(longer[k].0 == i);
        }
        if i == at {
            assert(longer[path.len() as int].0 == i);
        }
        if on_path(longer, i) {
            let k = choose|k: int| 0 <= k < longer.len() && (#[trigger] longer[k]).0 == i;
            if k < path.len() {
                assert(path[k].0 == i);
            }
        }
    }
    assert forall|a: int, b: int| 0 <= a < b < longer.len() implies (#[trigger] longer[a]).0 != (
    #[trigger] longer[b]).0 by {
        assert(longer[a] == path[a]);
        if b < path.len() {
            assert(longer[b] == path[b]);
        } else if longer[a].0 == longer[b].0 {
            assert(on_path(path, at));
        }
    }
}

proof fn lemma_pop_path(
    g: WaitModel,
    colour: Seq<Colour>,
    path: Seq<(usize, WaitPoint)>,
    at: int,
    wait: WaitPoint,
    finished: Seq<usize>,
    cycles: Seq<Diagnosis>,
)
    requires
        0 <= at < colour.len(),
        at <= usize::MAX,
        searching(g, colour, path.push((at as usize, wait)), finished, cycles),
    ensures
        half_open(g, colour, path, at, finished, cycles),
{
    reveal(searching);
    reveal(half_open);
    let longer = path.push((at as usize, wait));
    assert forall|a: int, b: int| 0 <= a < b < path.len() implies (#[trigger] path[a]).0 != (
    #[trigger] path[b]).0 by {
        assert(longer[a] == path[a] && longer[b] == path[b]);
    }
    assert forall|k: int| 0 <= k < path.len() implies (#[trigger] path[k]).0 < colour.len() by {
        assert(longer[k] == path[k]);
    }
    assert(!on_path(path, at)) by {
        if on_path(path, at) {
            let k = choose|k: int| 0 <= k < path.len() && (#[trigger] path[k]).0 == at;
            assert(longer[k].0 != longer[path.len() as int].0);
        }
    }
    assert forall|i: int| 0 <= i < colour.len() implies ((#[trigger] colour[i]) is Open <==> (
    on_path(path, i) || i == at)) by {
        if on_path(path, i) {
            let k = choose|k: int| 0 <= k < path.len() && (#[trigger] path[k]).0 == i;
            assert(longer[k].0 == i);
        }
        if i == at {
            assert(longer[path.len() as int].0 == i);
        }
        if on_path(longer, i) {
            let k = choose|k: int| 0 <= k < longer.len() && (#[trigger] longer[k]).0 == i;
            if k < path.len() {
                assert(path[k].0 == i);
            }
        }
    }
}

proof fn lemma_path_leads(
    g: WaitModel,
    path: Seq<(usize, WaitPoint)>,
    at: int,
    wait: WaitPoint,
    next: int,
)
    requires
        g.leads_to(walk_of(path), at),
        g.edge(at, wait, next),
        0 <= at <= usize::MAX,
    ensures
        g.leads_to(walk_of(path.push((at as usize, wait))), next),
{
    let short = walk_of(path);
    let long = walk_of(path.push((at as usize, wait)));
    assert forall|k: int| 0 <= k < long.len() implies #[trigger] g.steps(long, k, next) by {
        if k < short.len() {
            assert(g.steps(short, k, at));
            assert(long[k] == short[k]);
            assert(next_of(long, k, next) == next_of(short, k, at));
        }
    }
}

proof fn lemma_grew_twice(
    colour0: Seq<Colour>,
    finished0: Seq<usize>,
    cycles0: Seq<Diagnosis>,
    colour1: Seq<Colour>,
    finished1: Seq<usize>,
    cycles1: Seq<Diagnosis>,
    colour2: Seq<Colour>,
    finished2: Seq<usize>,
    cycles2: Seq<Diagnosis>,
)
    requires
        search_grew(colour0, finished0, cycles0, colour1, finished1, cycles1),
        search_grew(colour1, finished1, cycles1, colour2, finished2, cycles2),
    ensures
        search_grew(colour0, finished0, cycles0, colour2, finished2, cycles2),
{
    reveal(search_grew);
    assert forall|i: int| 0 <= i < colour0.len() && !(colour0[i] is Unseen) implies (
    #[trigger] colour2[i]) == colour0[i] by {
        assert(colour1[i] == colour0[i]);
    }
    assert forall|i: int| 0 <= i < colour0.len() && colour0[i] is Unseen implies !((
    #[trigger] colour2[i]) is Open) by {
        assert(!(colour1[i] is Open));
        if !(colour1[i] is Unseen) {
            assert(colour2[i] == colour1[i]);
        }
    }
}

/// An open transaction whose edges all lead down is finished.
proof fn lemma_finish(
    g: WaitModel,
    colour: Seq<Colour>,
    path: Seq<(usize, WaitPoint)>,
    at: usize,
    finished: Seq<usize>,
    cycles: Seq<Diagnosis>,
)
    requires
        half_open(g, colour, path, at as int, finished, cycles),
        forall|w: WaitPoint, j: int| #[trigger]
            g.edge(at as int, w, j) ==> leads_down(g, finished, cycles, at as int, j),
    ensures
        searching(
            g,
            colour.update(at as int, Colour::Done),
            path,
            finished.push(at),
            cycles,
        ),
{
    reveal(searching);
    reveal(half_open);
    let colour2 = colour.update(at as int, Colour::Done);
    let finished2 = finished.push(at);
    assert forall|i: int| 0 <= i < colour2.len() implies ((#[trigger] colour2[i]) is Open
        <==> on_path(path, i)) by {
        assert(colour[i] is Open <==> (on_path(path, i) || i == at));
    }
    assert forall|i: int| 0 <= i < colour2.len() && (#[trigger] colour2[i]) is Done implies finished_before(
        finished2,
        finished2.len() as int,
        i,
    ) by {
        if i == at {
            assert(finished2[finished.len() as int] == i);
        } else {
            assert(colour[i] is Done);
            lemma_finished_grows(finished, finished2, finished.len() as int, i);
            let m = choose|m: int|
                0 <= m < finished.len() && m < finished2.len() && (#[trigger] finished2[m]) == i;
            assert(finished2[m] == i);
        }
    }
    assert forall|k: int| 0 <= k < finished2.len() implies (#[trigger] finished2[k])
        < colour2.len() && colour2[finished2[k] as int] is Done by {
        if k < finished.len() {
            assert(finished2[k] == finished[k]);
        }
    }
    assert(colour[at as int] is Open);
    assert forall|a: int, b: int| 0 <= a < b < finished2.len() implies (#[trigger] finished2[a]) != (
    #[trigger] finished2[b]) by {
        assert(finished2[a] == finished[a]);
        if b < finished.len() {
            assert(finished2[b] == finished[b]);
        } else {
            assert(colour[finished[a] as int] is Done);
        }
    }
    assert forall|k: int, w: WaitPoint, j: int|
        #![trigger finished2[k], g.edge(finished2[k] as int, w, j)]
        0 <= k < finished2.len() && g.edge(finished2[k] as int, w, j) implies finished_before(
        finished2,
        k,
        j,
    ) || reported(cycles, g.nodes[finished2[k] as int].ordinal, g.nodes[j].ordinal) by {
        if k < finished.len() {
            assert(finished2[k] == finished[k]);
            assert(g.edge(finished[k] as int, w, j));
            if finished_before(finished, k, j) {
                lemma_finished_grows(finished, finished2, k, j);
            }
        } else {
            assert(leads_down(g, finished, cycles, at as int, j));
            if finished_before(finished, finished.len() as int, j) {
                lemma_finished_grows(finished, finished2, finished.len() as int, j);
            }
        }
    }
}

/// A graph whose reports name no cycle has none.
pub proof fn no_cycle_report_means_no_cycle(
    g: WaitModel,
    cycles: Seq<Diagnosis>,
    walk: Seq<(int, WaitPoint)>,
)
    requires
        complete_reports(g, cycles),
        cycles.len() == 0,
    ensures
        !g.is_cycle(walk),
{
    if g.is_cycle(walk) {
        let k = choose|k: int| step_reported(g, cycles, walk, k);
        assert(step_reported(g, cycles, walk, k));
    }
}

/// What waits on itself in a circle cannot run: none of it can be first.
pub proof fn no_member_of_a_cycle_can_run(g: WaitModel, walk: Seq<(int, WaitPoint)>, k: int)
    requires
        g.is_cycle(walk),
        0 <= k < walk.len(),
    ensures
        0 <= walk[k].0 < g.nodes.len(),
        !g.can_run(walk[k].0),
{
    assert(g.steps(walk, k, walk[0].0));
    let i = walk[k].0;
    let x = choose|x: int| 0 <= x < g.nodes[i].waits.len() && g.nodes[i].waits[x] == walk[k].1;
    if g.can_run(i) {
        lemma_running_is_answered(g, i, x);
    }
}

/// A transaction that waits for a point nothing published and nothing accepted
/// produces cannot run.
pub proof fn a_waiter_for_an_unproduced_point_cannot_run(g: WaitModel, i: int, k: int)
    requires
        0 <= i < g.nodes.len(),
        0 <= k < g.nodes[i].waits.len(),
        !g.published(g.nodes[i].waits[k]),
        !g.produced(g.nodes[i].waits[k]),
    ensures
        !g.can_run(i),
{
    if g.can_run(i) {
        lemma_running_is_answered(g, i, k);
        let wait = g.nodes[i].waits[k];
        let j = choose|j: int| #[trigger]
            g.can_run(j) && some_answers(g.nodes[j].produces, wait);
        lemma_running_is_answered(g, j, 0);
        assert(some_answers(g.nodes[j].produces, wait));
    }
}

/// Where every point is produced and no cycle is reported, every transaction can
/// run.
pub proof fn nothing_reported_means_everything_runs(g: WaitModel, cycles: Seq<Diagnosis>)
    requires
        forall|i: int, k: int|
            0 <= i < g.nodes.len() && 0 <= k < g.nodes[i].waits.len() ==> g.published(
                #[trigger] g.nodes[i].waits[k],
            ) || g.produced(g.nodes[i].waits[k]),
        complete_reports(g, cycles),
        cycles.len() == 0,
    ensures
        g.all_run(),
{
    assert forall|i: int| 0 <= i < g.nodes.len() implies #[trigger] g.can_run(i) by {
        if !g.can_run(i) {
            let none = Seq::<(int, WaitPoint)>::empty();
            let walk = lemma_finds_cycle(g, none, i);
            no_cycle_report_means_no_cycle(g, cycles, walk);
        }
    }
}

/// A transaction that is held up by a wait for its own signal is a cycle of one.
pub proof fn waiting_for_its_own_signal_is_a_cycle(g: WaitModel, i: int, wait: WaitPoint)
    requires
        g.edge(i, wait, i),
    ensures
        g.is_cycle(seq![(i, wait)]),
{
    let walk = seq![(i, wait)];
    assert forall|k: int| 0 <= k < walk.len() implies #[trigger] g.steps(walk, k, walk[0].0) by {
        assert(next_of(walk, k, walk[0].0) == i);
    }
}

/// An answered event wait stays answered, whatever else is published.
pub proof fn publishing_keeps_event_answers(
    g: WaitModel,
    production: Production,
    event: ResourceId,
    value: u64,
)
    requires
        g.published(WaitPoint::Event { event, value }),
    ensures
        g.satisfied(production).published(WaitPoint::Event { event, value }),
{
}

/// A production answers the waits it discharges once it is published, on a slot
/// or an event that held nothing further.
pub proof fn a_published_production_answers_its_waits(
    g: WaitModel,
    production: Production,
    wait: WaitPoint,
)
    requires
        production.answers(wait),
        production matches Production::Stamp { slot, .. } ==> !g.stamps.dom().contains(slot),
    ensures
        g.satisfied(production).published(wait),
{
}

proof fn lemma_searching_sound(
    g: WaitModel,
    colour: Seq<Colour>,
    path: Seq<(usize, WaitPoint)>,
    finished: Seq<usize>,
    cycles: Seq<Diagnosis>,
)
    requires
        searching(g, colour, path, finished, cycles),
    ensures
        sound_reports(g, cycles),
{
    reveal(searching);
}

proof fn lemma_search_starts(g: WaitModel, colour: Seq<Colour>)
    requires
        g.wf(),
        colour.len() == g.nodes.len(),
        forall|i: int| 0 <= i < colour.len() ==> (#[trigger] colour[i]) is Unseen,
    ensures
        searching(g, colour, Seq::empty(), Seq::empty(), Seq::empty()),
{
    reveal(searching);
}

proof fn lemma_grew_keeps_done(
    colour0: Seq<Colour>,
    finished0: Seq<usize>,
    cycles0: Seq<Diagnosis>,
    colour1: Seq<Colour>,
    finished1: Seq<usize>,
    cycles1: Seq<Diagnosis>,
)
    requires
        search_grew(colour0, finished0, cycles0, colour1, finished1, cycles1),
    ensures
        colour1.len() == colour0.len(),
        forall|i: int|
            0 <= i < colour0.len() && colour0[i] is Done ==> (#[trigger] colour1[i]) is Done,
{
    reveal(search_grew);
}

/// Where a list of members was reported.
fn find_members(cycles: &Vec<Diagnosis>, members: &Vec<IngressOrdinal>) -> (at: Option<usize>)
    ensures
        match at {
            Some(i) => i < cycles@.len() && (cycles@[i as int] matches Diagnosis::Cycle {
                members: seen,
                ..
            } && seen@ == members@),
            None => forall|i: int|
                0 <= i < cycles@.len() && (#[trigger] cycles@[i]) is Cycle
                    ==> cycles@[i]->members@ != members@,
        },
{
    let mut i: usize = 0;
    while i < cycles.len()
        invariant
            i <= cycles@.len(),
            forall|m: int|
                0 <= m < i && (#[trigger] cycles@[m]) is Cycle ==> cycles@[m]->members@
                    != members@,
        decreases cycles.len() - i,
    {
        match &cycles[i] {
            Diagnosis::Cycle { members: seen, .. } => {
                if same_ordinals(seen, members) {
                    return Some(i);
                }
            },
            Diagnosis::Unproduced { .. } => {},
        }
        i = i + 1;
    }
    None
}

/// A path that comes back to one of its steps holds a cycle.
proof fn lemma_closed_walk(
    g: WaitModel,
    path: Seq<(usize, WaitPoint)>,
    start: int,
    at: int,
    members: Seq<IngressOrdinal>,
)
    requires
        g.leads_to(walk_of(path), at),
        0 <= start < path.len(),
        path[start].0 == at,
        g.are_members(members, walk_of(path).skip(start)),
    ensures
        g.is_cycle(walk_of(path).skip(start)),
        walk_of(path).skip(start)[0] == (at, path[start].1),
        members.contains(g.nodes[at].ordinal),
        members.contains(g.nodes[path.last().0 as int].ordinal),
{
    let whole = walk_of(path);
    let walk = whole.skip(start);
    assert(walk[0] == whole[start]);
    assert forall|m: int| 0 <= m < walk.len() implies #[trigger] g.steps(walk, m, at) by {
        assert(g.steps(whole, start + m, at));
        assert(walk[m] == whole[start + m]);
        assert(next_of(walk, m, at) == next_of(whole, start + m, at));
    }
    assert(visits(g, walk, g.nodes[walk[0].0].ordinal));
    let end = walk.len() - 1;
    assert(walk[end] == whole[path.len() - 1]);
    assert(visits(g, walk, g.nodes[walk[end].0].ordinal));
}

/// One more true report, of members not reported yet.
proof fn lemma_report_added(g: WaitModel, cycles: Seq<Diagnosis>, report: Diagnosis)
    requires
        sound_reports(g, cycles),
        g.true_report(report),
        forall|i: int|
            0 <= i < cycles.len() && (#[trigger] cycles[i]) is Cycle ==> cycles[i]->members@
                != report->members@,
    ensures
        sound_reports(g, cycles.push(report)),
{
    let more = cycles.push(report);
    assert forall|k: int| 0 <= k < more.len() implies g.true_report(#[trigger] more[k]) by {
        if k < cycles.len() {
            assert(more[k] == cycles[k]);
        }
    }
    assert forall|i: int, j: int| 0 <= i < j < more.len() implies (#[trigger] more[i])->members@ != (
    #[trigger] more[j])->members@ by {
        assert(more[i] == cycles[i]);
        assert(g.true_report(cycles[i]));
        if j < cycles.len() {
            assert(more[j] == cycles[j]);
        }
    }
}

proof fn lemma_searching_facts(
    g: WaitModel,
    colour: Seq<Colour>,
    path: Seq<(usize, WaitPoint)>,
    finished: Seq<usize>,
    cycles: Seq<Diagnosis>,
    at: int,
)
    requires
        searching(g, colour, path, finished, cycles),
        0 <= at < g.nodes.len(),
    ensures
        colour.len() == g.nodes.len(),
        colour[at] is Open <==> on_path(path, at),
        forall|k: int| 0 <= k < path.len() ==> (#[trigger] path[k]).0 < g.nodes.len(),
        sound_reports(g, cycles),
        search_grew(colour, finished, cycles, colour, finished, cycles),
{
    reveal(searching);
    reveal(search_grew);
}

proof fn lemma_reports_grew(
    g: WaitModel,
    colour: Seq<Colour>,
    path: Seq<(usize, WaitPoint)>,
    finished: Seq<usize>,
    before: Seq<Diagnosis>,
    after: Seq<Diagnosis>,
)
    requires
        searching(g, colour, path, finished, before),
        sound_reports(g, after),
        before.is_prefix_of(after),
    ensures
        searching(g, colour, path, finished, after),
        search_grew(colour, finished, before, colour, finished, after),
{
    reveal(searching);
    reveal(search_grew);
    lemma_settled_grows(g, finished, before, after);
}

proof fn lemma_opened(
    g: WaitModel,
    colour: Seq<Colour>,
    path: Seq<(usize, WaitPoint)>,
    finished: Seq<usize>,
    cycles: Seq<Diagnosis>,
    at: int,
)
    requires
        searching(g, colour, path, finished, cycles),
        0 <= at < g.nodes.len(),
        colour[at] is Unseen,
    ensures
        half_open(g, colour.update(at, Colour::Open), path, at, finished, cycles),
        search_grew(
            colour.update(at, Colour::Open),
            finished,
            cycles,
            colour.update(at, Colour::Open),
            finished,
            cycles,
        ),
{
    reveal(searching);
    reveal(half_open);
    reveal(search_grew);
    let opened = colour.update(at, Colour::Open);
    assert forall|i: int| 0 <= i < opened.len() implies ((#[trigger] opened[i]) is Open <==> (
    on_path(path, i) || i == at)) by {
        assert(colour[i] is Open <==> on_path(path, i));
    }
    assert(!on_path(path, at));
    assert forall|k: int| 0 <= k < finished.len() implies (#[trigger] finished[k]) < opened.len()
        && opened[finished[k] as int] is Done by {
        assert(colour[finished[k] as int] is Done);
    }
    assert forall|i: int| 0 <= i < opened.len() && (#[trigger] opened[i]) is Done implies finished_before(
        finished,
        finished.len() as int,
        i,
    ) by {
        assert(colour[i] is Done);
    }
}

proof fn lemma_adjacency_in_range(
    g: WaitModel,
    adjacency: Seq<Vec<(WaitPoint, usize)>>,
    at: int,
)
    requires
        lists_edges(g, adjacency),
        0 <= at < g.nodes.len(),
    ensures
        adjacency.len() == g.nodes.len(),
        forall|m: int|
            0 <= m < adjacency[at]@.len() ==> g.edge(
                at,
                (#[trigger] adjacency[at]@[m]).0,
                adjacency[at]@[m].1 as int,
            ),
{
    reveal(lists_edges);
}

proof fn lemma_edge_listed(
    g: WaitModel,
    adjacency: Seq<Vec<(WaitPoint, usize)>>,
    at: int,
    w: WaitPoint,
    j: int,
)
    requires
        lists_edges(g, adjacency),
        g.edge(at, w, j),
    ensures
        adjacency[at]@.contains((w, j as usize)),
        (j as usize) as int == j,
{
    reveal(lists_edges);
}

proof fn lemma_grew_unseen(
    colour0: Seq<Colour>,
    finished0: Seq<usize>,
    cycles0: Seq<Diagnosis>,
    colour1: Seq<Colour>,
    finished1: Seq<usize>,
    cycles1: Seq<Diagnosis>,
)
    requires
        search_grew(colour0, finished0, cycles0, colour1, finished1, cycles1),
    ensures
        unseen(colour1) <= unseen(colour0),
{
    reveal(search_grew);
    lemma_unseen_only_drops(colour0, colour1);
}

proof fn lemma_half_open_len(
    g: WaitModel,
    colour: Seq<Colour>,
    path: Seq<(usize, WaitPoint)>,
    at: int,
    finished: Seq<usize>,
    cycles: Seq<Diagnosis>,
)
    requires
        half_open(g, colour, path, at, finished, cycles),
    ensures
        0 <= at < colour.len(),
        colour.len() == g.nodes.len(),
{
    reveal(half_open);
}

proof fn lemma_leads_down_grew(
    g: WaitModel,
    colour1: Seq<Colour>,
    finished1: Seq<usize>,
    cycles1: Seq<Diagnosis>,
    colour2: Seq<Colour>,
    finished2: Seq<usize>,
    cycles2: Seq<Diagnosis>,
    i: int,
    j: int,
)
    requires
        search_grew(colour1, finished1, cycles1, colour2, finished2, cycles2),
        leads_down(g, finished1, cycles1, i, j),
    ensures
        leads_down(g, finished2, cycles2, i, j),
{
    reveal(search_grew);
    if finished_before(finished1, finished1.len() as int, j) {
        let m = choose|m: int|
            0 <= m < finished1.len() && m < finished1.len() && (#[trigger] finished1[m]) == j;
        assert(finished2[m] == finished1[m]);
        assert(finished_before(finished2, finished2.len() as int, j));
    } else {
        lemma_reported_grows(cycles1, cycles2, g.nodes[i].ordinal, g.nodes[j].ordinal);
    }
}

/// A visited transaction is finished, or the visit reported a cycle.
proof fn lemma_edge_led_down(
    g: WaitModel,
    colour1: Seq<Colour>,
    path: Seq<(usize, WaitPoint)>,
    at: int,
    finished1: Seq<usize>,
    cycles1: Seq<Diagnosis>,
    colour2: Seq<Colour>,
    finished2: Seq<usize>,
    cycles2: Seq<Diagnosis>,
    next: int,
)
    requires
        half_open(g, colour1, path, at, finished1, cycles1),
        half_open(g, colour2, path, at, finished2, cycles2),
        search_grew(colour1, finished1, cycles1, colour2, finished2, cycles2),
        0 <= next < g.nodes.len(),
        colour1[next] is Unseen ==> colour2[next] is Done,
        colour1[next] is Open ==> reported(cycles2, g.nodes[at].ordinal, g.nodes[next].ordinal),
    ensures
        leads_down(g, finished2, cycles2, at, next),
{
    reveal(half_open);
    reveal(search_grew);
    if !(colour1[next] is Open) {
        if colour1[next] is Done {
            assert(colour2[next] == colour1[next]);
        }
        assert(colour2[next] is Done);
        assert(finished_before(finished2, finished2.len() as int, next));
    }
}

/// What grew since a transaction was opened, seen from before it was.
proof fn lemma_grew_through(
    colour0: Seq<Colour>,
    finished0: Seq<usize>,
    cycles0: Seq<Diagnosis>,
    colour2: Seq<Colour>,
    finished2: Seq<usize>,
    cycles2: Seq<Diagnosis>,
    at: usize,
)
    requires
        0 <= at < colour0.len(),
        colour0[at as int] is Unseen,
        search_grew(
            colour0.update(at as int, Colour::Open),
            finished0,
            cycles0,
            colour2,
            finished2,
            cycles2,
        ),
    ensures
        search_grew(
            colour0,
            finished0,
            cycles0,
            colour2.update(at as int, Colour::Done),
            finished2.push(at),
            cycles2,
        ),
{
    reveal(search_grew);
    let opened = colour0.update(at as int, Colour::Open);
    let done = colour2.update(at as int, Colour::Done);
    assert forall|i: int| 0 <= i < colour0.len() && !(colour0[i] is Unseen) implies (
    #[trigger] done[i]) == colour0[i] by {
        assert(opened[i] == colour0[i]);
        assert(colour2[i] == opened[i]);
    }
    assert forall|i: int| 0 <= i < colour0.len() && colour0[i] is Unseen implies !((
    #[trigger] done[i]) is Open) by {
        if i != at {
            assert(opened[i] is Unseen);
            assert(!(colour2[i] is Open));
        }
    }
}

/// A production answers a wait for the same word or event exactly when the
/// value it publishes is the one awaited or past it.
pub proof fn a_production_answers_the_values_it_passes(p: Production, wait: WaitPoint)
    ensures
        p matches Production::Stamp { slot, value } ==> match wait {
            WaitPoint::Stamp { slot: wanted, value: needed } => p.answers(wait) <==> slot.0
                == wanted.0 && (value.0 == needed.0 || value.is_after(needed)),
            WaitPoint::Event { .. } => !p.answers(wait),
        },
        p matches Production::Event { event, value } ==> match wait {
            WaitPoint::Event { event: wanted, value: needed } => p.answers(wait) <==> event
                == wanted && value >= needed,
            WaitPoint::Stamp { .. } => !p.answers(wait),
        },
{
}

/// A transaction waits for the points its prerequisites name, and a fence is
/// none of them.
pub proof fn a_transaction_waits_for_what_it_names(ps: Seq<Prerequisite>, wait: WaitPoint)
    ensures
        waits_of(ps).contains(wait) <==> match wait {
            WaitPoint::Stamp { slot, value } => ps.contains(
                Prerequisite::Stamp(crate::identity::StampWait { slot, value }),
            ),
            WaitPoint::Event { event, value } => ps.contains(Prerequisite::Event { event, value }),
        },
    decreases ps.len(),
{
    let named = match wait {
        WaitPoint::Stamp { slot, value } => Prerequisite::Stamp(
            crate::identity::StampWait { slot, value },
        ),
        WaitPoint::Event { event, value } => Prerequisite::Event { event, value },
    };
    if ps.len() > 0 {
        let rest = ps.drop_last();
        let last = ps.last();
        let before = waits_of(rest);
        let all = waits_of(ps);
        a_transaction_waits_for_what_it_names(rest, wait);
        assert(ps[ps.len() - 1] == last);
        assert((point_of(last) == Some(wait)) == (last == named));
        if rest.contains(named) {
            let k = choose|k: int| 0 <= k < rest.len() && rest[k] == named;
            assert(ps[k] == named);
        }
        if ps.contains(named) {
            let k = choose|k: int| 0 <= k < ps.len() && ps[k] == named;
            if k < rest.len() {
                assert(rest[k] == named);
            }
        }
        if before.contains(wait) {
            let k = choose|k: int| 0 <= k < before.len() && before[k] == wait;
            assert(all[k] == wait);
        }
        if last == named {
            assert(all[before.len() as int] == wait);
        }
        if all.contains(wait) {
            let k = choose|k: int| 0 <= k < all.len() && all[k] == wait;
            if k < before.len() {
                assert(before[k] == wait);
            }
        }
    }
}

/// A transaction produces its completion word and every signal its records
/// carry.
pub proof fn a_transaction_produces_its_word_and_its_signals(tx: ExecTransaction, at: int)
    ensures
        node_of(tx).ordinal == tx.ingress,
        tx.publication.stamp matches Some(s) ==> node_of(tx).produces.contains(
            Production::Stamp { slot: s.slot, value: s.value },
        ),
        ({
            let records = crate::exec::all_records(tx.streams@);
            0 <= at < records.len() ==> (records[at].op matches ResolvedOperation::Event(e)
                ==> e.kind is Signal ==> node_of(tx).produces.contains(
                Production::Event { event: e.event, value: e.value },
            ))
        }),
{
    let records = crate::exec::all_records(tx.streams@);
    let word = stamp_of(tx.publication.stamp);
    let all = node_of(tx).produces;
    if let Some(s) = tx.publication.stamp {
        assert(all[0] == word[0]);
    }
    if 0 <= at < records.len() {
        if let ResolvedOperation::Event(e) = records[at].op {
            if e.kind is Signal {
                let k = lemma_signal_listed(records, at);
                assert(all[word.len() + k] == signals_of(records)[k]);
            }
        }
    }
}

proof fn lemma_signal_listed(records: Seq<StreamRecord>, at: int) -> (k: int)
    requires
        0 <= at < records.len(),
        signal_of(records[at].op) is Some,
    ensures
        0 <= k < signals_of(records).len(),
        Some(signals_of(records)[k]) == signal_of(records[at].op),
    decreases records.len(),
{
    let rest = records.drop_last();
    if at < rest.len() {
        let k = lemma_signal_listed(rest, at);
        assert(signals_of(records)[k] == signals_of(rest)[k]);
        k
    } else {
        signals_of(rest).len() as int
    }
}

/// What a transaction produces is its word, or a signal one of its records
/// carries.
pub proof fn a_production_is_the_word_or_a_signal(tx: ExecTransaction, k: int) -> (at: Option<int>)
    requires
        0 <= k < node_of(tx).produces.len(),
    ensures
        match at {
            None => tx.publication.stamp matches Some(s) && node_of(tx).produces[k]
                == (Production::Stamp { slot: s.slot, value: s.value }),
            Some(i) => 0 <= i < crate::exec::all_records(tx.streams@).len() && (
            crate::exec::all_records(tx.streams@)[i].op matches ResolvedOperation::Event(e) && e.kind
                is Signal && node_of(tx).produces[k] == (Production::Event {
                event: e.event,
                value: e.value,
            })),
        },
{
    let records = crate::exec::all_records(tx.streams@);
    let word = stamp_of(tx.publication.stamp);
    if k < word.len() {
        None
    } else {
        let i = lemma_signal_from(records, k - word.len());
        Some(i)
    }
}

pub(crate) proof fn lemma_signal_from(records: Seq<StreamRecord>, k: int) -> (at: int)
    requires
        0 <= k < signals_of(records).len(),
    ensures
        0 <= at < records.len(),
        signal_of(records[at].op) == Some(signals_of(records)[k]),
    decreases records.len(),
{
    let rest = records.drop_last();
    if k < signals_of(rest).len() {
        lemma_signal_from(rest, k)
    } else {
        records.len() - 1
    }
}

/// A transaction waits for another exactly when nothing published answers one
/// of its waits and the other produces an answer to it.
pub proof fn a_wait_leads_to_each_of_its_producers(
    g: WaitModel,
    i: int,
    j: int,
    wait: WaitPoint,
    k: int,
    m: int,
)
    requires
        g.wf(),
        0 <= i < g.nodes.len(),
        0 <= j < g.nodes.len(),
        i != j,
        0 <= k < g.nodes[i].waits.len(),
        g.nodes[i].waits[k] == wait,
        0 <= m < g.nodes[j].produces.len(),
        g.nodes[j].produces[m].answers(wait),
    ensures
        g.waits_for(g.nodes[i].ordinal, wait, g.nodes[j].ordinal) == !g.published(wait),
{
    assert(some_answers(g.nodes[j].produces, wait));
    assert(g.nodes[i].waits.contains(wait));
    assert(g.nodes[i].ordinal != g.nodes[j].ordinal);
    if !g.published(wait) {
        assert(g.unmet(i, wait, j));
    }
}

/// A wait that leads to a producer is the waiter's own, unanswered, and the
/// producer's own work answers it.
pub proof fn a_wait_is_led_to_by_its_own_answer(
    g: WaitModel,
    waiter: IngressOrdinal,
    wait: WaitPoint,
    producer: IngressOrdinal,
) -> (at: (int, int, int))
    requires
        g.waits_for(waiter, wait, producer),
    ensures
        waiter != producer,
        !g.published(wait),
        0 <= at.0 < g.nodes.len() && g.nodes[at.0].ordinal == waiter && g.nodes[at.0].waits.contains(
            wait,
        ),
        0 <= at.1 < g.nodes.len() && g.nodes[at.1].ordinal == producer,
        0 <= at.2 < g.nodes[at.1].produces.len() && g.nodes[at.1].produces[at.2].answers(wait),
{
    let (i, j) = choose|i: int, j: int| #[trigger]
        g.unmet(i, wait, j) && g.nodes[i].ordinal == waiter && g.nodes[j].ordinal == producer;
    let m = choose|m: int|
        0 <= m < g.nodes[j].produces.len() && (#[trigger] g.nodes[j].produces[m]).answers(wait);
    (i, j, m)
}

/// A point that was published answers what waits for it, and publishing one
/// word or event moves no other.
pub proof fn publishing_moves_one_point(g: WaitModel, production: Production, wait: WaitPoint)
    ensures
        production matches Production::Event { event, value } ==> {
            let after = g.satisfied(production);
            &&& after.events.dom().contains(event) && after.events[event] >= value
            &&& g.events.dom().contains(event) ==> after.events[event] >= g.events[event]
            &&& after.events[event] == value || (g.events.dom().contains(event)
                && after.events[event] == g.events[event])
            &&& after.stamps == g.stamps && after.nodes == g.nodes
            &&& wait matches WaitPoint::Event { event: wanted, .. } ==> wanted != event
                ==> after.published(wait) == g.published(wait)
        },
        production matches Production::Stamp { slot, value } ==> {
            let after = g.satisfied(production);
            &&& after.stamps.dom().contains(slot)
            &&& !g.stamps.dom().contains(slot) ==> after.stamps[slot] == value
            &&& g.stamps.dom().contains(slot) && value.is_after(g.stamps[slot])
                ==> after.stamps[slot] == value
            &&& g.stamps.dom().contains(slot) && !value.is_after(g.stamps[slot])
                ==> after.stamps[slot] == g.stamps[slot]
            &&& after.events == g.events && after.nodes == g.nodes
            &&& wait matches WaitPoint::Stamp { slot: wanted, .. } ==> wanted != slot
                ==> after.published(wait) == g.published(wait)
        },
{
}

/// Once a transaction's productions are published, every event they signal has
/// been reached, no event has gone back, and nothing else moved an event.
pub proof fn published_productions_reach_their_events(
    g: WaitModel,
    productions: Seq<Production>,
    event: ResourceId,
)
    ensures
        ({
            let after = g.all_satisfied(productions);
            &&& after.nodes == g.nodes
            &&& forall|k: int|
                0 <= k < productions.len() ==> ((
                #[trigger] productions[k]) matches Production::Event { event: e, value } ==> e
                    == event ==> after.events.dom().contains(event) && after.events[event] >= value)
            &&& g.events.dom().contains(event) ==> after.events.dom().contains(event)
                && after.events[event] >= g.events[event]
            &&& (forall|k: int|
                0 <= k < productions.len() ==> !((
                #[trigger] productions[k]) matches Production::Event { event: e, .. } && e == event))
                ==> after.events.dom().contains(event) == g.events.dom().contains(event)
                && after.events[event] == g.events[event]
        }),
    decreases productions.len(),
{
    if productions.len() > 0 {
        let rest = productions.drop_last();
        published_productions_reach_their_events(g, rest, event);
        let after = g.all_satisfied(productions);
        let last = productions[productions.len() - 1];
        assert(last == productions.last());
        assert forall|k: int| 0 <= k < productions.len() implies ((
        #[trigger] productions[k]) matches Production::Event { event: e, value } ==> e == event
            ==> after.events.dom().contains(event) && after.events[event] >= value) by {
            if k < rest.len() {
                assert(rest[k] == productions[k]);
            }
        }
        if forall|k: int|
            0 <= k < productions.len() ==> !((
            #[trigger] productions[k]) matches Production::Event { event: e, .. } && e == event) {
            assert forall|k: int| 0 <= k < rest.len() implies !((
            #[trigger] rest[k]) matches Production::Event { event: e, .. } && e == event) by {
                assert(rest[k] == productions[k]);
            }
        }
    }
}

/// A reported cycle is closed by the wait of one of its members for a point
/// another of them, or the same one, produces and nothing published answers;
/// its members are in arrival order, each once.
pub proof fn a_reported_cycle_is_closed_by_a_members_wait(g: WaitModel, d: Diagnosis) -> (at: (
    int,
    int,
))
    requires
        g.true_report(d),
    ensures
        d matches Diagnosis::Cycle { members, closed_by } && {
            let (waiter, producer) = at;
            &&& 0 <= waiter < g.nodes.len() && 0 <= producer < g.nodes.len()
            &&& members@.contains(g.nodes[waiter].ordinal)
            &&& members@.contains(g.nodes[producer].ordinal)
            &&& g.nodes[waiter].waits.contains(closed_by)
            &&& !g.published(closed_by)
            &&& exists|m: int|
                0 <= m < g.nodes[producer].produces.len() && (
                #[trigger] g.nodes[producer].produces[m]).answers(closed_by)
            &&& forall|i: int, j: int|
                0 <= i < j < members@.len() ==> (#[trigger] members@[i]).0 < (
                #[trigger] members@[j]).0
        },
{
    let members = d->members@;
    let walk = choose|walk: Seq<(int, WaitPoint)>| #[trigger]
        g.is_cycle(walk) && g.are_members(members, walk) && d->closed_by == walk[0].1;
    let producer = next_of(walk, 0, walk[0].0);
    assert(g.steps(walk, 0, walk[0].0));
    assert(visits(g, walk, g.nodes[walk[0].0].ordinal));
    if walk.len() > 1 {
        assert(g.nodes[walk[1].0].ordinal == g.nodes[producer].ordinal);
    }
    assert(visits(g, walk, g.nodes[producer].ordinal));
    assert(members.contains(g.nodes[walk[0].0].ordinal));
    assert(members.contains(g.nodes[producer].ordinal));
    (walk[0].0, producer)
}

} // verus!
