//! Whether a batch is one a serial run could execute.
//!
//! Ingress order is a legal schedule only where every explicit wait names a
//! producer that already ran, and a version history has one legal order only
//! where the hazards decide it. A batch outside that has no serial meaning to
//! compare a parallel run with, and the refusal names which condition failed.

use vstd::prelude::*;
use crate::access::BackingId;
use crate::depend::{AccessRow, DependencyGraph};
use crate::exec::{ExecTransaction, Prerequisite, VersionPublication};
use crate::identity::{IngressOrdinal, SessionGeneration};
use crate::ordinal_set::OrdinalSet;
use crate::prereq::{Diagnosis, WaitGraph, WaitModel, WaitPoint};

verus! {

/// Why a batch has no serial meaning to compare a parallel run against.
#[allow(inconsistent_fields)]
#[derive(Clone, Copy, Debug, PartialEq, Eq, Structural)]
pub enum Ineligible {
    /// Transactions were not handed over in ingress order, which is the order
    /// the hazard compiler accepts them in.
    OutOfIngressOrder { at: IngressOrdinal, after: IngressOrdinal },
    /// A packet waits for a point produced by a packet that arrives no earlier
    /// than it does.
    ForwardExplicitWait { waiter: IngressOrdinal, point: WaitPoint, producer: IngressOrdinal },
    /// A packet waits for a point nothing in the batch produces.
    UnansweredWait { waiter: IngressOrdinal, point: WaitPoint },
    /// A packet carries an encoder-scoped fence prerequisite, which neither
    /// graph carries.
    FencePrerequisite { waiter: IngressOrdinal },
    /// Two packets make the same memory's content current without a hazard
    /// edge between them, so their version sequence has no single legal order.
    UnorderedVersionRace {
        backing: BackingId,
        first: IngressOrdinal,
        second: IngressOrdinal,
    },
    /// The batch spans more than one semantic generation, so a serial run
    /// would refuse part of it for reasons that are not about scheduling.
    MixedGeneration { expected: SessionGeneration, found: SessionGeneration },
}

impl Ineligible {
    #[must_use]
    pub fn slug(&self) -> (slug: &'static str)
        ensures
            slug@ == (match self {
                Ineligible::OutOfIngressOrder { .. } => "schedule_out_of_ingress_order"@,
                Ineligible::ForwardExplicitWait { .. } => "schedule_forward_explicit_wait"@,
                Ineligible::UnansweredWait { .. } => "schedule_unanswered_wait"@,
                Ineligible::FencePrerequisite { .. } => "schedule_fence_prerequisite"@,
                Ineligible::UnorderedVersionRace { .. } => "schedule_unordered_version_race"@,
                Ineligible::MixedGeneration { .. } => "schedule_mixed_generation"@,
            }),
    {
        match self {
            Ineligible::OutOfIngressOrder { .. } => "schedule_out_of_ingress_order",
            Ineligible::ForwardExplicitWait { .. } => "schedule_forward_explicit_wait",
            Ineligible::UnansweredWait { .. } => "schedule_unanswered_wait",
            Ineligible::FencePrerequisite { .. } => "schedule_fence_prerequisite",
            Ineligible::UnorderedVersionRace { .. } => "schedule_unordered_version_race",
            Ineligible::MixedGeneration { .. } => "schedule_mixed_generation",
        }
    }
}

/// A wait, and a transaction that answers it.
pub type WaitEdge = (IngressOrdinal, WaitPoint, IngressOrdinal);

/// The transactions arrived in the order they stand in.
pub open spec fn in_ingress_order(batch: Seq<ExecTransaction>) -> bool {
    forall|i: int, j: int|
        0 <= i < j < batch.len() ==> (#[trigger] batch[i]).ingress.0 < (
        #[trigger] batch[j]).ingress.0
}

/// The transaction at `k` arrived no later than the one before it.
pub open spec fn steps_back(batch: Seq<ExecTransaction>, k: int) -> bool {
    1 <= k < batch.len() && batch[k].ingress.0 <= batch[k - 1].ingress.0
}

/// The transaction at `k` is of another generation than the first.
pub open spec fn other_generation(batch: Seq<ExecTransaction>, k: int) -> bool {
    0 <= k < batch.len() && batch[k].session != batch[0].session
}

/// Some prerequisite is a fence's.
pub open spec fn has_fence(ps: Seq<Prerequisite>) -> bool {
    exists|i: int| 0 <= i < ps.len() && (#[trigger] ps[i]) is Fence
}

/// The transaction at `k` waits for a fence.
pub open spec fn waits_for_fence(batch: Seq<ExecTransaction>, k: int) -> bool {
    0 <= k < batch.len() && has_fence(batch[k].prerequisites@)
}

/// The explicit waits and productions of a batch.
pub open spec fn waits_model(batch: Seq<ExecTransaction>) -> WaitModel {
    WaitModel {
        nodes: batch.map_values(|tx: ExecTransaction| crate::prereq::node_of(tx)),
        stamps: Map::empty(),
        events: Map::empty(),
    }
}

/// Two edges are of one wait.
pub open spec fn one_wait(a: WaitEdge, b: WaitEdge) -> bool {
    a.0 == b.0 && a.1 == b.1
}

/// The edge's wait is among these.
pub open spec fn listed(out: Seq<WaitEdge>, edge: WaitEdge) -> bool {
    exists|k: int| 0 <= k < out.len() && one_wait(#[trigger] out[k], edge)
}

/// The earlier of two ordinals.
pub open spec fn earlier(a: IngressOrdinal, b: IngressOrdinal) -> IngressOrdinal {
    if b.0 < a.0 { b } else { a }
}

/// The earliest producers once one more edge is known.
pub open spec fn lowered(out: Seq<WaitEdge>, edge: WaitEdge) -> Seq<WaitEdge> {
    if listed(out, edge) {
        out.map_values(
            |x: WaitEdge|
                if one_wait(x, edge) {
                    (x.0, x.1, earlier(x.2, edge.2))
                } else {
                    x
                },
        )
    } else {
        out.push(edge)
    }
}

/// For each wait among the edges, the earliest transaction that answers it.
pub open spec fn earliest(edges: Seq<WaitEdge>) -> Seq<WaitEdge>
    decreases edges.len(),
{
    if edges.len() == 0 {
        Seq::empty()
    } else {
        lowered(earliest(edges.drop_last()), edges.last())
    }
}

/// For each wait of a batch, the earliest transaction that answers it.
pub open spec fn batch_producers(batch: Seq<ExecTransaction>) -> Seq<WaitEdge> {
    earliest(waits_model(batch).answers_of(batch.len() as int))
}

/// The producer arrived no earlier than the waiter.
pub open spec fn is_forward(edges: Seq<WaitEdge>, k: int) -> bool {
    0 <= k < edges.len() && edges[k].2.0 >= edges[k].0.0
}

/// The accesses of the first `n` transactions, all live.
pub open spec fn access_rows(batch: Seq<ExecTransaction>, n: int) -> Seq<AccessRow>
    decreases n,
{
    if n <= 0 {
        Seq::empty()
    } else {
        crate::depend::rows_with(
            access_rows(batch, n - 1),
            batch[n - 1].ingress,
            batch[n - 1].accesses@,
        )
    }
}

/// A hazard orders the transaction at `i` behind the ordinal.
pub open spec fn hazard_on(batch: Seq<ExecTransaction>, i: int, o: IngressOrdinal) -> bool {
    crate::depend::must_wait_for(
        access_rows(batch, i),
        batch[i].ingress,
        batch[i].accesses@,
        o,
    )
}

/// Hazards order the transaction at `i` behind the ordinal, one after another.
pub open spec fn ordered_behind(batch: Seq<ExecTransaction>, i: int, o: IngressOrdinal) -> bool
    decreases i,
{
    hazard_on(batch, i, o) || exists|k: int|
        0 <= k < i && #[trigger] hazard_on(batch, i, batch[k].ingress) && ordered_behind(
            batch,
            k,
            o,
        )
}

/// A version one transaction of a batch publishes.
#[derive(Clone, Copy, Debug)]
pub struct Claim {
    /// Which transaction of the batch.
    pub by: usize,
    pub version: VersionPublication,
}

/// The versions one transaction publishes, in order.
pub open spec fn claims_of(batch: Seq<ExecTransaction>, i: int) -> Seq<Claim> {
    crate::exec::publications(batch[i].accesses@).map_values(
        |v: VersionPublication| Claim { by: i as usize, version: v },
    )
}

/// The versions the first `n` transactions publish, in order.
pub open spec fn claims(batch: Seq<ExecTransaction>, n: int) -> Seq<Claim>
    decreases n,
{
    if n <= 0 {
        Seq::empty()
    } else {
        claims(batch, n - 1) + claims_of(batch, n - 1)
    }
}

/// Two claims race: one memory, two transactions, and no hazard between them.
pub open spec fn races(batch: Seq<ExecTransaction>, all: Seq<Claim>, a: int, b: int) -> bool {
    &&& 0 <= a < b < all.len()
    &&& all[a].by != all[b].by
    &&& all[a].version.backing == all[b].version.backing
    &&& all[a].version.region.meets(all[b].version.region)
    &&& !ordered_behind(batch, all[b].by as int, batch[all[a].by as int].ingress)
}

/// Whether the race of `a` and `b` is reported before that of `c` and `d`: by
/// backing, then in publication order.
pub open spec fn reported_before(all: Seq<Claim>, a: int, b: int, c: int, d: int) -> bool {
    let x = all[a].version.backing.0;
    let y = all[c].version.backing.0;
    x < y || (x == y && (a < c || (a == c && b <= d)))
}

/// The race of `a` and `b` is the one to report.
pub open spec fn first_race(batch: Seq<ExecTransaction>, a: int, b: int) -> bool {
    let all = claims(batch, batch.len() as int);
    &&& races(batch, all, a, b)
    &&& forall|c: int, d: int| #[trigger]
        races(batch, all, c, d) ==> reported_before(all, a, b, c, d)
}

/// Every transaction belongs to the first one's generation.
pub open spec fn one_generation(batch: Seq<ExecTransaction>) -> bool {
    forall|k: int| !#[trigger] other_generation(batch, k)
}

/// Nothing waits for an encoder's fence.
pub open spec fn no_fence(batch: Seq<ExecTransaction>) -> bool {
    forall|k: int| !#[trigger] waits_for_fence(batch, k)
}

/// Every explicit wait has a producer in the batch.
pub open spec fn all_answered(batch: Seq<ExecTransaction>) -> bool {
    waits_model(batch).unproduced().len() == 0
}

/// Every explicit wait has a producer that arrived before its waiter.
pub open spec fn none_forward(batch: Seq<ExecTransaction>) -> bool {
    forall|k: int| !#[trigger] is_forward(batch_producers(batch), k)
}

/// Every two versions of the same bytes are ordered.
pub open spec fn no_race(batch: Seq<ExecTransaction>) -> bool {
    forall|a: int, b: int| !#[trigger] races(batch, claims(batch, batch.len() as int), a, b)
}

/// Ingress order is a legal schedule for the batch.
pub open spec fn is_eligible(batch: Seq<ExecTransaction>) -> bool {
    &&& in_ingress_order(batch)
    &&& none_forward(batch)
    &&& all_answered(batch)
    &&& no_fence(batch)
    &&& no_race(batch)
    &&& one_generation(batch)
}

/// The condition is the first the batch fails, and this is where.
pub open spec fn fails_by(batch: Seq<ExecTransaction>, why: Ineligible) -> bool {
    match why {
        Ineligible::OutOfIngressOrder { at, after } => exists|k: int| {
            &&& #[trigger] steps_back(batch, k)
            &&& at == batch[k].ingress
            &&& after == batch[k - 1].ingress
            &&& forall|j: int| #[trigger] steps_back(batch, j) ==> k <= j
        },
        Ineligible::ForwardExplicitWait { waiter, point, producer } => in_ingress_order(batch)
            && exists|k: int| {
            &&& #[trigger] is_forward(batch_producers(batch), k)
            &&& batch_producers(batch)[k] == (waiter, point, producer)
            &&& forall|j: int| #[trigger] is_forward(batch_producers(batch), j) ==> k <= j
        },
        Ineligible::UnansweredWait { waiter, point } => {
            &&& in_ingress_order(batch)
            &&& none_forward(batch)
            &&& !all_answered(batch)
            &&& waits_model(batch).unproduced()[0] == (waiter, point)
        },
        Ineligible::FencePrerequisite { waiter } => {
            &&& in_ingress_order(batch)
            &&& none_forward(batch)
            &&& all_answered(batch)
            &&& exists|k: int| {
                &&& #[trigger] waits_for_fence(batch, k)
                &&& waiter == batch[k].ingress
                &&& forall|j: int| #[trigger] waits_for_fence(batch, j) ==> k <= j
            }
        },
        Ineligible::UnorderedVersionRace { backing, first, second } => {
            &&& in_ingress_order(batch)
            &&& none_forward(batch)
            &&& all_answered(batch)
            &&& no_fence(batch)
            &&& exists|a: int, b: int| {
                let all = claims(batch, batch.len() as int);
                &&& #[trigger] first_race(batch, a, b)
                &&& backing == all[a].version.backing
                &&& first == batch[all[a].by as int].ingress
                &&& second == batch[all[b].by as int].ingress
            }
        },
        Ineligible::MixedGeneration { expected, found } => {
            &&& in_ingress_order(batch)
            &&& none_forward(batch)
            &&& all_answered(batch)
            &&& no_fence(batch)
            &&& no_race(batch)
            &&& exists|k: int| {
                &&& #[trigger] other_generation(batch, k)
                &&& expected == batch[0].session
                &&& found == batch[k].session
                &&& forall|j: int| #[trigger] other_generation(batch, j) ==> k <= j
            }
        },
    }
}

proof fn lemma_ordered(batch: Seq<ExecTransaction>, n: int)
    requires
        0 <= n <= batch.len(),
        forall|k: int| k < n ==> !#[trigger] steps_back(batch, k),
    ensures
        forall|i: int, j: int|
            0 <= i < j < n ==> (#[trigger] batch[i]).ingress.0 < (#[trigger] batch[j]).ingress.0,
    decreases n,
{
    if n > 1 {
        lemma_ordered(batch, n - 1);
        assert(!steps_back(batch, n - 1));
        assert(batch[n - 2].ingress.0 < batch[n - 1].ingress.0);
    }
}

/// Whether ingress order is a legal schedule for this batch, so that a serial
/// run and a parallel one are comparable at all.
///
/// The refusal is the first condition the batch fails, in the order the
/// variants are declared: shape before content.
pub fn eligible(batch: &[ExecTransaction]) -> (r: Result<(), Ineligible>)
    ensures
        match r {
            Ok(()) => is_eligible(batch@),
            Err(why) => fails_by(batch@, why),
        },
{
    let mut i: usize = 1;
    while i < batch.len()
        invariant
            1 <= i,
            forall|k: int| k < i ==> !#[trigger] steps_back(batch@, k),
        decreases batch.len() - i,
    {
        let at = batch[i].ingress;
        let after = batch[i - 1].ingress;
        if at.0 <= after.0 {
            assert(steps_back(batch@, i as int));
            return Err(Ineligible::OutOfIngressOrder { at, after });
        }
        i += 1;
    }
    proof {
        lemma_ordered(batch@, batch@.len() as int);
    }
    let waits = wait_graph(batch);
    let producers = earliest_producers(&waits);
    let mut i: usize = 0;
    while i < producers.len()
        invariant
            in_ingress_order(batch@),
            producers@ == batch_producers(batch@),
            i <= producers@.len(),
            forall|k: int| k < i ==> !#[trigger] is_forward(producers@, k),
        decreases producers.len() - i,
    {
        let (waiter, point, producer) = producers[i];
        if producer.0 >= waiter.0 {
            assert(is_forward(producers@, i as int));
            return Err(Ineligible::ForwardExplicitWait { waiter, point, producer });
        }
        i += 1;
    }
    let diagnoses = waits.diagnose();
    if diagnoses.len() > 0 {
        if let Diagnosis::Unproduced { waiter, point } = &diagnoses[0] {
            proof {
                lemma_first_unproduced(waits@, diagnoses@);
            }
            return Err(Ineligible::UnansweredWait { waiter: *waiter, point: *point });
        }
    }
    proof {
        lemma_none_unproduced(waits@, diagnoses@);
    }
    let mut i: usize = 0;
    while i < batch.len()
        invariant
            in_ingress_order(batch@),
            none_forward(batch@),
            all_answered(batch@),
            i <= batch@.len(),
            forall|k: int| k < i ==> !#[trigger] waits_for_fence(batch@, k),
        decreases batch.len() - i,
    {
        if names_fence(&batch[i].prerequisites) {
            assert(waits_for_fence(batch@, i as int));
            return Err(Ineligible::FencePrerequisite { waiter: batch[i].ingress });
        }
        i += 1;
    }
    match version_races(batch) {
        Ok(()) => {},
        Err(why) => {
            return Err(why);
        },
    }
    let mut i: usize = 0;
    while i < batch.len()
        invariant
            in_ingress_order(batch@),
            none_forward(batch@),
            all_answered(batch@),
            no_fence(batch@),
            no_race(batch@),
            i <= batch@.len(),
            forall|k: int| k < i ==> !#[trigger] other_generation(batch@, k),
        decreases batch.len() - i,
    {
        let expected = batch[0].session;
        let found = batch[i].session;
        if found != expected {
            assert(other_generation(batch@, i as int));
            return Err(Ineligible::MixedGeneration { expected, found });
        }
        i += 1;
    }
    Ok(())
}

fn names_fence(ps: &Vec<Prerequisite>) -> (found: bool)
    ensures
        found == has_fence(ps@),
{
    let mut i: usize = 0;
    while i < ps.len()
        invariant
            i <= ps@.len(),
            forall|k: int| 0 <= k < i ==> !((#[trigger] ps@[k]) is Fence),
        decreases ps.len() - i,
    {
        if let Prerequisite::Fence { .. } = ps[i] {
            assert(ps@[i as int] is Fence);
            return true;
        }
        i += 1;
    }
    false
}

/// Accept a whole batch into a wait graph.
pub(crate) fn wait_graph(batch: &[ExecTransaction]) -> (waits: WaitGraph)
    requires
        in_ingress_order(batch@),
    ensures
        waits.wf(),
        waits@ == waits_model(batch@),
{
    let mut waits = WaitGraph::new();
    let mut i: usize = 0;
    assert(waits@.nodes =~= waits_model(batch@.take(0)).nodes);
    while i < batch.len()
        invariant
            in_ingress_order(batch@),
            i <= batch@.len(),
            waits.wf(),
            waits@ =~= waits_model(batch@.take(i as int)),
        decreases batch.len() - i,
    {
        proof {
            let nodes = waits@.nodes;
            let o = batch@[i as int].ingress;
            assert(!waits@.holds(o)) by {
                if waits@.holds(o) {
                    let k = choose|k: int| waits@.holds_at(o, k);
                    assert(nodes[k].ordinal == batch@[k].ingress);
                }
            }
        }
        waits.accept(&batch[i]);
        i += 1;
        assert(waits@.nodes =~= waits_model(batch@.take(i as int)).nodes);
    }
    assert(batch@.take(i as int) =~= batch@);
    waits
}

/// The first report is a wait nothing produces exactly when there is one.
proof fn lemma_first_unproduced(waits: WaitModel, out: Seq<Diagnosis>)
    requires
        out.len() > 0,
        out.len() >= waits.unproduced().len(),
        forall|k: int|
            0 <= k < waits.unproduced().len() ==> (#[trigger] out[k]) == (Diagnosis::Unproduced {
                waiter: waits.unproduced()[k].0,
                point: waits.unproduced()[k].1,
            }),
        crate::prereq::sound_reports(waits, out.skip(waits.unproduced().len() as int)),
        out[0] is Unproduced,
    ensures
        waits.unproduced().len() > 0,
        out[0] == (Diagnosis::Unproduced {
            waiter: waits.unproduced()[0].0,
            point: waits.unproduced()[0].1,
        }),
{
    if waits.unproduced().len() == 0 {
        let rest = out.skip(0);
        assert(rest[0] == out[0]);
        assert(waits.true_report(rest[0]));
    }
}

proof fn lemma_none_unproduced(waits: WaitModel, out: Seq<Diagnosis>)
    requires
        out.len() >= waits.unproduced().len(),
        forall|k: int|
            0 <= k < waits.unproduced().len() ==> (#[trigger] out[k]) == (Diagnosis::Unproduced {
                waiter: waits.unproduced()[k].0,
                point: waits.unproduced()[k].1,
            }),
        out.len() == 0 || !(out[0] is Unproduced),
    ensures
        waits.unproduced().len() == 0,
{
}

/// No wait is listed twice.
spec fn each_wait_once(out: Seq<WaitEdge>) -> bool {
    forall|i: int, j: int|
        0 <= i < j < out.len() ==> !one_wait(#[trigger] out[i], #[trigger] out[j])
}

/// For each unmet wait, the earliest transaction that discharges it.
///
/// A wait needs one producer that ran before it, not every producer, so the
/// earliest decides eligibility and is the only prerequisite worth carrying.
pub(crate) fn earliest_producers(waits: &WaitGraph) -> (out: Vec<WaitEdge>)
    requires
        waits.wf(),
    ensures
        out@ == earliest(waits@.answers_of(waits@.nodes.len() as int)),
{
    let edges = waits.answering();
    let mut out: Vec<WaitEdge> = Vec::new();
    let mut i: usize = 0;
    assert(edges@.take(0) =~= Seq::<WaitEdge>::empty());
    while i < edges.len()
        invariant
            i <= edges@.len(),
            out@ == earliest(edges@.take(i as int)),
            each_wait_once(out@),
        decreases edges.len() - i,
    {
        let edge = edges[i];
        let ghost before = out@;
        proof {
            assert(edges@.take(i + 1).drop_last() =~= edges@.take(i as int));
            assert(edges@.take(i + 1).last() == edge);
        }
        match place_of(&out, edge) {
            Some(k) => {
                let held = out[k];
                if edge.2.0 < held.2.0 {
                    out.set(k, (held.0, held.1, edge.2));
                }
                proof {
                    assert forall|j: int| 0 <= j < before.len() && j != k implies !one_wait(
                        #[trigger] before[j],
                        edge,
                    ) by {
                        if j < k {
                            assert(!one_wait(before[j], before[k as int]));
                        } else {
                            assert(!one_wait(before[k as int], before[j]));
                        }
                    }
                    assert(out@ =~= lowered(before, edge));
                    assert forall|a: int, b: int| 0 <= a < b < out@.len() implies !one_wait(
                        #[trigger] out@[a],
                        #[trigger] out@[b],
                    ) by {
                        assert(!one_wait(before[a], before[b]));
                    }
                }
            },
            None => {
                out.push(edge);
                assert(out@ =~= lowered(before, edge));
            },
        }
        i += 1;
    }
    assert(edges@.take(i as int) =~= edges@);
    out
}

/// Where an edge's wait is listed.
fn place_of(out: &Vec<WaitEdge>, edge: WaitEdge) -> (at: Option<usize>)
    ensures
        match at {
            Some(k) => k < out@.len() && one_wait(out@[k as int], edge),
            None => !listed(out@, edge),
        },
{
    let mut i: usize = 0;
    while i < out.len()
        invariant
            i <= out@.len(),
            forall|k: int| 0 <= k < i ==> !one_wait(#[trigger] out@[k], edge),
        decreases out.len() - i,
    {
        if out[i].0 == edge.0 && out[i].1 == edge.1 {
            return Some(i);
        }
        i += 1;
    }
    None
}

/// Everything hazards order a transaction behind, for each of a batch.
spec fn are_reaches(batch: Seq<ExecTransaction>, reaches: Seq<OrdinalSet>) -> bool {
    forall|i: int|
        0 <= i < reaches.len() ==> (#[trigger] reaches[i]).wf() && forall|o: IngressOrdinal|
            #[trigger]
            reaches[i]@.contains(o) == ordered_behind(batch, i, o)
}

/// The one eligibility question that needs the hazard compiler to answer it.
fn version_races(batch: &[ExecTransaction]) -> (r: Result<(), Ineligible>)
    requires
        in_ingress_order(batch@),
        none_forward(batch@),
        all_answered(batch@),
        no_fence(batch@),
    ensures
        match r {
            Ok(()) => no_race(batch@),
            Err(why) => why is UnorderedVersionRace && fails_by(batch@, why),
        },
{
    let reaches = hazard_order(batch);
    let all = all_claims(batch);
    let mut found: Option<(usize, usize)> = None;
    let mut a: usize = 0;
    while a < all.len()
        invariant
            a <= all@.len(),
            all@ == claims(batch@, batch@.len() as int),
            reaches@.len() == batch@.len(),
            are_reaches(batch@, reaches@),
            best_so_far(batch@, all@, found, a as int, 0),
        decreases all.len() - a,
    {
        let mut b: usize = a + 1;
        proof {
            assert forall|c: int, d: int| before_pair(c, d, a as int, a + 1) && #[trigger] races(
                batch@,
                all@,
                c,
                d,
            ) implies before_pair(c, d, a as int, 0) by {}
        }
        while b < all.len()
            invariant
                a < b <= all@.len(),
                all@ == claims(batch@, batch@.len() as int),
                reaches@.len() == batch@.len(),
                are_reaches(batch@, reaches@),
                best_so_far(batch@, all@, found, a as int, b as int),
            decreases all.len() - b,
        {
            if race_of(batch, &reaches, &all, a, b) {
                let better = match found {
                    None => true,
                    Some((x, y)) => all[a].version.backing.0 < all[x].version.backing.0,
                };
                if better {
                    found = Some((a, b));
                }
            }
            b += 1;
        }
        a += 1;
    }
    match found {
        Some((x, y)) => {
            let count = batch.len();
            proof {
                lemma_claim_owner(batch@, count as int, x as int);
                lemma_claim_owner(batch@, count as int, y as int);
                assert(first_race(batch@, x as int, y as int));
            }
            Err(
                Ineligible::UnorderedVersionRace {
                    backing: all[x].version.backing,
                    first: batch[all[x].by].ingress,
                    second: batch[all[y].by].ingress,
                },
            )
        },
        None => Ok(()),
    }
}

/// The pair `(c, d)` was looked at before the pair `(a, b)`.
spec fn before_pair(c: int, d: int, a: int, b: int) -> bool {
    c < a || (c == a && d < b)
}

/// The race to report among the pairs before `(a, b)`.
spec fn best_so_far(
    batch: Seq<ExecTransaction>,
    all: Seq<Claim>,
    found: Option<(usize, usize)>,
    a: int,
    b: int,
) -> bool {
    match found {
        None => forall|c: int, d: int| #[trigger]
            races(batch, all, c, d) ==> !before_pair(c, d, a, b),
        Some((x, y)) => races(batch, all, x as int, y as int) && before_pair(
            x as int,
            y as int,
            a,
            b,
        ) && forall|c: int, d: int| #[trigger]
            races(batch, all, c, d) && before_pair(c, d, a, b) ==> reported_before(
                all,
                x as int,
                y as int,
                c,
                d,
            ),
    }
}

/// Whether two claims race.
fn race_of(
    batch: &[ExecTransaction],
    reaches: &Vec<OrdinalSet>,
    all: &Vec<Claim>,
    a: usize,
    b: usize,
) -> (race: bool)
    requires
        a < b < all@.len(),
        all@ == claims(batch@, batch@.len() as int),
        reaches@.len() == batch@.len(),
        are_reaches(batch@, reaches@),
    ensures
        race == races(batch@, all@, a as int, b as int),
{
    let first = all[a];
    let second = all[b];
    let count = batch.len();
    proof {
        lemma_claim_owner(batch@, count as int, a as int);
        lemma_claim_owner(batch@, count as int, b as int);
    }
    if first.by == second.by || first.version.backing != second.version.backing {
        return false;
    }
    if !first.version.region.may_alias(second.version.region) {
        return false;
    }
    let behind = &reaches[second.by];
    assert(reaches@[second.by as int].wf());
    !behind.contains(batch[first.by].ingress)
}

/// A claim is some transaction's.
proof fn lemma_claim_owner(batch: Seq<ExecTransaction>, n: int, k: int)
    requires
        0 <= n <= batch.len(),
        batch.len() <= usize::MAX,
        0 <= k < claims(batch, n).len(),
    ensures
        claims(batch, n)[k].by < n,
    decreases n,
{
    if n > 0 {
        if k < claims(batch, n - 1).len() {
            lemma_claim_owner(batch, n - 1, k);
        }
    }
}

/// Every version the batch publishes, in order.
fn all_claims(batch: &[ExecTransaction]) -> (all: Vec<Claim>)
    ensures
        all@ == claims(batch@, batch@.len() as int),
{
    let mut all: Vec<Claim> = Vec::new();
    let mut i: usize = 0;
    while i < batch.len()
        invariant
            i <= batch@.len(),
            all@ == claims(batch@, i as int),
        decreases batch.len() - i,
    {
        let versions = batch[i].published_versions();
        let mut k: usize = 0;
        let ghost before = all@;
        while k < versions.len()
            invariant
                k <= versions@.len(),
                i < batch@.len(),
                versions@ == crate::exec::publications(batch@[i as int].accesses@),
                all@ =~= before + claims_of(batch@, i as int).take(k as int),
            decreases versions.len() - k,
        {
            all.push(Claim { by: i, version: versions[k] });
            k += 1;
        }
        assert(claims_of(batch@, i as int).take(k as int) =~= claims_of(batch@, i as int));
        i += 1;
    }
    all
}

/// Everything hazards order each transaction behind. Hazards point backwards,
/// so one pass in ingress order settles it.
fn hazard_order(batch: &[ExecTransaction]) -> (reaches: Vec<OrdinalSet>)
    requires
        in_ingress_order(batch@),
    ensures
        reaches@.len() == batch@.len(),
        are_reaches(batch@, reaches@),
{
    let mut graph = DependencyGraph::new();
    let mut reaches: Vec<OrdinalSet> = Vec::new();
    let mut i: usize = 0;
    while i < batch.len()
        invariant
            in_ingress_order(batch@),
            i <= batch@.len(),
            graph.wf(),
            graph.rows() == access_rows(batch@, i as int),
            i == 0 ==> graph.newest() is None,
            i > 0 ==> graph.newest() == Some(batch@[i - 1].ingress),
            reaches@.len() == i,
            are_reaches(batch@, reaches@),
        decreases batch.len() - i,
    {
        proof {
            lemma_rows_before(batch@, i as int);
        }
        let waits = graph.accept(batch[i].ingress, batch[i].accesses.as_slice());
        let mut behind = OrdinalSet::new();
        let mut k: usize = 0;
        assert(waits@.take(0) =~= Seq::<IngressOrdinal>::empty());
        while k < waits.len()
            invariant
                in_ingress_order(batch@),
                i < batch@.len(),
                k <= waits@.len(),
                behind.wf(),
                reaches@.len() == i,
                are_reaches(batch@, reaches@),
                forall|o: IngressOrdinal| #[trigger]
                    waits@.contains(o) == hazard_on(batch@, i as int, o),
                forall|o: IngressOrdinal| #[trigger]
                    behind@.contains(o) == (waits@.take(k as int).contains(o) || passes(
                        batch@,
                        i as int,
                        waits@.take(k as int),
                        o,
                    )),
            decreases waits.len() - k,
        {
            let wait = waits[k];
            let ghost seen = waits@.take(k as int);
            let ghost held = behind@;
            proof {
                assert(waits@.take(k + 1) =~= seen.push(wait));
                assert(waits@.contains(wait));
            }
            let _ = behind.insert(wait);
            let ghost with = behind@;
            match index_of(batch, wait, i) {
                Some(at) => {
                    merge(&mut behind, &reaches[at]);
                    proof {
                        assert forall|o: IngressOrdinal| #[trigger]
                            behind@.contains(o) == (seen.push(wait).contains(o) || passes(
                                batch@,
                                i as int,
                                seen.push(wait),
                                o,
                            )) by {
                            assert(with.contains(o) == (held.contains(o) || o == wait));
                            assert(reaches@[at as int]@.contains(o) == ordered_behind(
                                batch@,
                                at as int,
                                o,
                            ));
                            lemma_pushed(seen, wait, o);
                            lemma_passes_push(batch@, i as int, seen, wait, at as int, o);
                        }
                    }
                },
                None => {
                    proof {
                        lemma_hazard_in_batch(batch@, i as int, wait);
                    }
                },
            }
            k += 1;
        }
        proof {
            assert(waits@.take(k as int) =~= waits@);
            assert forall|o: IngressOrdinal| #[trigger]
                behind@.contains(o) == ordered_behind(batch@, i as int, o) by {
                assert(waits@.contains(o) == hazard_on(batch@, i as int, o));
                if passes(batch@, i as int, waits@, o) {
                    let k = choose|k: int| passes_by(batch@, i as int, waits@, o, k);
                    assert(waits@.contains(batch@[k].ingress));
                    assert(hazard_on(batch@, i as int, batch@[k].ingress));
                }
                if exists|k: int|
                    0 <= k < i && #[trigger] hazard_on(batch@, i as int, batch@[k].ingress)
                        && ordered_behind(batch@, k, o) {
                    let k = choose|k: int|
                        0 <= k < i && #[trigger] hazard_on(batch@, i as int, batch@[k].ingress)
                            && ordered_behind(batch@, k, o);
                    assert(waits@.contains(batch@[k].ingress));
                    assert(passes_by(batch@, i as int, waits@, o, k));
                }
            }
        }
        let ghost earlier = reaches@;
        reaches.push(behind);
        proof {
            assert forall|j: int| 0 <= j < reaches@.len() implies (#[trigger] reaches@[j]).wf()
                && forall|o: IngressOrdinal| #[trigger]
                reaches@[j]@.contains(o) == ordered_behind(batch@, j, o) by {
                if j < earlier.len() {
                    assert(reaches@[j] == earlier[j]);
                }
            }
        }
        i += 1;
    }
    reaches
}

/// The transaction is ordered behind the ordinal through the one at `k`.
spec fn passes_by(
    batch: Seq<ExecTransaction>,
    i: int,
    waits: Seq<IngressOrdinal>,
    o: IngressOrdinal,
    k: int,
) -> bool {
    0 <= k < i && waits.contains(batch[k].ingress) && ordered_behind(batch, k, o)
}

/// The transaction is ordered behind the ordinal through one of these waits.
spec fn passes(
    batch: Seq<ExecTransaction>,
    i: int,
    waits: Seq<IngressOrdinal>,
    o: IngressOrdinal,
) -> bool {
    exists|k: int| passes_by(batch, i, waits, o, k)
}

proof fn lemma_pushed(seen: Seq<IngressOrdinal>, wait: IngressOrdinal, o: IngressOrdinal)
    ensures
        seen.push(wait).contains(o) == (seen.contains(o) || o == wait),
{
    let next = seen.push(wait);
    assert(next[seen.len() as int] == wait);
    if seen.contains(o) {
        let k = choose|k: int| 0 <= k < seen.len() && seen[k] == o;
        assert(next[k] == o);
    }
    if next.contains(o) && o != wait {
        let k = choose|k: int| 0 <= k < next.len() && next[k] == o;
        assert(seen[k] == o);
    }
}

proof fn lemma_passes_push(
    batch: Seq<ExecTransaction>,
    i: int,
    seen: Seq<IngressOrdinal>,
    wait: IngressOrdinal,
    at: int,
    o: IngressOrdinal,
)
    requires
        in_ingress_order(batch),
        0 <= at < i < batch.len(),
        batch[at].ingress == wait,
    ensures
        passes(batch, i, seen.push(wait), o) == (passes(batch, i, seen, o) || ordered_behind(
            batch,
            at,
            o,
        )),
{
    let next = seen.push(wait);
    if passes(batch, i, seen, o) {
        let k = choose|k: int| passes_by(batch, i, seen, o, k);
        lemma_pushed(seen, wait, batch[k].ingress);
        assert(passes_by(batch, i, next, o, k));
    }
    if ordered_behind(batch, at, o) {
        lemma_pushed(seen, wait, wait);
        assert(passes_by(batch, i, next, o, at));
    }
    if passes(batch, i, next, o) {
        let k = choose|k: int| passes_by(batch, i, next, o, k);
        lemma_pushed(seen, wait, batch[k].ingress);
        if batch[k].ingress == wait {
            if k < at {
                assert(batch[k].ingress.0 < batch[at].ingress.0);
            } else if at < k {
                assert(batch[at].ingress.0 < batch[k].ingress.0);
            }
        } else {
            assert(passes_by(batch, i, seen, o, k));
        }
    }
}

/// Every access row belongs to one of the transactions before it.
pub proof fn lemma_row_owner(batch: Seq<ExecTransaction>, n: int, r: int)
    requires
        0 <= n <= batch.len(),
        0 <= r < access_rows(batch, n).len(),
    ensures
        access_rows(batch, n)[r].live,
        exists|k: int| 0 <= k < n && (#[trigger] batch[k]).ingress == access_rows(batch, n)[r].ordinal,
    decreases n,
{
    if n > 0 {
        let before = access_rows(batch, n - 1);
        if r < before.len() {
            lemma_row_owner(batch, n - 1, r);
            let k = choose|k: int| 0 <= k < n - 1 && (#[trigger] batch[k]).ingress == before[r].ordinal;
            assert(batch[k].ingress == access_rows(batch, n)[r].ordinal);
        } else {
            assert(batch[n - 1].ingress == access_rows(batch, n)[r].ordinal);
        }
    }
}

/// The rows before a transaction are all of earlier ones.
pub(crate) proof fn lemma_rows_before(batch: Seq<ExecTransaction>, i: int)
    requires
        in_ingress_order(batch),
        0 <= i < batch.len(),
    ensures
        access_rows(batch, i).len() > 0 ==> batch[i].ingress.0 > access_rows(
            batch,
            i,
        ).last().ordinal.0,
{
    let rows = access_rows(batch, i);
    if rows.len() > 0 {
        lemma_row_owner(batch, i, rows.len() - 1);
        let k = choose|k: int| 0 <= k < i && (#[trigger] batch[k]).ingress == rows.last().ordinal;
        assert(batch[k].ingress.0 < batch[i].ingress.0);
    }
}

/// A hazard names an earlier transaction of the batch.
pub proof fn lemma_hazard_in_batch(batch: Seq<ExecTransaction>, i: int, o: IngressOrdinal)
    requires
        0 <= i < batch.len(),
        hazard_on(batch, i, o),
    ensures
        exists|k: int| 0 <= k < i && (#[trigger] batch[k]).ingress == o,
{
    let rows = access_rows(batch, i);
    let accesses = batch[i].accesses@;
    let (r, k) = choose|r: int, k: int|
        0 <= r < rows.len() && 0 <= k < accesses.len() && (#[trigger] rows[r]).ordinal == o
            && crate::depend::conflicts(rows, batch[i].ingress, #[trigger] accesses[k], r);
    assert(rows[r].ordinal == o);
    lemma_row_owner(batch, i, r);
}

/// Where an ordinal stands among the first `n` transactions.
pub(crate) fn index_of(batch: &[ExecTransaction], o: IngressOrdinal, n: usize) -> (at: Option<
    usize,
>)
    requires
        n <= batch@.len(),
    ensures
        match at {
            Some(i) => i < n && batch@[i as int].ingress == o,
            None => forall|k: int| 0 <= k < n ==> (#[trigger] batch@[k]).ingress != o,
        },
{
    let mut i: usize = 0;
    while i < n
        invariant
            i <= n <= batch@.len(),
            forall|k: int| 0 <= k < i ==> (#[trigger] batch@[k]).ingress != o,
        decreases n - i,
    {
        if batch[i].ingress == o {
            return Some(i);
        }
        i += 1;
    }
    None
}

/// Add every ordinal of one set to another.
fn merge(into: &mut OrdinalSet, from: &OrdinalSet)
    requires
        old(into).wf(),
    ensures
        final(into).wf(),
        forall|o: IngressOrdinal| #[trigger]
            final(into)@.contains(o) == (old(into)@.contains(o) || from@.contains(o)),
{
    let mut i: usize = 0;
    assert(from@.take(0) =~= Seq::<IngressOrdinal>::empty());
    while i < from.len()
        invariant
            i <= from@.len(),
            into.wf(),
            forall|o: IngressOrdinal| #[trigger]
                into@.contains(o) == (old(into)@.contains(o) || from@.take(i as int).contains(o)),
        decreases from@.len() - i,
    {
        let o = from.get(i);
        let ghost seen = from@.take(i as int);
        let ghost before = into@;
        let _ = into.insert(o);
        proof {
            assert(from@.take(i + 1) =~= seen.push(o));
            assert forall|x: IngressOrdinal| #[trigger]
                into@.contains(x) == (old(into)@.contains(x) || from@.take(i + 1).contains(x)) by {
                lemma_pushed(seen, o, x);
                assert(into@.contains(x) == (before.contains(x) || x == o));
            }
        }
        i += 1;
    }
    assert(from@.take(i as int) =~= from@);
}

/// Every access of an earlier transaction is among the rows a later one is
/// compared with.
proof fn lemma_row_of(batch: Seq<ExecTransaction>, n: int, k: int, x: int) -> (r: int)
    requires
        0 <= k < n <= batch.len(),
        0 <= x < batch[k].accesses@.len(),
    ensures
        0 <= r < access_rows(batch, n).len(),
        access_rows(batch, n)[r] == (AccessRow {
            ordinal: batch[k].ingress,
            intent: batch[k].accesses@[x],
            live: true,
        }),
    decreases n,
{
    let before = access_rows(batch, n - 1);
    if k == n - 1 {
        before.len() + x
    } else {
        lemma_row_of(batch, n - 1, k, x)
    }
}

/// Whose access a row is.
proof fn lemma_row_from(batch: Seq<ExecTransaction>, n: int, r: int) -> (at: (int, int))
    requires
        0 <= n <= batch.len(),
        0 <= r < access_rows(batch, n).len(),
    ensures
        0 <= at.0 < n,
        0 <= at.1 < batch[at.0].accesses@.len(),
        access_rows(batch, n)[r] == (AccessRow {
            ordinal: batch[at.0].ingress,
            intent: batch[at.0].accesses@[at.1],
            live: true,
        }),
    decreases n,
{
    let before = access_rows(batch, n - 1);
    if r < before.len() {
        lemma_row_from(batch, n - 1, r)
    } else {
        (n - 1, r - before.len())
    }
}

/// Two accesses of one domain that could share memory, one of them no proven
/// read, put a hazard between their transactions.
pub proof fn a_conflict_is_a_hazard(
    batch: Seq<ExecTransaction>,
    k: int,
    i: int,
    x: int,
    y: int,
)
    requires
        in_ingress_order(batch),
        0 <= k < i < batch.len(),
        0 <= x < batch[k].accesses@.len(),
        0 <= y < batch[i].accesses@.len(),
        batch[k].accesses@[x].domain == batch[i].accesses@[y].domain,
        batch[k].accesses@[x].key.meets(batch[i].accesses@[y].key),
        !(batch[k].accesses@[x].mode is Read) || !(batch[i].accesses@[y].mode is Read),
    ensures
        hazard_on(batch, i, batch[k].ingress),
{
    let rows = access_rows(batch, i);
    let r = lemma_row_of(batch, i, k, x);
    assert(batch[k].ingress.0 < batch[i].ingress.0);
    crate::access::every_other_pair_is_ordered(batch[k].accesses@[x], batch[i].accesses@[y]);
    assert(crate::depend::conflicts(rows, batch[i].ingress, batch[i].accesses@[y], r));
    assert(rows[r].ordinal == batch[k].ingress);
}

/// A hazard is between two such accesses, of the later transaction and of an
/// earlier one.
pub proof fn a_hazard_is_a_conflict(batch: Seq<ExecTransaction>, i: int, o: IngressOrdinal) -> (at: (
    int,
    int,
    int,
))
    requires
        0 <= i < batch.len(),
        hazard_on(batch, i, o),
    ensures
        0 <= at.0 < i,
        batch[at.0].ingress == o,
        0 <= at.1 < batch[at.0].accesses@.len(),
        0 <= at.2 < batch[i].accesses@.len(),
        batch[at.0].accesses@[at.1].domain == batch[i].accesses@[at.2].domain,
        batch[at.0].accesses@[at.1].key.meets(batch[i].accesses@[at.2].key),
        !(batch[at.0].accesses@[at.1].mode is Read) || !(batch[i].accesses@[at.2].mode is Read),
{
    let rows = access_rows(batch, i);
    let accesses = batch[i].accesses@;
    let (r, y) = choose|r: int, y: int|
        0 <= r < rows.len() && 0 <= y < accesses.len() && (#[trigger] rows[r]).ordinal == o
            && crate::depend::conflicts(rows, batch[i].ingress, #[trigger] accesses[y], r);
    let at = lemma_row_from(batch, i, r);
    (at.0, at.1, y)
}

/// The steps lead back from a transaction to an earlier one, a hazard between
/// every two.
pub open spec fn is_hazard_chain(batch: Seq<ExecTransaction>, chain: Seq<int>) -> bool {
    forall|n: int| #![trigger chain[n]]
        0 <= n < chain.len() - 1 ==> 0 <= chain[n + 1] < chain[n] < batch.len() && hazard_on(
            batch,
            chain[n],
            batch[chain[n + 1]].ingress,
        )
}

/// What is ordered behind an ordinal has a chain of hazards to it.
pub proof fn an_order_is_a_chain_of_hazards(
    batch: Seq<ExecTransaction>,
    j: int,
    o: IngressOrdinal,
) -> (chain: Seq<int>)
    requires
        0 <= j < batch.len(),
        ordered_behind(batch, j, o),
    ensures
        chain.len() >= 2,
        chain[0] == j,
        is_hazard_chain(batch, chain),
        0 <= chain.last() < batch.len(),
        batch[chain.last()].ingress == o,
    decreases j,
{
    if hazard_on(batch, j, o) {
        let at = a_hazard_is_a_conflict(batch, j, o);
        seq![j, at.0]
    } else {
        let k = choose|k: int|
            0 <= k < j && #[trigger] hazard_on(batch, j, batch[k].ingress) && ordered_behind(
                batch,
                k,
                o,
            );
        let rest = an_order_is_a_chain_of_hazards(batch, k, o);
        let chain = seq![j] + rest;
        assert forall|n: int| #![trigger chain[n]]
            0 <= n < chain.len() - 1 implies 0 <= chain[n + 1] < chain[n] < batch.len()
            && hazard_on(batch, chain[n], batch[chain[n + 1]].ingress) by {
            if n > 0 {
                assert(chain[n] == rest[n - 1] && chain[n + 1] == rest[n]);
            } else {
                assert(chain[1] == rest[0]);
            }
        }
        assert(chain.last() == rest.last());
        chain
    }
}

proof fn lemma_claim_at(
    batch: Seq<ExecTransaction>,
    n: int,
    i: int,
    v: VersionPublication,
) -> (a: int)
    requires
        0 <= i < n <= batch.len(),
        crate::exec::publications(batch[i].accesses@).contains(v),
    ensures
        claims(batch, i).len() <= a < claims(batch, i + 1).len() <= claims(batch, n).len(),
        claims(batch, n)[a] == (Claim { by: i as usize, version: v }),
    decreases n,
{
    let before = claims(batch, n - 1);
    if i == n - 1 {
        let published = crate::exec::publications(batch[i].accesses@);
        let x = choose|x: int| 0 <= x < published.len() && published[x] == v;
        assert(claims_of(batch, i)[x] == (Claim { by: i as usize, version: v }));
        before.len() + x
    } else {
        lemma_claim_at(batch, n - 1, i, v)
    }
}

/// In an eligible batch, two transactions that both produce versions of memory
/// they could share are ordered by a chain of hazards, the later behind the
/// earlier: overlapping ranges, overlapping windows, or a whole backing and
/// anything inside it.
pub proof fn producers_of_shared_memory_are_ordered(
    batch: Seq<ExecTransaction>,
    i: int,
    j: int,
    x: int,
    y: int,
)
    requires
        batch.len() <= usize::MAX,
        is_eligible(batch),
        0 <= i < j < batch.len(),
        0 <= x < batch[i].accesses@.len(),
        0 <= y < batch[j].accesses@.len(),
        batch[i].accesses@[x].output_content_version is Some,
        batch[j].accesses@[y].output_content_version is Some,
        names_memory(batch[i].accesses@[x].key),
        names_memory(batch[j].accesses@[y].key),
        batch[i].accesses@[x].key.meets(batch[j].accesses@[y].key),
    ensures
        ordered_behind(batch, j, batch[i].ingress),
{
    let n = batch.len() as int;
    let a = batch[i].accesses@[x];
    let b = batch[j].accesses@[y];
    let from = memory_of(a.key);
    let to = memory_of(b.key);
    crate::exec::a_produced_version_is_published(
        batch[i].accesses@,
        x,
        a.output_content_version->0,
        from,
    );
    crate::exec::a_produced_version_is_published(
        batch[j].accesses@,
        y,
        b.output_content_version->0,
        to,
    );
    let c = lemma_claim_at(
        batch,
        n,
        i,
        VersionPublication { backing: from, region: a.key, to: a.output_content_version->0 },
    );
    let d = lemma_claim_at(
        batch,
        n,
        j,
        VersionPublication { backing: to, region: b.key, to: b.output_content_version->0 },
    );
    lemma_claims_grow(batch, i + 1, j);
    assert(c < d);
    assert(from == to);
    assert(!races(batch, claims(batch, n), c, d));
}

/// The key names memory of one backing.
pub open spec fn names_memory(key: crate::access::AccessKey) -> bool {
    key is Range || key is Subresource || key is Whole
}

/// The backing a key that names memory names.
spec fn memory_of(key: crate::access::AccessKey) -> BackingId {
    match key {
        crate::access::AccessKey::Range(r, _) => r.backing,
        crate::access::AccessKey::Subresource(r, _) => r.backing,
        crate::access::AccessKey::Whole(r) => r.backing,
        _ => BackingId(0),
    }
}

proof fn lemma_claims_grow(batch: Seq<ExecTransaction>, m: int, n: int)
    requires
        0 <= m <= n <= batch.len(),
    ensures
        claims(batch, m).len() <= claims(batch, n).len(),
    decreases n,
{
    if m < n {
        lemma_claims_grow(batch, m, n - 1);
    }
}

/// Two transactions whose accesses are of two channels, and that both produce
/// versions of memory they could share, are no eligible batch: nothing orders
/// them.
pub proof fn two_channels_may_not_produce_shared_memory(
    batch: Seq<ExecTransaction>,
    x: int,
    y: int,
)
    requires
        batch.len() == 2,
        forall|a: int, b: int|
            0 <= a < batch[0].accesses@.len() && 0 <= b < batch[1].accesses@.len() ==> (
            #[trigger] batch[0].accesses@[a]).domain != (#[trigger] batch[1].accesses@[b]).domain,
        0 <= x < batch[0].accesses@.len(),
        0 <= y < batch[1].accesses@.len(),
        batch[0].accesses@[x].output_content_version is Some,
        batch[1].accesses@[y].output_content_version is Some,
        names_memory(batch[0].accesses@[x].key),
        names_memory(batch[1].accesses@[y].key),
        batch[0].accesses@[x].key.meets(batch[1].accesses@[y].key),
    ensures
        !is_eligible(batch),
{
    if is_eligible(batch) {
        producers_of_shared_memory_are_ordered(batch, 0, 1, x, y);
        let chain = an_order_is_a_chain_of_hazards(batch, 1, batch[0].ingress);
        assert(chain[0] == 1);
        let at = a_hazard_is_a_conflict(batch, 1, batch[chain[1]].ingress);
        assert(batch[0].accesses@[at.1].domain != batch[1].accesses@[at.2].domain);
    }
}

/// A reported race is between two transactions that produce versions of memory
/// of that backing they could share, with no chain of hazards between them.
pub proof fn a_reported_race_is_between_producers(
    batch: Seq<ExecTransaction>,
    backing: BackingId,
    first: IngressOrdinal,
    second: IngressOrdinal,
) -> (at: (int, int, int, int))
    requires
        batch.len() <= usize::MAX,
        fails_by(batch, Ineligible::UnorderedVersionRace { backing, first, second }),
    ensures
        0 <= at.0 < batch.len(),
        0 <= at.1 < batch.len(),
        at.0 != at.1,
        batch[at.0].ingress == first,
        batch[at.1].ingress == second,
        0 <= at.2 < batch[at.0].accesses@.len(),
        0 <= at.3 < batch[at.1].accesses@.len(),
        batch[at.0].accesses@[at.2].output_content_version is Some,
        batch[at.1].accesses@[at.3].output_content_version is Some,
        batch[at.0].accesses@[at.2].key.meets(batch[at.1].accesses@[at.3].key),
        match batch[at.0].accesses@[at.2].key {
            crate::access::AccessKey::Range(r, _) => r.backing == backing,
            crate::access::AccessKey::Subresource(r, _) => r.backing == backing,
            crate::access::AccessKey::Whole(r) => r.backing == backing,
            _ => false,
        },
        !ordered_behind(batch, at.1, first),
{
    let n = batch.len() as int;
    let all = claims(batch, n);
    let (a, b) = choose|a: int, b: int| {
        &&& #[trigger] first_race(batch, a, b)
        &&& backing == all[a].version.backing
        &&& first == batch[all[a].by as int].ingress
        &&& second == batch[all[b].by as int].ingress
    };
    let x = lemma_claim_from(batch, n, a);
    let y = lemma_claim_from(batch, n, b);
    (all[a].by as int, all[b].by as int, x, y)
}

/// The access a claim is of.
proof fn lemma_claim_from(batch: Seq<ExecTransaction>, n: int, c: int) -> (x: int)
    requires
        0 <= n <= batch.len(),
        batch.len() <= usize::MAX,
        0 <= c < claims(batch, n).len(),
    ensures
        claims(batch, n)[c].by < n,
        0 <= x < batch[claims(batch, n)[c].by as int].accesses@.len(),
        ({
            let claim = claims(batch, n)[c];
            let access = batch[claim.by as int].accesses@[x];
            &&& access.output_content_version == Some(claim.version.to)
            &&& access.key == claim.version.region
            &&& match access.key {
                crate::access::AccessKey::Range(r, _) => r.backing == claim.version.backing,
                crate::access::AccessKey::Subresource(r, _) => r.backing == claim.version.backing,
                crate::access::AccessKey::Whole(r) => r.backing == claim.version.backing,
                _ => false,
            }
        }),
    decreases n,
{
    let before = claims(batch, n - 1);
    if c < before.len() {
        lemma_claim_from(batch, n - 1, c)
    } else {
        let own = claims_of(batch, n - 1);
        assert(claims(batch, n)[c] == own[c - before.len()]);
        crate::exec::a_published_version_was_produced(batch[n - 1].accesses@, c - before.len())
    }
}

/// A batch in arrival order, of one generation, that waits for nothing and
/// produces no version is eligible whatever it touches.
pub proof fn work_that_waits_for_nothing_and_produces_nothing_is_eligible(
    batch: Seq<ExecTransaction>,
)
    requires
        batch.len() <= usize::MAX,
        forall|i: int, j: int|
            0 <= i < j < batch.len() ==> (#[trigger] batch[i]).ingress.0 < (
            #[trigger] batch[j]).ingress.0,
        forall|i: int| 0 <= i < batch.len() ==> (#[trigger] batch[i]).session == batch[0].session,
        forall|i: int|
            0 <= i < batch.len() ==> (#[trigger] batch[i]).prerequisites@.len() == 0,
        forall|i: int, x: int|
            0 <= i < batch.len() && 0 <= x < batch[i].accesses@.len() ==> (
            #[trigger] batch[i].accesses@[x]).output_content_version is None,
    ensures
        is_eligible(batch),
{
    let n = batch.len() as int;
    let g = waits_model(batch);
    assert forall|i: int| 0 <= i < g.nodes.len() implies (#[trigger] g.nodes[i]).waits.len()
        == 0 by {
        assert(batch[i].prerequisites@.len() == 0);
    }
    lemma_no_answers(g, n);
    lemma_arrival_in_range(g, n);
    lemma_nothing_unproduced(g, g.arrival(n));
    assert forall|a: int, b: int| !#[trigger] races(batch, claims(batch, n), a, b) by {
        if races(batch, claims(batch, n), a, b) {
            let x = lemma_claim_from(batch, n, a);
            let by = claims(batch, n)[a].by as int;
            assert(batch[by].accesses@[x].output_content_version is None);
        }
    }
    assert forall|k: int| !#[trigger] waits_for_fence(batch, k) by {
        if waits_for_fence(batch, k) {
            assert(batch[k].prerequisites@.len() == 0);
        }
    }
}

proof fn lemma_no_answers(g: WaitModel, n: int)
    requires
        0 <= n <= g.nodes.len(),
        forall|i: int| 0 <= i < g.nodes.len() ==> (#[trigger] g.nodes[i]).waits.len() == 0,
    ensures
        g.answers_of(n).len() == 0,
    decreases n,
{
    if n > 0 {
        lemma_no_answers(g, n - 1);
        assert(g.nodes[n - 1].waits.len() == 0);
    }
}

proof fn lemma_placed_in_range(g: WaitModel, order: Seq<int>, i: int, n: int)
    requires
        0 <= i < n,
        forall|k: int| 0 <= k < order.len() ==> 0 <= (#[trigger] order[k]) < n,
    ensures
        forall|k: int|
            0 <= k < g.placed(order, i).len() ==> 0 <= (#[trigger] g.placed(order, i)[k]) < n,
    decreases order.len(),
{
    if order.len() > 0 && g.nodes[order.last()].ordinal.0 > g.nodes[i].ordinal.0 {
        let init = order.drop_last();
        assert(forall|k: int| 0 <= k < init.len() ==> (#[trigger] init[k]) == order[k]);
        let before = g.placed(init, i);
        lemma_placed_in_range(g, init, i, n);
        assert(order[order.len() - 1] == order.last());
        assert forall|k: int| 0 <= k < g.placed(order, i).len() implies 0 <= (
        #[trigger] g.placed(order, i)[k]) < n by {
            if k < before.len() {
                assert(g.placed(order, i)[k] == before[k]);
            }
        }
    } else {
        assert forall|k: int| 0 <= k < g.placed(order, i).len() implies 0 <= (
        #[trigger] g.placed(order, i)[k]) < n by {
            if k < order.len() {
                assert(g.placed(order, i)[k] == order[k]);
            }
        }
    }
}

proof fn lemma_arrival_in_range(g: WaitModel, n: int)
    requires
        0 <= n,
    ensures
        forall|k: int| 0 <= k < g.arrival(n).len() ==> 0 <= (#[trigger] g.arrival(n)[k]) < n,
    decreases n,
{
    if n > 0 {
        lemma_arrival_in_range(g, n - 1);
        lemma_placed_in_range(g, g.arrival(n - 1), n - 1, n);
    }
}

proof fn lemma_nothing_unproduced(g: WaitModel, order: Seq<int>)
    requires
        forall|i: int| 0 <= i < g.nodes.len() ==> (#[trigger] g.nodes[i]).waits.len() == 0,
        forall|k: int| 0 <= k < order.len() ==> 0 <= (#[trigger] order[k]) < g.nodes.len(),
    ensures
        g.unproduced_by(order).len() == 0,
    decreases order.len(),
{
    if order.len() > 0 {
        let init = order.drop_last();
        assert(forall|k: int| 0 <= k < init.len() ==> (#[trigger] init[k]) == order[k]);
        lemma_nothing_unproduced(g, init);
        assert(order[order.len() - 1] == order.last());
        assert(g.nodes[order.last()].waits.len() == 0);
    }
}

/// An eligible batch is of one generation, in arrival order, and waits for no
/// fence.
pub proof fn an_eligible_batch_is_one_generation_in_order(
    batch: Seq<ExecTransaction>,
    i: int,
    j: int,
    k: int,
)
    requires
        is_eligible(batch),
        0 <= i < j < batch.len(),
        0 <= k < batch[i].prerequisites@.len(),
    ensures
        batch[i].ingress.0 < batch[j].ingress.0,
        batch[i].session == batch[j].session,
        !(batch[i].prerequisites@[k] is Fence),
{
    assert(!other_generation(batch, i) && !other_generation(batch, j));
    assert(!waits_for_fence(batch, i));
}

/// The edges kept for a batch are one for each wait, to the producer that
/// arrived first: every wait of the list is kept, and what is kept of it is no
/// later than any of its producers.
pub proof fn the_earliest_producer_is_kept(edges: Seq<WaitEdge>, i: int) -> (k: int)
    requires
        0 <= i < edges.len(),
    ensures
        ({
            let kept = earliest(edges);
            &&& 0 <= k < kept.len()
            &&& kept[k].0 == edges[i].0 && kept[k].1 == edges[i].1
            &&& kept[k].2.0 <= edges[i].2.0
        }),
    decreases edges.len(),
{
    let rest = edges.drop_last();
    let before = earliest(rest);
    let last = edges.last();
    let kept = earliest(edges);
    if i < rest.len() {
        let k = the_earliest_producer_is_kept(rest, i);
        if !listed(before, last) {
            assert(kept[k] == before[k]);
        }
        k
    } else if listed(before, last) {
        let k = choose|k: int| 0 <= k < before.len() && one_wait(#[trigger] before[k], last);
        assert(kept[k].2 == earlier(before[k].2, last.2));
        k
    } else {
        before.len() as int
    }
}

/// What is kept is one of the edges.
pub proof fn a_kept_producer_is_one_of_them(edges: Seq<WaitEdge>, k: int) -> (i: int)
    requires
        0 <= k < earliest(edges).len(),
    ensures
        0 <= i < edges.len(),
        edges[i] == earliest(edges)[k],
    decreases edges.len(),
{
    let rest = edges.drop_last();
    let before = earliest(rest);
    let last = edges.last();
    let kept = earliest(edges);
    if k < before.len() {
        let i = a_kept_producer_is_one_of_them(rest, k);
        if kept[k] == before[k] {
            assert(rest[i] == edges[i]);
            i
        } else {
            assert(one_wait(before[k], last));
            assert(kept[k] == last);
            edges.len() - 1
        }
    } else {
        edges.len() - 1
    }
}

/// A batch that is turned away is not eligible, and the reason given holds of
/// the transactions it names.
pub proof fn a_reason_given_holds(batch: Seq<ExecTransaction>, why: Ineligible)
    requires
        fails_by(batch, why),
    ensures
        !is_eligible(batch),
        why matches Ineligible::OutOfIngressOrder { at, after } ==> at.0 <= after.0,
        why matches Ineligible::ForwardExplicitWait { waiter, producer, .. } ==> producer.0
            >= waiter.0,
        why matches Ineligible::MixedGeneration { expected, found } ==> expected != found
            && batch[0].session == expected,
        why matches Ineligible::FencePrerequisite { waiter } ==> exists|k: int|
            0 <= k < batch.len() && (#[trigger] batch[k]).ingress == waiter && has_fence(
                batch[k].prerequisites@,
            ),
        !(why is OutOfIngressOrder) ==> in_ingress_order(batch),
{
    match why {
        Ineligible::OutOfIngressOrder { at, after } => {
            let k = choose|k: int| {
                &&& #[trigger] steps_back(batch, k)
                &&& at == batch[k].ingress
                &&& after == batch[k - 1].ingress
                &&& forall|j: int| #[trigger] steps_back(batch, j) ==> k <= j
            };
            let before = batch[k - 1];
            assert(before.ingress.0 >= batch[k].ingress.0);
        },
        Ineligible::ForwardExplicitWait { waiter, point, producer } => {
            let k = choose|k: int| {
                &&& #[trigger] is_forward(batch_producers(batch), k)
                &&& batch_producers(batch)[k] == (waiter, point, producer)
                &&& forall|j: int| #[trigger] is_forward(batch_producers(batch), j) ==> k <= j
            };
            assert(is_forward(batch_producers(batch), k));
        },
        Ineligible::FencePrerequisite { waiter } => {
            let k = choose|k: int| {
                &&& #[trigger] waits_for_fence(batch, k)
                &&& waiter == batch[k].ingress
                &&& forall|j: int| #[trigger] waits_for_fence(batch, j) ==> k <= j
            };
            assert(waits_for_fence(batch, k));
            assert(batch[k].ingress == waiter);
        },
        Ineligible::UnorderedVersionRace { backing, first, second } => {
            let all = claims(batch, batch.len() as int);
            let (a, b) = choose|a: int, b: int| {
                &&& #[trigger] first_race(batch, a, b)
                &&& backing == all[a].version.backing
                &&& first == batch[all[a].by as int].ingress
                &&& second == batch[all[b].by as int].ingress
            };
            assert(races(batch, all, a, b));
        },
        Ineligible::MixedGeneration { expected, found } => {
            let k = choose|k: int| {
                &&& #[trigger] other_generation(batch, k)
                &&& expected == batch[0].session
                &&& found == batch[k].session
                &&& forall|j: int| #[trigger] other_generation(batch, j) ==> k <= j
            };
            assert(other_generation(batch, k));
        },
        Ineligible::UnansweredWait { .. } => {},
    }
}

} // verus!
