//! The hazard half of ordering: which earlier transactions a newly admitted one
//! must wait for because the two touch the same memory.
//!
//! Every edge points from a newer arrival ordinal to an older one, so arrival
//! order is a topological order for hazards.

use vstd::prelude::*;
use crate::access::{requires_edge, AccessIntent, AccessKey, AccessMode, BackingId};
use crate::identity::{ChannelId, IngressOrdinal};
use crate::ordinal_set::OrdinalSet;
use crate::table::{Table, TableKey};

verus! {

/// One access, the transaction that declared it, and whether that transaction
/// is still outstanding.
#[derive(Clone, Copy, Debug)]
pub struct AccessRow {
    pub ordinal: IngressOrdinal,
    pub intent: AccessIntent,
    pub live: bool,
}

/// What admitting transactions has cost so far. Each count stops at the top of
/// its word.
#[derive(Clone, Copy, Debug, PartialEq, Eq)]
pub struct Census {
    /// Accesses admitted.
    pub accesses: usize,
    /// Hazard edges created.
    pub edges: usize,
    /// Accesses admitted at each rung of the precision ladder, indexed by
    /// `rung - 1`.
    pub by_rung: [usize; 3],
    /// Comparisons that happened only because one side's participation was
    /// unknown.
    pub domain_only_comparisons: usize,
    /// Conflicts against an access whose direction was not established.
    pub edges_from_unknown_mode: usize,
}

/// `n` more, stopping at the top of the word.
pub open spec fn plus(count: usize, n: nat) -> usize {
    if count + n > usize::MAX { usize::MAX } else { (count + n) as usize }
}

/// Which rung an access is counted under.
pub open spec fn rung_index(key: AccessKey) -> int {
    match key {
        AccessKey::Range(..) => 0,
        AccessKey::Subresource(..) => 0,
        AccessKey::Whole(_) => 1,
        AccessKey::Heap(_) => 1,
        AccessKey::DomainOnly => 2,
    }
}

/// The access names memory of `backing`.
pub open spec fn names_backing(intent: AccessIntent, backing: BackingId) -> bool {
    intent.key.resource_key() is Some && intent.key.resource_key()->0.backing == backing
}

/// The access names heap `id`, or a resource allocated from it.
pub open spec fn names_heap(intent: AccessIntent, id: u64) -> bool {
    match intent.key {
        AccessKey::Heap(h) => h.id == id,
        key => key.resource_key() is Some && key.resource_key()->0.heap is Some
            && key.resource_key()->0.heap->0.id == id,
    }
}

/// The access is of `domain`.
pub open spec fn of_domain(intent: AccessIntent, domain: ChannelId) -> bool {
    intent.domain == domain
}

/// The access is of `domain` and names nothing else.
pub open spec fn only_of_domain(intent: AccessIntent, domain: ChannelId) -> bool {
    intent.domain == domain && intent.key is DomainOnly
}

/// The indices of the rows whose access satisfies `p`, ascending.
pub open spec fn indices_where(rows: Seq<AccessRow>, p: spec_fn(AccessIntent) -> bool) -> Seq<usize>
    decreases rows.len(),
{
    if rows.len() == 0 {
        Seq::empty()
    } else {
        let rest = indices_where(rows.drop_last(), p);
        if p(rows.last().intent) {
            rest.push((rows.len() - 1) as usize)
        } else {
            rest
        }
    }
}

/// The rows an access is compared with: the domain's unknown accesses, then
/// whatever shares its domain, heap or backing. A row reachable two ways occurs
/// twice.
pub open spec fn candidate_rows(rows: Seq<AccessRow>, intent: AccessIntent) -> Seq<usize> {
    indices_where(rows, |a: AccessIntent| only_of_domain(a, intent.domain)) + match intent.key {
        AccessKey::DomainOnly => indices_where(
            rows,
            |a: AccessIntent| of_domain(a, intent.domain),
        ),
        AccessKey::Heap(h) => indices_where(rows, |a: AccessIntent| names_heap(a, h.id)),
        key => {
            let r = key.resource_key()->0;
            indices_where(rows, |a: AccessIntent| names_backing(a, r.backing)) + match r.heap {
                Some(h) => indices_where(rows, |a: AccessIntent| names_heap(a, h.id)),
                None => Seq::empty(),
            }
        },
    }
}

/// A row is live, belongs to another transaction, and conflicts.
pub open spec fn conflicts(
    rows: Seq<AccessRow>,
    ordinal: IngressOrdinal,
    intent: AccessIntent,
    i: int,
) -> bool {
    rows[i].live && rows[i].ordinal != ordinal && crate::access::edge_required(rows[i].intent, intent)
}

/// A conflict in which one direction is not established.
pub open spec fn unknown_conflict(
    rows: Seq<AccessRow>,
    ordinal: IngressOrdinal,
    intent: AccessIntent,
    i: int,
) -> bool {
    conflicts(rows, ordinal, intent, i) && (rows[i].intent.mode is Unknown
        || intent.mode is Unknown)
}

/// How many of the compared rows are conflicts with an unknown direction.
pub open spec fn unknown_conflicts(
    rows: Seq<AccessRow>,
    ordinal: IngressOrdinal,
    intent: AccessIntent,
    compared: Seq<usize>,
) -> nat
    decreases compared.len(),
{
    if compared.len() == 0 {
        0
    } else {
        unknown_conflicts(rows, ordinal, intent, compared.drop_last()) + (if unknown_conflict(
            rows,
            ordinal,
            intent,
            compared.last() as int,
        ) {
            1nat
        } else {
            0nat
        })
    }
}

/// How many comparisons an access costs because of unknown participation.
pub open spec fn unknown_comparisons(rows: Seq<AccessRow>, intent: AccessIntent) -> nat {
    indices_where(rows, |a: AccessIntent| only_of_domain(a, intent.domain)).len() + (
    if intent.key is DomainOnly {
        indices_where(rows, |a: AccessIntent| of_domain(a, intent.domain)).len()
    } else {
        0
    })
}

/// The rows once a transaction's accesses stand behind them.
pub open spec fn rows_with(
    rows: Seq<AccessRow>,
    ordinal: IngressOrdinal,
    accesses: Seq<AccessIntent>,
) -> Seq<AccessRow> {
    rows + accesses.map_values(|a: AccessIntent| AccessRow { ordinal, intent: a, live: true })
}

/// Comparisons that admitting these accesses costs because of unknown
/// participation.
pub open spec fn admission_comparisons(
    rows: Seq<AccessRow>,
    ordinal: IngressOrdinal,
    accesses: Seq<AccessIntent>,
) -> nat
    decreases accesses.len(),
{
    if accesses.len() == 0 {
        0
    } else {
        admission_comparisons(rows, ordinal, accesses.drop_last()) + unknown_comparisons(
            rows_with(rows, ordinal, accesses.drop_last()),
            accesses.last(),
        )
    }
}

/// Conflicts with an unknown direction that admitting these accesses finds.
pub open spec fn admission_unknowns(
    rows: Seq<AccessRow>,
    ordinal: IngressOrdinal,
    accesses: Seq<AccessIntent>,
) -> nat
    decreases accesses.len(),
{
    if accesses.len() == 0 {
        0
    } else {
        let before = rows_with(rows, ordinal, accesses.drop_last());
        admission_unknowns(rows, ordinal, accesses.drop_last()) + unknown_conflicts(
            before,
            ordinal,
            accesses.last(),
            candidate_rows(before, accesses.last()),
        )
    }
}

/// How many of the accesses sit on a rung.
pub open spec fn on_rung(accesses: Seq<AccessIntent>, rung: int) -> nat
    decreases accesses.len(),
{
    if accesses.len() == 0 {
        0
    } else {
        on_rung(accesses.drop_last(), rung) + (if rung_index(accesses.last().key) == rung {
            1nat
        } else {
            0nat
        })
    }
}

/// The transaction of `o` is outstanding and one of `accesses` conflicts with
/// one of its.
pub open spec fn must_wait_for(
    rows: Seq<AccessRow>,
    ordinal: IngressOrdinal,
    accesses: Seq<AccessIntent>,
    o: IngressOrdinal,
) -> bool {
    exists|i: int, k: int|
        0 <= i < rows.len() && 0 <= k < accesses.len() && (#[trigger] rows[i]).ordinal == o
            && conflicts(rows, ordinal, #[trigger] accesses[k], i)
}

/// What accepting a transaction's accesses charges the census.
pub open spec fn charged(
    before: Census,
    after: Census,
    rows: Seq<AccessRow>,
    ordinal: IngressOrdinal,
    accesses: Seq<AccessIntent>,
    edges: nat,
) -> bool {
    &&& after.accesses == plus(before.accesses, accesses.len())
    &&& after.edges == plus(before.edges, edges)
    &&& forall|r: int|
        0 <= r < 3 ==> #[trigger] after.by_rung@[r] == plus(before.by_rung@[r], on_rung(accesses, r))
    &&& after.domain_only_comparisons == plus(
        before.domain_only_comparisons,
        admission_comparisons(rows, ordinal, accesses),
    )
    &&& after.edges_from_unknown_mode == plus(
        before.edges_from_unknown_mode,
        admission_unknowns(rows, ordinal, accesses),
    )
}

/// The rows once a transaction no longer orders anything.
pub open spec fn retired(rows: Seq<AccessRow>, ordinal: IngressOrdinal) -> Seq<AccessRow> {
    rows.map_values(
        |r: AccessRow| if r.ordinal == ordinal { AccessRow { live: false, ..r } } else { r },
    )
}

/// Arrival order among the rows.
pub open spec fn in_arrival_order(rows: Seq<AccessRow>) -> bool {
    forall|i: int, j: int|
        0 <= i <= j < rows.len() ==> (#[trigger] rows[i]).ordinal.0 <= (#[trigger] rows[j]).ordinal.0
}

/// The rows of every outstanding transaction.
pub open spec fn live_rows(rows: Seq<AccessRow>) -> Seq<AccessRow> {
    rows.filter(|r: AccessRow| r.live)
}

/// A live row is one of the rows.
pub proof fn lemma_live_row(rows: Seq<AccessRow>, i: int)
    requires
        0 <= i < live_rows(rows).len(),
    ensures
        rows.contains(live_rows(rows)[i]),
    decreases rows.len(),
{
    reveal(Seq::filter);
    if rows.len() > 0 {
        let init = rows.drop_last();
        if i < live_rows(init).len() {
            lemma_live_row(init, i);
            let k = choose|k: int| 0 <= k < init.len() && init[k] == live_rows(init)[i];
            assert(rows[k] == init[k]);
        } else {
            assert(rows[rows.len() - 1] == live_rows(rows)[i]);
        }
    }
}

impl TableKey for u64 {
    fn same(&self, other: &Self) -> (equal: bool) {
        *self == *other
    }
}

impl TableKey for ChannelId {
    fn same(&self, other: &Self) -> (equal: bool) {
        self.0 == other.0
    }
}

/// What an index holds under a key.
spec fn filed<K>(index: Map<K, Vec<usize>>, key: K) -> Seq<usize> {
    if index.dom().contains(key) {
        index[key]@
    } else {
        Seq::empty()
    }
}

/// File a row under a key.
fn file<K: TableKey>(index: &mut Table<K, Vec<usize>>, key: K, row: usize)
    requires
        old(index).wf(),
    ensures
        final(index).wf(),
        filed(final(index)@, key) == filed(old(index)@, key).push(row),
        forall|k: K| k != key ==> filed(final(index)@, k) == #[trigger] filed(old(index)@, k),
{
    match index.find(key) {
        Some(i) => {
            let rows = index.value_mut(i);
            rows.push(row);
        },
        None => {
            let mut rows: Vec<usize> = Vec::new();
            rows.push(row);
            assert(rows@ =~= Seq::<usize>::empty().push(row));
            index.insert(key, rows);
        },
    }
}

/// Append what an index holds under a key.
fn extend_from<K: TableKey>(out: &mut Vec<usize>, index: &Table<K, Vec<usize>>, key: K) -> (n: usize)
    requires
        index.wf(),
    ensures
        final(out)@ == old(out)@ + filed(index@, key),
        n == filed(index@, key).len(),
{
    match index.get(key) {
        Some(rows) => {
            let mut i: usize = 0;
            while i < rows.len()
                invariant
                    i <= rows@.len(),
                    out@ == old(out)@ + rows@.take(i as int),
                decreases rows.len() - i,
            {
                out.push(rows[i]);
                assert(rows@.take(i + 1) =~= rows@.take(i as int).push(rows@[i as int]));
                i = i + 1;
            }
            assert(rows@.take(i as int) =~= rows@);
            rows.len()
        },
        None => {
            assert(out@ =~= old(out)@ + Seq::<usize>::empty());
            0
        },
    }
}

/// The live hazard state.
///
/// Nothing here evicts on its own: an eviction would drop an edge a later
/// transaction was owed. Retiring is the caller's obligation.
#[derive(Debug)]
pub struct DependencyGraph {
    entries: Vec<AccessRow>,
    by_backing: Table<BackingId, Vec<usize>>,
    by_heap: Table<u64, Vec<usize>>,
    by_domain: Table<ChannelId, Vec<usize>>,
    domain_only: Table<ChannelId, Vec<usize>>,
    newest: Option<IngressOrdinal>,
    census: Census,
}

impl DependencyGraph {
    /// Every access admitted and not compacted away, in arrival order.
    pub closed spec fn rows(&self) -> Seq<AccessRow> {
        self.entries@
    }

    pub closed spec fn counts(&self) -> Census {
        self.census
    }

    /// The last transaction admitted, whatever it declared.
    pub closed spec fn newest(&self) -> Option<IngressOrdinal> {
        self.newest
    }

    /// The indexes hold exactly the rows they are keyed by.
    closed spec fn indexed(&self) -> bool {
        &&& self.by_backing.wf()
        &&& self.by_heap.wf()
        &&& self.by_domain.wf()
        &&& self.domain_only.wf()
        &&& forall|b: BackingId| #[trigger]
            filed(self.by_backing@, b) == indices_where(
                self.entries@,
                |a: AccessIntent| names_backing(a, b),
            )
        &&& forall|h: u64| #[trigger]
            filed(self.by_heap@, h) == indices_where(
                self.entries@,
                |a: AccessIntent| names_heap(a, h),
            )
        &&& forall|d: ChannelId| #[trigger]
            filed(self.by_domain@, d) == indices_where(
                self.entries@,
                |a: AccessIntent| of_domain(a, d),
            )
        &&& forall|d: ChannelId| #[trigger]
            filed(self.domain_only@, d) == indices_where(
                self.entries@,
                |a: AccessIntent| only_of_domain(a, d),
            )
    }

    /// The rows and their indexes hold together.
    closed spec fn rows_wf(&self) -> bool {
        in_arrival_order(self.entries@) && self.indexed()
    }

    /// The rows are in arrival order and indexed, and none is of a transaction
    /// after the last one admitted.
    pub closed spec fn wf(&self) -> bool {
        self.rows_wf() && (self.entries@.len() > 0 ==> (self.newest matches Some(newest)
            && self.entries@.last().ordinal.0 <= newest.0))
    }

    #[must_use]
    pub fn new() -> (g: Self)
        ensures
            g.wf(),
            g.rows() == Seq::<AccessRow>::empty(),
            g.newest() is None,
            g.counts().accesses == 0,
            g.counts().edges == 0,
            g.counts().by_rung@ == seq![0usize, 0, 0],
            g.counts().domain_only_comparisons == 0,
            g.counts().edges_from_unknown_mode == 0,
    {
        DependencyGraph {
            entries: Vec::new(),
            by_backing: Table::new(),
            by_heap: Table::new(),
            by_domain: Table::new(),
            domain_only: Table::new(),
            newest: None,
            census: Census {
                accesses: 0,
                edges: 0,
                by_rung: [0, 0, 0],
                domain_only_comparisons: 0,
                edges_from_unknown_mode: 0,
            },
        }
    }

    #[must_use]
    pub fn census(&self) -> (c: Census)
        ensures
            c == self.counts(),
    {
        self.census
    }

    /// How many accesses are live.
    #[must_use]
    pub fn live_accesses(&self) -> (n: usize)
        ensures
            n == live_rows(self.rows()).len(),
    {
        let mut n: usize = 0;
        let mut i: usize = 0;
        while i < self.entries.len()
            invariant
                i <= self.entries@.len(),
                n <= i,
                n == live_rows(self.entries@.take(i as int)).len(),
            decreases self.entries.len() - i,
        {
            proof {
                lemma_live_step(self.entries@, i as int);
            }
            if self.entries[i].live {
                n = n + 1;
            }
            i = i + 1;
        }
        assert(self.entries@.take(i as int) =~= self.entries@);
        n
    }

    /// Admit one transaction's accesses and return the ordinals it must wait
    /// for, ascending and each once.
    ///
    /// Transactions are admitted in arrival order, one that declares nothing
    /// among them. Two accesses of one
    /// transaction meeting one earlier transaction are one edge, and a
    /// transaction never waits for itself.
    #[verifier::rlimit(40)]
    #[verifier::spinoff_prover]
    pub fn accept(
        &mut self,
        ordinal: IngressOrdinal,
        accesses: &[AccessIntent],
    ) -> (waits: Vec<IngressOrdinal>)
        requires
            old(self).wf(),
            old(self).newest() matches Some(newest) ==> ordinal.0 > newest.0,
        ensures
            final(self).wf(),
            final(self).newest() == Some(ordinal),
            final(self).rows() == rows_with(old(self).rows(), ordinal, accesses@),
            crate::ordinal_set::ascending(waits@),
            forall|o: IngressOrdinal| #[trigger]
                waits@.contains(o) == must_wait_for(old(self).rows(), ordinal, accesses@, o),
            forall|o: IngressOrdinal| #[trigger] waits@.contains(o) ==> o.0 < ordinal.0,
            charged(
                old(self).counts(),
                final(self).counts(),
                old(self).rows(),
                ordinal,
                accesses@,
                waits@.len(),
            ),
    {
        let ghost rows = self.entries@;
        let ghost counts = self.census;
        self.newest = Some(ordinal);
        let mut waits = OrdinalSet::new();
        let mut k: usize = 0;
        assert(rows_with(rows, ordinal, accesses@.take(0)) =~= rows);
        while k < accesses.len()
            invariant
                self.rows_wf(),
                self.newest == Some(ordinal),
                k <= accesses@.len(),
                rows == old(self).rows(),
                in_arrival_order(rows),
                rows.len() > 0 ==> ordinal.0 > rows.last().ordinal.0,
                self.entries@ == rows_with(rows, ordinal, accesses@.take(k as int)),
                waits.wf(),
                forall|o: IngressOrdinal| #[trigger]
                    waits@.contains(o) == must_wait_for(rows, ordinal, accesses@.take(k as int), o),
                self.census.accesses == plus(counts.accesses, k as nat),
                self.census.edges == plus(counts.edges, waits@.len()),
                forall|r: int|
                    0 <= r < 3 ==> #[trigger] self.census.by_rung@[r] == plus(
                        counts.by_rung@[r],
                        on_rung(accesses@.take(k as int), r),
                    ),
                self.census.domain_only_comparisons == plus(
                    counts.domain_only_comparisons,
                    admission_comparisons(rows, ordinal, accesses@.take(k as int)),
                ),
                self.census.edges_from_unknown_mode == plus(
                    counts.edges_from_unknown_mode,
                    admission_unknowns(rows, ordinal, accesses@.take(k as int)),
                ),
            decreases accesses.len() - k,
        {
            let intent = accesses[k];
            let ghost seen = accesses@.take(k as int);
            let ghost here = self.entries@;
            let ghost unknowns = admission_unknowns(rows, ordinal, seen);
            proof {
                assert(accesses@.take(k + 1).drop_last() =~= seen);
                assert(accesses@.take(k + 1).last() == intent);
            }
            let candidates = self.candidates(&intent);
            let ghost edges_before = self.census.edges;
            let mut c: usize = 0;
            assert(candidates@.take(0) =~= Seq::<usize>::empty());
            while c < candidates.len()
                invariant
                    self.rows_wf(),
                    self.newest == Some(ordinal),
                    c <= candidates@.len(),
                    self.entries@ == here,
                    candidates@ == candidate_rows(here, intent),
                    here == rows_with(rows, ordinal, seen),
                    forall|j: int| 0 <= j < candidates@.len() ==> #[trigger] candidates@[j] < here.len(),
                    waits.wf(),
                    forall|o: IngressOrdinal| #[trigger]
                        waits@.contains(o) == (must_wait_for(rows, ordinal, seen, o)
                            || compared_conflict(here, ordinal, intent, candidates@.take(c as int), o)),
                    self.census.accesses == plus(counts.accesses, k as nat),
                    self.census.edges == plus(counts.edges, waits@.len()),
                    forall|r: int|
                        0 <= r < 3 ==> #[trigger] self.census.by_rung@[r] == plus(
                            counts.by_rung@[r],
                            on_rung(seen, r),
                        ),
                    self.census.domain_only_comparisons == plus(
                        counts.domain_only_comparisons,
                        admission_comparisons(rows, ordinal, accesses@.take(k + 1)),
                    ),
                    self.census.edges_from_unknown_mode == plus(
                        counts.edges_from_unknown_mode,
                        unknowns + unknown_conflicts(
                            here,
                            ordinal,
                            intent,
                            candidates@.take(c as int),
                        ),
                    ),
                decreases candidates.len() - c,
            {
                let at = candidates[c];
                let row = self.entries[at];
                let ghost waited = waits@;
                proof {
                    assert(candidates@.take(c + 1).drop_last() =~= candidates@.take(c as int));
                    assert(candidates@.take(c + 1).last() == at);
                    assert forall|o: IngressOrdinal|
                        #[trigger] compared_conflict(here, ordinal, intent, candidates@.take(c + 1), o) == (
                        compared_conflict(here, ordinal, intent, candidates@.take(c as int), o) || (
                        row.ordinal == o && conflicts(here, ordinal, intent, at as int))) by {
                        lemma_compared_step(here, ordinal, intent, candidates@, c as int, o);
                    }
                }
                if row.live && row.ordinal.0 != ordinal.0 {
                    if requires_edge(&row.intent, &intent) {
                        if waits.insert(row.ordinal) {
                            self.census.edges = self.census.edges.saturating_add(1);
                        }
                        let unknown = match row.intent.mode {
                            AccessMode::Unknown => true,
                            _ => match intent.mode {
                                AccessMode::Unknown => true,
                                _ => false,
                            },
                        };
                        if unknown {
                            self.census.edges_from_unknown_mode =
                            self.census.edges_from_unknown_mode.saturating_add(1);
                        }
                    }
                }
                c = c + 1;
            }
            proof {
                assert(candidates@.take(c as int) =~= candidates@);
                assert(here.len() == self.entries.len());
                assert forall|o: IngressOrdinal| #[trigger]
                    waits@.contains(o) == must_wait_for(rows, ordinal, accesses@.take(k + 1), o) by {
                    lemma_wait_step(rows, ordinal, accesses@, k as int, o);
                }
            }
            self.insert(ordinal, intent);
            k = k + 1;
            assert(rows_with(rows, ordinal, seen).push(
                AccessRow { ordinal, intent, live: true },
            ) =~= rows_with(rows, ordinal, accesses@.take(k as int)));
        }
        assert(accesses@.take(k as int) =~= accesses@);
        assert forall|o: IngressOrdinal| #[trigger] waits@.contains(o) implies o.0 < ordinal.0 by {
            assert(must_wait_for(rows, ordinal, accesses@, o));
            let (i, j) = choose|i: int, j: int|
                0 <= i < rows.len() && 0 <= j < accesses@.len() && (#[trigger] rows[i]).ordinal == o
                    && conflicts(rows, ordinal, #[trigger] accesses@[j], i);
            assert(rows[i].ordinal.0 <= rows[rows.len() - 1].ordinal.0);
        }
        waits.into_vec()
    }

    /// The rows an access could possibly conflict with.
    fn candidates(&mut self, intent: &AccessIntent) -> (out: Vec<usize>)
        requires
            old(self).rows_wf(),
        ensures
            final(self).rows_wf(),
            final(self).entries@ == old(self).entries@,
            final(self).newest == old(self).newest,
            out@ == candidate_rows(old(self).entries@, *intent),
            forall|j: int| 0 <= j < out@.len() ==> #[trigger] out@[j] < old(self).entries@.len(),
            final(self).census == (Census {
                domain_only_comparisons: plus(
                    old(self).census.domain_only_comparisons,
                    unknown_comparisons(old(self).entries@, *intent),
                ),
                ..old(self).census
            }),
    {
        let ghost rows = self.entries@;
        let mut out: Vec<usize> = Vec::new();
        // Every access meets the domain's unknown accesses.
        let unknown = extend_from(&mut out, &self.domain_only, intent.domain);
        let mut charged: usize = self.census.domain_only_comparisons.saturating_add(unknown);
        match intent.key {
            AccessKey::DomainOnly => {
                // And an unknown access meets everything in its domain.
                let all = extend_from(&mut out, &self.by_domain, intent.domain);
                charged = charged.saturating_add(all);
            },
            AccessKey::Heap(h) => {
                let _ = extend_from(&mut out, &self.by_heap, h.id);
            },
            AccessKey::Range(r, _) | AccessKey::Subresource(r, _) | AccessKey::Whole(r) => {
                let _ = extend_from(&mut out, &self.by_backing, r.backing);
                match r.heap {
                    Some(h) => {
                        let _ = extend_from(&mut out, &self.by_heap, h.id);
                    },
                    None => {},
                }
            },
        }
        self.census.domain_only_comparisons = charged;
        proof {
            assert(out@ =~= candidate_rows(rows, *intent));
            assert forall|j: int| 0 <= j < out@.len() implies #[trigger] out@[j] < rows.len() by {
                lemma_candidate_bound(rows, *intent, j);
            }
        }
        out
    }

    /// Stand one access behind the rest.
    fn insert(&mut self, ordinal: IngressOrdinal, intent: AccessIntent)
        requires
            old(self).rows_wf(),
            old(self).entries@.len() > 0 ==> ordinal.0 >= old(self).entries@.last().ordinal.0,
        ensures
            final(self).rows_wf(),
            final(self).entries@ == old(self).entries@.push(
                AccessRow { ordinal, intent, live: true },
            ),
            final(self).newest == old(self).newest,
            final(self).census.accesses == plus(old(self).census.accesses, 1),
            final(self).census.edges == old(self).census.edges,
            final(self).census.domain_only_comparisons == old(self).census.domain_only_comparisons,
            final(self).census.edges_from_unknown_mode == old(self).census.edges_from_unknown_mode,
            forall|r: int|
                0 <= r < 3 ==> #[trigger] final(self).census.by_rung@[r] == plus(
                    old(self).census.by_rung@[r],
                    if rung_index(intent.key) == r { 1 } else { 0 },
                ),
    {
        let at = self.entries.len();
        let ghost rows = self.entries@;
        self.entries.push(AccessRow { ordinal, intent, live: true });
        self.census.accesses = self.census.accesses.saturating_add(1);
        let rung: usize = match intent.key {
            AccessKey::Range(..) => 0,
            AccessKey::Subresource(..) => 0,
            AccessKey::Whole(_) => 1,
            AccessKey::Heap(_) => 1,
            AccessKey::DomainOnly => 2,
        };
        self.census.by_rung[rung] = self.census.by_rung[rung].saturating_add(1);
        file(&mut self.by_domain, intent.domain, at);
        match intent.key {
            AccessKey::DomainOnly => file(&mut self.domain_only, intent.domain, at),
            AccessKey::Heap(h) => file(&mut self.by_heap, h.id, at),
            AccessKey::Range(r, _) | AccessKey::Subresource(r, _) | AccessKey::Whole(r) => {
                file(&mut self.by_backing, r.backing, at);
                // Also under its heap: a heap declaration never names members.
                match r.heap {
                    Some(h) => file(&mut self.by_heap, h.id, at),
                    None => {},
                }
            },
        }
        proof {
            assert(self.entries@.drop_last() =~= rows);
            assert(self.indexed()) by {
                assert forall|b: BackingId| #[trigger]
                    filed(self.by_backing@, b) == indices_where(
                        self.entries@,
                        |a: AccessIntent| names_backing(a, b),
                    ) by {
                    assert(filed(old(self).by_backing@, b) == indices_where(
                        rows,
                        |a: AccessIntent| names_backing(a, b),
                    ));
                }
                assert forall|h: u64| #[trigger]
                    filed(self.by_heap@, h) == indices_where(
                        self.entries@,
                        |a: AccessIntent| names_heap(a, h),
                    ) by {
                    assert(filed(old(self).by_heap@, h) == indices_where(
                        rows,
                        |a: AccessIntent| names_heap(a, h),
                    ));
                }
                assert forall|d: ChannelId| #[trigger]
                    filed(self.by_domain@, d) == indices_where(
                        self.entries@,
                        |a: AccessIntent| of_domain(a, d),
                    ) by {
                    assert(filed(old(self).by_domain@, d) == indices_where(
                        rows,
                        |a: AccessIntent| of_domain(a, d),
                    ));
                }
                assert forall|d: ChannelId| #[trigger]
                    filed(self.domain_only@, d) == indices_where(
                        self.entries@,
                        |a: AccessIntent| only_of_domain(a, d),
                    ) by {
                    assert(filed(old(self).domain_only@, d) == indices_where(
                        rows,
                        |a: AccessIntent| only_of_domain(a, d),
                    ));
                }
            }
        }
    }

    /// Mark one transaction's accesses as no longer live.
    ///
    /// An access stops creating edges when the work that declared it has
    /// finished, and no earlier.
    pub fn retire(&mut self, ordinal: IngressOrdinal)
        requires
            old(self).wf(),
        ensures
            final(self).wf(),
            final(self).counts() == old(self).counts(),
            final(self).newest() == old(self).newest(),
            final(self).rows() == retired(old(self).rows(), ordinal),
    {
        let ghost rows = self.entries@;
        let ghost retired = |r: AccessRow|
            if r.ordinal == ordinal { AccessRow { live: false, ..r } } else { r };
        let mut i: usize = 0;
        while i < self.entries.len()
            invariant
                self.rows_wf(),
                self.census == old(self).census,
                self.newest == old(self).newest,
                rows == old(self).entries@,
                i <= rows.len(),
                self.entries@.len() == rows.len(),
                retired == (|r: AccessRow|
                    if r.ordinal == ordinal { AccessRow { live: false, ..r } } else { r }),
                forall|j: int| 0 <= j < i ==> #[trigger] self.entries@[j] == retired(rows[j]),
                forall|j: int| i <= j < rows.len() ==> #[trigger] self.entries@[j] == rows[j],
            decreases self.entries.len() - i,
        {
            let row = self.entries[i];
            if row.ordinal.0 == ordinal.0 {
                let ghost before = self.entries@;
                self.entries.set(i, AccessRow { live: false, ..row });
                proof {
                    lemma_index_ignores_liveness(before, self.entries@);
                }
            }
            i = i + 1;
        }
        assert(self.entries@ =~= rows.map_values(retired));
    }

    /// Drop retired rows and rebuild the indexes.
    ///
    /// The counts are a running total and are not rebuilt: nothing was
    /// admitted.
    pub fn compact(&mut self)
        requires
            old(self).wf(),
        ensures
            final(self).wf(),
            final(self).counts() == old(self).counts(),
            final(self).newest() == old(self).newest(),
            final(self).rows() == live_rows(old(self).rows()),
    {
        let mut next = DependencyGraph::new();
        let ghost rows = self.entries@;
        let mut i: usize = 0;
        assert(live_rows(rows.take(0)) =~= Seq::<AccessRow>::empty());
        while i < self.entries.len()
            invariant
                *self == *old(self),
                self.wf(),
                rows == self.entries@,
                i <= rows.len(),
                next.rows_wf(),
                next.entries@ == live_rows(rows.take(i as int)),
                next.entries@.len() > 0 ==> i > 0 && next.entries@.last().ordinal.0
                    <= rows[i - 1].ordinal.0,
            decreases self.entries.len() - i,
        {
            let row = self.entries[i];
            proof {
                lemma_live_step(rows, i as int);
                if i > 0 {
                    assert(rows[i - 1].ordinal.0 <= rows[i as int].ordinal.0);
                }
            }
            if row.live {
                next.insert(row.ordinal, row.intent);
            }
            i = i + 1;
        }
        assert(rows.take(i as int) =~= rows);
        next.census = self.census;
        next.newest = self.newest;
        *self = next;
    }
}

/// A transaction never waits for itself.
pub proof fn no_transaction_waits_for_itself(
    rows: Seq<AccessRow>,
    ordinal: IngressOrdinal,
    accesses: Seq<AccessIntent>,
)
    ensures
        !must_wait_for(rows, ordinal, accesses, ordinal),
{
}

/// Compaction changes no answer: what a transaction waits for is the same with
/// the retired rows gone.
pub proof fn compaction_keeps_every_answer(
    rows: Seq<AccessRow>,
    ordinal: IngressOrdinal,
    accesses: Seq<AccessIntent>,
    o: IngressOrdinal,
)
    ensures
        must_wait_for(live_rows(rows), ordinal, accesses, o) == must_wait_for(
            rows,
            ordinal,
            accesses,
            o,
        ),
{
    let live = live_rows(rows);
    lemma_live_members(rows);
    if must_wait_for(live, ordinal, accesses, o) {
        let (i, k) = choose|i: int, k: int|
            0 <= i < live.len() && 0 <= k < accesses.len() && (#[trigger] live[i]).ordinal == o
                && conflicts(live, ordinal, #[trigger] accesses[k], i);
        assert(rows.contains(live[i]));
        let j = choose|j: int| 0 <= j < rows.len() && rows[j] == live[i];
        assert(conflicts(rows, ordinal, accesses[k], j));
    }
    if must_wait_for(rows, ordinal, accesses, o) {
        let (i, k) = choose|i: int, k: int|
            0 <= i < rows.len() && 0 <= k < accesses.len() && (#[trigger] rows[i]).ordinal == o
                && conflicts(rows, ordinal, #[trigger] accesses[k], i);
        assert(live.contains(rows[i]));
        let j = choose|j: int| 0 <= j < live.len() && live[j] == rows[i];
        assert(conflicts(live, ordinal, accesses[k], j));
    }
}

/// A retired transaction creates no edge, and retiring it changes no other
/// edge.
pub proof fn retirement_ends_exactly_its_own_edges(
    rows: Seq<AccessRow>,
    gone: IngressOrdinal,
    ordinal: IngressOrdinal,
    accesses: Seq<AccessIntent>,
    o: IngressOrdinal,
)
    ensures
        must_wait_for(retired(rows, gone), ordinal, accesses, o) == (o != gone && must_wait_for(
            rows,
            ordinal,
            accesses,
            o,
        )),
{
    let after = retired(rows, gone);
    if must_wait_for(after, ordinal, accesses, o) {
        let (i, k) = choose|i: int, k: int|
            0 <= i < after.len() && 0 <= k < accesses.len() && (#[trigger] after[i]).ordinal == o
                && conflicts(after, ordinal, #[trigger] accesses[k], i);
        assert(after[i] == rows[i]);
        assert(conflicts(rows, ordinal, accesses[k], i));
    }
    if o != gone && must_wait_for(rows, ordinal, accesses, o) {
        let (i, k) = choose|i: int, k: int|
            0 <= i < rows.len() && 0 <= k < accesses.len() && (#[trigger] rows[i]).ordinal == o
                && conflicts(rows, ordinal, #[trigger] accesses[k], i);
        assert(after[i] == rows[i]);
        assert(conflicts(after, ordinal, accesses[k], i));
    }
}

/// Work on separate submission domains is never ordered by what it touches.
pub proof fn separate_domains_have_no_hazard_edge(
    rows: Seq<AccessRow>,
    ordinal: IngressOrdinal,
    accesses: Seq<AccessIntent>,
    o: IngressOrdinal,
)
    requires
        forall|i: int, k: int|
            0 <= i < rows.len() && 0 <= k < accesses.len() && (#[trigger] rows[i]).ordinal == o
                ==> rows[i].intent.domain != (#[trigger] accesses[k]).domain,
    ensures
        !must_wait_for(rows, ordinal, accesses, o),
{
}

/// One of the compared rows is a conflict with the transaction of `o`.
spec fn compared_conflict(
    rows: Seq<AccessRow>,
    ordinal: IngressOrdinal,
    intent: AccessIntent,
    compared: Seq<usize>,
    o: IngressOrdinal,
) -> bool {
    exists|c: int|
        0 <= c < compared.len() && rows[#[trigger] compared[c] as int].ordinal == o && conflicts(
            rows,
            ordinal,
            intent,
            compared[c] as int,
        )
}

proof fn lemma_compared_step(
    rows: Seq<AccessRow>,
    ordinal: IngressOrdinal,
    intent: AccessIntent,
    compared: Seq<usize>,
    c: int,
    o: IngressOrdinal,
)
    requires
        0 <= c < compared.len(),
    ensures
        compared_conflict(rows, ordinal, intent, compared.take(c + 1), o) == (compared_conflict(
            rows,
            ordinal,
            intent,
            compared.take(c),
            o,
        ) || (rows[compared[c] as int].ordinal == o && conflicts(
            rows,
            ordinal,
            intent,
            compared[c] as int,
        ))),
{
    let before = compared.take(c);
    let after = compared.take(c + 1);
    if compared_conflict(rows, ordinal, intent, before, o) {
        let j = choose|j: int|
            0 <= j < before.len() && rows[#[trigger] before[j] as int].ordinal == o && conflicts(
                rows,
                ordinal,
                intent,
                before[j] as int,
            );
        assert(after[j] == before[j]);
    }
    assert(after[c] == compared[c]);
    if compared_conflict(rows, ordinal, intent, after, o) {
        let j = choose|j: int|
            0 <= j < after.len() && rows[#[trigger] after[j] as int].ordinal == o && conflicts(
                rows,
                ordinal,
                intent,
                after[j] as int,
            );
        if j < c {
            assert(before[j] == after[j]);
        }
    }
}

/// Comparing one more access with its candidates finds exactly the
/// transactions it must wait for.
proof fn lemma_wait_step(
    rows: Seq<AccessRow>,
    ordinal: IngressOrdinal,
    accesses: Seq<AccessIntent>,
    k: int,
    o: IngressOrdinal,
)
    requires
        0 <= k < accesses.len(),
        rows.len() + k <= usize::MAX,
    ensures
        must_wait_for(rows, ordinal, accesses.take(k + 1), o) == (must_wait_for(
            rows,
            ordinal,
            accesses.take(k),
            o,
        ) || ({
            let here = rows_with(rows, ordinal, accesses.take(k));
            compared_conflict(
                here,
                ordinal,
                accesses[k],
                candidate_rows(here, accesses[k]),
                o,
            )
        })),
{
    let seen = accesses.take(k);
    let next = accesses.take(k + 1);
    let intent = accesses[k];
    let here = rows_with(rows, ordinal, seen);
    let compared = candidate_rows(here, intent);
    assert(next[k] == intent);
    if must_wait_for(rows, ordinal, seen, o) {
        let (i, j) = choose|i: int, j: int|
            0 <= i < rows.len() && 0 <= j < seen.len() && (#[trigger] rows[i]).ordinal == o
                && conflicts(rows, ordinal, #[trigger] seen[j], i);
        assert(next[j] == seen[j]);
        assert(conflicts(rows, ordinal, next[j], i));
    }
    if compared_conflict(here, ordinal, intent, compared, o) {
        let c = choose|c: int|
            0 <= c < compared.len() && here[#[trigger] compared[c] as int].ordinal == o
                && conflicts(here, ordinal, intent, compared[c] as int);
        lemma_candidate_bound(here, intent, c);
        let i = compared[c] as int;
        // A row of this transaction is never a conflict with it.
        assert(i < rows.len()) by {
            if i >= rows.len() {
                assert(here[i].ordinal == ordinal);
            }
        }
        assert(here[i] == rows[i]);
        assert(conflicts(rows, ordinal, next[k], i));
    }
    if must_wait_for(rows, ordinal, next, o) {
        let (i, j) = choose|i: int, j: int|
            0 <= i < rows.len() && 0 <= j < next.len() && (#[trigger] rows[i]).ordinal == o
                && conflicts(rows, ordinal, #[trigger] next[j], i);
        if j < k {
            assert(seen[j] == next[j]);
            assert(conflicts(rows, ordinal, seen[j], i));
        } else {
            assert(here[i] == rows[i]);
            lemma_conflict_is_candidate(here, intent, i);
            let c = choose|c: int| 0 <= c < compared.len() && compared[c] == i;
            assert(compared[c] as int == i);
        }
    }
}

proof fn lemma_indices(rows: Seq<AccessRow>, p: spec_fn(AccessIntent) -> bool)
    requires
        rows.len() <= usize::MAX,
    ensures
        forall|c: int|
            0 <= c < indices_where(rows, p).len() ==> #[trigger] indices_where(rows, p)[c]
                < rows.len(),
        forall|i: int|
            0 <= i < rows.len() && p((#[trigger] rows[i]).intent) ==> exists|c: int|
                0 <= c < indices_where(rows, p).len() && indices_where(rows, p)[c] == i,
    decreases rows.len(),
{
    if rows.len() > 0 {
        let init = rows.drop_last();
        lemma_indices(init, p);
        let rest = indices_where(init, p);
        let all = indices_where(rows, p);
        assert forall|c: int| 0 <= c < all.len() implies #[trigger] all[c] < rows.len() by {
            if c < rest.len() {
                assert(all[c] == rest[c]);
            }
        }
        assert forall|i: int| 0 <= i < rows.len() && p((#[trigger] rows[i]).intent) implies exists|
            c: int,
        | 0 <= c < all.len() && all[c] == i by {
            if i < init.len() {
                assert(init[i] == rows[i]);
                let c = choose|c: int| 0 <= c < rest.len() && rest[c] == i;
                assert(all[c] == i);
            } else {
                assert(all[rest.len() as int] == i);
            }
        }
    }
}

proof fn lemma_candidate_bound(rows: Seq<AccessRow>, intent: AccessIntent, j: int)
    requires
        0 <= j < candidate_rows(rows, intent).len(),
    ensures
        candidate_rows(rows, intent)[j] < rows.len(),
{
    lemma_indices_bound(rows, |a: AccessIntent| only_of_domain(a, intent.domain));
    match intent.key {
        AccessKey::DomainOnly => {
            lemma_indices_bound(rows, |a: AccessIntent| of_domain(a, intent.domain));
        },
        AccessKey::Heap(h) => {
            lemma_indices_bound(rows, |a: AccessIntent| names_heap(a, h.id));
        },
        key => {
            let r = key.resource_key()->0;
            lemma_indices_bound(rows, |a: AccessIntent| names_backing(a, r.backing));
            if r.heap is Some {
                let h = r.heap->0;
                lemma_indices_bound(rows, |a: AccessIntent| names_heap(a, h.id));
            }
        },
    }
}

proof fn lemma_indices_bound(rows: Seq<AccessRow>, p: spec_fn(AccessIntent) -> bool)
    ensures
        forall|c: int|
            0 <= c < indices_where(rows, p).len() ==> #[trigger] indices_where(rows, p)[c]
                < rows.len(),
    decreases rows.len(),
{
    if rows.len() > 0 {
        let rest = indices_where(rows.drop_last(), p);
        let all = indices_where(rows, p);
        lemma_indices_bound(rows.drop_last(), p);
        assert forall|c: int| 0 <= c < all.len() implies #[trigger] all[c] < rows.len() by {
            if c < rest.len() {
                assert(all[c] == rest[c]);
            }
        }
    }
}

/// Every row an access conflicts with is among its candidates.
proof fn lemma_conflict_is_candidate(rows: Seq<AccessRow>, intent: AccessIntent, i: int)
    requires
        rows.len() <= usize::MAX,
        0 <= i < rows.len(),
        crate::access::edge_required(rows[i].intent, intent),
    ensures
        exists|c: int|
            0 <= c < candidate_rows(rows, intent).len() && candidate_rows(rows, intent)[c] == i,
{
    let other = rows[i].intent;
    let all = candidate_rows(rows, intent);
    let unknown = indices_where(rows, |a: AccessIntent| only_of_domain(a, intent.domain));
    lemma_indices(rows, |a: AccessIntent| only_of_domain(a, intent.domain));
    if other.key is DomainOnly {
        let c = choose|c: int| 0 <= c < unknown.len() && unknown[c] == i;
        assert(all[c] == i);
    } else {
        match intent.key {
            AccessKey::DomainOnly => {
                let part = indices_where(rows, |a: AccessIntent| of_domain(a, intent.domain));
                lemma_indices(rows, |a: AccessIntent| of_domain(a, intent.domain));
                let c = choose|c: int| 0 <= c < part.len() && part[c] == i;
                assert(all[unknown.len() + c] == i);
            },
            AccessKey::Heap(h) => {
                let part = indices_where(rows, |a: AccessIntent| names_heap(a, h.id));
                lemma_indices(rows, |a: AccessIntent| names_heap(a, h.id));
                assert(names_heap(other, h.id));
                let c = choose|c: int| 0 <= c < part.len() && part[c] == i;
                assert(all[unknown.len() + c] == i);
            },
            key => {
                let r = key.resource_key()->0;
                let part = indices_where(rows, |a: AccessIntent| names_backing(a, r.backing));
                lemma_indices(rows, |a: AccessIntent| names_backing(a, r.backing));
                if other.key is Heap {
                    let h = r.heap->0;
                    let tail = indices_where(rows, |a: AccessIntent| names_heap(a, h.id));
                    lemma_indices(rows, |a: AccessIntent| names_heap(a, h.id));
                    assert(names_heap(other, h.id));
                    let c = choose|c: int| 0 <= c < tail.len() && tail[c] == i;
                    assert(all[unknown.len() + part.len() + c] == i);
                } else {
                    assert(names_backing(other, r.backing));
                    let c = choose|c: int| 0 <= c < part.len() && part[c] == i;
                    assert(all[unknown.len() + c] == i);
                }
            },
        }
    }
}

proof fn lemma_same_intents(
    a: Seq<AccessRow>,
    b: Seq<AccessRow>,
    p: spec_fn(AccessIntent) -> bool,
)
    requires
        a.len() == b.len(),
        forall|j: int| 0 <= j < a.len() ==> (#[trigger] a[j]).intent == b[j].intent,
    ensures
        indices_where(a, p) == indices_where(b, p),
    decreases a.len(),
{
    if a.len() > 0 {
        let ai = a.drop_last();
        let bi = b.drop_last();
        assert forall|j: int| 0 <= j < ai.len() implies (#[trigger] ai[j]).intent == bi[j].intent by {
            assert(a[j].intent == b[j].intent);
        }
        lemma_same_intents(ai, bi, p);
        assert(a[a.len() - 1].intent == b[b.len() - 1].intent);
    }
}

/// Which rows an index holds does not depend on which rows are live.
proof fn lemma_index_ignores_liveness(before: Seq<AccessRow>, after: Seq<AccessRow>)
    requires
        before.len() == after.len(),
        forall|j: int| 0 <= j < before.len() ==> (#[trigger] before[j]).intent == after[j].intent,
    ensures
        forall|p: spec_fn(AccessIntent) -> bool|
            indices_where(before, p) == #[trigger] indices_where(after, p),
{
    assert forall|p: spec_fn(AccessIntent) -> bool|
        indices_where(before, p) == #[trigger] indices_where(after, p) by {
        lemma_same_intents(before, after, p);
    }
}

/// The live rows are the rows that are live.
proof fn lemma_live_members(rows: Seq<AccessRow>)
    ensures
        forall|r: AccessRow| #[trigger]
            live_rows(rows).contains(r) == (rows.contains(r) && r.live),
        forall|i: int|
            0 <= i < live_rows(rows).len() ==> rows.contains(#[trigger] live_rows(rows)[i]),
    decreases rows.len(),
{
    let live = live_rows(rows);
    if rows.len() == 0 {
        reveal(Seq::filter);
    } else {
        let init = rows.drop_last();
        let last = rows.last();
        lemma_live_members(init);
        lemma_live_step(rows, rows.len() - 1);
        assert(rows.take(rows.len() as int) =~= rows);
        assert(rows.take(rows.len() - 1) =~= init);
        let before = live_rows(init);
        assert forall|r: AccessRow| #[trigger] live.contains(r) == (rows.contains(r) && r.live) by {
            assert(before.contains(r) == (init.contains(r) && r.live));
            if live.contains(r) {
                let i = choose|i: int| 0 <= i < live.len() && live[i] == r;
                if i < before.len() {
                    assert(before[i] == r);
                    let j = choose|j: int| 0 <= j < init.len() && init[j] == r;
                    assert(rows[j] == r);
                } else {
                    assert(rows[rows.len() - 1] == r);
                }
            }
            if rows.contains(r) && r.live {
                let j = choose|j: int| 0 <= j < rows.len() && rows[j] == r;
                if j < init.len() {
                    assert(init[j] == r);
                    let i = choose|i: int| 0 <= i < before.len() && before[i] == r;
                    assert(live[i] == r);
                } else {
                    assert(live[live.len() - 1] == r);
                }
            }
        }
        assert forall|i: int| 0 <= i < live.len() implies rows.contains(#[trigger] live[i]) by {
            assert(live.contains(live[i]));
        }
    }
}

proof fn lemma_live_step(rows: Seq<AccessRow>, i: int)
    requires
        0 <= i < rows.len(),
    ensures
        live_rows(rows.take(i + 1)) == (if rows[i].live {
            live_rows(rows.take(i)).push(rows[i])
        } else {
            live_rows(rows.take(i))
        }),
{
    let after = rows.take(i + 1);
    assert(after.drop_last() =~= rows.take(i));
    assert(after.last() == rows[i]);
    reveal(Seq::filter);
}

/// Accepting two transactions that touch memory in common: the later waits for
/// the earlier wherever one of them may write it, whatever else either touches.
pub proof fn a_later_conflict_waits_for_the_earlier(
    rows: Seq<AccessRow>,
    first: IngressOrdinal,
    touched: Seq<AccessIntent>,
    second: IngressOrdinal,
    touching: Seq<AccessIntent>,
    x: int,
    y: int,
)
    requires
        first != second,
        0 <= x < touched.len(),
        0 <= y < touching.len(),
        touched[x].domain == touching[y].domain,
        touched[x].key.meets(touching[y].key),
        !(touched[x].mode is Read) || !(touching[y].mode is Read),
    ensures
        must_wait_for(rows_with(rows, first, touched), second, touching, first),
{
    let after = rows_with(rows, first, touched);
    let i = rows.len() + x;
    assert(after[i] == AccessRow { ordinal: first, intent: touched[x], live: true });
    crate::access::every_other_pair_is_ordered(touched[x], touching[y]);
    assert(conflicts(after, second, touching[y], i));
}

/// A wait for a transaction has its reason in what the two touch: two accesses
/// of one domain that could share memory, one of them no proven read.
pub proof fn a_wait_is_for_a_conflict(
    rows: Seq<AccessRow>,
    first: IngressOrdinal,
    touched: Seq<AccessIntent>,
    second: IngressOrdinal,
    touching: Seq<AccessIntent>,
) -> (at: (int, int))
    requires
        forall|i: int| 0 <= i < rows.len() ==> (#[trigger] rows[i]).ordinal != first,
        must_wait_for(rows_with(rows, first, touched), second, touching, first),
    ensures
        first != second,
        0 <= at.0 < touched.len(),
        0 <= at.1 < touching.len(),
        touched[at.0].domain == touching[at.1].domain,
        touched[at.0].key.meets(touching[at.1].key),
        !(touched[at.0].mode is Read) || !(touching[at.1].mode is Read),
{
    let after = rows_with(rows, first, touched);
    let (i, k) = choose|i: int, k: int|
        0 <= i < after.len() && 0 <= k < touching.len() && (#[trigger] after[i]).ordinal == first
            && conflicts(after, second, #[trigger] touching[k], i);
    if i < rows.len() {
        assert(after[i] == rows[i]);
    }
    assert(after[i] == AccessRow { ordinal: first, intent: touched[i - rows.len()], live: true });
    (i - rows.len(), k)
}

/// Accepting a transaction changes no other's standing: who waits for an earlier
/// transaction is what it was.
pub proof fn accepting_keeps_what_is_already_waited_for(
    rows: Seq<AccessRow>,
    first: IngressOrdinal,
    touched: Seq<AccessIntent>,
    second: IngressOrdinal,
    touching: Seq<AccessIntent>,
    o: IngressOrdinal,
)
    requires
        o != first,
    ensures
        must_wait_for(rows_with(rows, first, touched), second, touching, o) == must_wait_for(
            rows,
            second,
            touching,
            o,
        ),
{
    let after = rows_with(rows, first, touched);
    if must_wait_for(rows, second, touching, o) {
        let (i, k) = choose|i: int, k: int|
            0 <= i < rows.len() && 0 <= k < touching.len() && (#[trigger] rows[i]).ordinal == o
                && conflicts(rows, second, #[trigger] touching[k], i);
        assert(after[i] == rows[i]);
        assert(conflicts(after, second, touching[k], i));
    }
    if must_wait_for(after, second, touching, o) {
        let (i, k) = choose|i: int, k: int|
            0 <= i < after.len() && 0 <= k < touching.len() && (#[trigger] after[i]).ordinal == o
                && conflicts(after, second, #[trigger] touching[k], i);
        if i >= rows.len() {
            assert(after[i].ordinal == first);
        }
        assert(after[i] == rows[i]);
        assert(conflicts(rows, second, touching[k], i));
    }
}

/// Every access is counted on exactly one rung of the ladder: an exact window, a
/// whole backing or heap, or the domain alone.
pub proof fn every_access_is_counted_on_one_rung(accesses: Seq<AccessIntent>)
    ensures
        on_rung(accesses, 0) + on_rung(accesses, 1) + on_rung(accesses, 2) == accesses.len(),
        (forall|k: int|
            0 <= k < accesses.len() ==> (#[trigger] accesses[k]).key is Range
                || accesses[k].key is Subresource) ==> on_rung(accesses, 0) == accesses.len(),
        (forall|k: int|
            0 <= k < accesses.len() ==> (#[trigger] accesses[k]).key is Whole
                || accesses[k].key is Heap) ==> on_rung(accesses, 1) == accesses.len(),
        (forall|k: int| 0 <= k < accesses.len() ==> (#[trigger] accesses[k]).key is DomainOnly)
            ==> on_rung(accesses, 2) == accesses.len(),
    decreases accesses.len(),
{
    if accesses.len() > 0 {
        let init = accesses.drop_last();
        every_access_is_counted_on_one_rung(init);
        let last = accesses[accesses.len() - 1];
        assert(accesses.last() == last);
        assert(forall|k: int| 0 <= k < init.len() ==> (#[trigger] init[k]) == accesses[k]);
    }
}

/// Where every participation is known, no comparison is owed to an unknown one.
pub proof fn known_participation_costs_no_unknown_comparison(
    rows: Seq<AccessRow>,
    ordinal: IngressOrdinal,
    accesses: Seq<AccessIntent>,
)
    requires
        forall|i: int| 0 <= i < rows.len() ==> !((#[trigger] rows[i]).intent.key is DomainOnly),
        forall|k: int| 0 <= k < accesses.len() ==> !((#[trigger] accesses[k]).key is DomainOnly),
    ensures
        admission_comparisons(rows, ordinal, accesses) == 0,
    decreases accesses.len(),
{
    if accesses.len() > 0 {
        let init = accesses.drop_last();
        let before = rows_with(rows, ordinal, init);
        let last = accesses[accesses.len() - 1];
        assert(forall|k: int| 0 <= k < init.len() ==> (#[trigger] init[k]) == accesses[k]);
        known_participation_costs_no_unknown_comparison(rows, ordinal, init);
        lemma_none_where(before, |a: AccessIntent| only_of_domain(a, last.domain));
    }
}

proof fn lemma_none_where(rows: Seq<AccessRow>, p: spec_fn(AccessIntent) -> bool)
    requires
        forall|i: int| 0 <= i < rows.len() ==> !p((#[trigger] rows[i]).intent),
    ensures
        indices_where(rows, p).len() == 0,
    decreases rows.len(),
{
    if rows.len() > 0 {
        let init = rows.drop_last();
        assert(forall|i: int| 0 <= i < init.len() ==> (#[trigger] init[i]) == rows[i]);
        lemma_none_where(init, p);
        assert(rows[rows.len() - 1] == rows.last());
    }
}

/// Where every direction is established, no conflict is counted as unknown.
pub proof fn established_directions_are_no_unknown_conflict(
    rows: Seq<AccessRow>,
    ordinal: IngressOrdinal,
    accesses: Seq<AccessIntent>,
)
    requires
        forall|i: int| 0 <= i < rows.len() ==> !((#[trigger] rows[i]).intent.mode is Unknown),
        forall|k: int| 0 <= k < accesses.len() ==> !((#[trigger] accesses[k]).mode is Unknown),
        rows.len() + accesses.len() <= usize::MAX,
    ensures
        admission_unknowns(rows, ordinal, accesses) == 0,
    decreases accesses.len(),
{
    if accesses.len() > 0 {
        let init = accesses.drop_last();
        let before = rows_with(rows, ordinal, init);
        let last = accesses[accesses.len() - 1];
        assert(forall|k: int| 0 <= k < init.len() ==> (#[trigger] init[k]) == accesses[k]);
        established_directions_are_no_unknown_conflict(rows, ordinal, init);
        lemma_candidates_in_range(before, last);
        lemma_no_unknowns(before, ordinal, last, candidate_rows(before, last));
    }
}

proof fn lemma_indices_in_range(rows: Seq<AccessRow>, p: spec_fn(AccessIntent) -> bool)
    requires
        rows.len() <= usize::MAX,
    ensures
        forall|k: int|
            0 <= k < indices_where(rows, p).len() ==> (#[trigger] indices_where(rows, p)[k])
                < rows.len(),
    decreases rows.len(),
{
    if rows.len() > 0 {
        let rest = indices_where(rows.drop_last(), p);
        lemma_indices_in_range(rows.drop_last(), p);
        assert forall|k: int| 0 <= k < indices_where(rows, p).len() implies (
        #[trigger] indices_where(rows, p)[k]) < rows.len() by {
            if k < rest.len() {
                assert(indices_where(rows, p)[k] == rest[k]);
            }
        }
    }
}

proof fn lemma_candidates_in_range(rows: Seq<AccessRow>, intent: AccessIntent)
    requires
        rows.len() <= usize::MAX,
    ensures
        forall|k: int|
            0 <= k < candidate_rows(rows, intent).len() ==> (#[trigger] candidate_rows(
                rows,
                intent,
            )[k]) < rows.len(),
{
    lemma_indices_in_range(rows, |a: AccessIntent| only_of_domain(a, intent.domain));
    match intent.key {
        AccessKey::DomainOnly => {
            lemma_indices_in_range(rows, |a: AccessIntent| of_domain(a, intent.domain));
        },
        AccessKey::Heap(h) => {
            lemma_indices_in_range(rows, |a: AccessIntent| names_heap(a, h.id));
        },
        key => {
            let r = key.resource_key()->0;
            lemma_indices_in_range(rows, |a: AccessIntent| names_backing(a, r.backing));
            match r.heap {
                Some(h) => {
                    lemma_indices_in_range(rows, |a: AccessIntent| names_heap(a, h.id));
                },
                None => {},
            }
        },
    }
}

proof fn lemma_no_unknowns(
    rows: Seq<AccessRow>,
    ordinal: IngressOrdinal,
    intent: AccessIntent,
    compared: Seq<usize>,
)
    requires
        !(intent.mode is Unknown),
        forall|i: int| 0 <= i < rows.len() ==> !((#[trigger] rows[i]).intent.mode is Unknown),
        rows.len() <= usize::MAX,
        forall|k: int| 0 <= k < compared.len() ==> (#[trigger] compared[k]) < rows.len(),
    ensures
        unknown_conflicts(rows, ordinal, intent, compared) == 0,
    decreases compared.len(),
{
    if compared.len() > 0 {
        let init = compared.drop_last();
        assert(forall|k: int| 0 <= k < init.len() ==> (#[trigger] init[k]) == compared[k]);
        lemma_no_unknowns(rows, ordinal, intent, init);
        assert(compared[compared.len() - 1] == compared.last());
    }
}

/// An admission is charged one access for each declared, one edge for each
/// transaction waited for, and each access on its own rung, until a count
/// reaches the top of its word.
pub proof fn an_admission_is_charged_for_what_it_did(
    before: Census,
    after: Census,
    rows: Seq<AccessRow>,
    ordinal: IngressOrdinal,
    accesses: Seq<AccessIntent>,
    edges: nat,
    rung: int,
)
    requires
        charged(before, after, rows, ordinal, accesses, edges),
        0 <= rung < 3,
    ensures
        before.accesses + accesses.len() <= usize::MAX ==> after.accesses == before.accesses
            + accesses.len(),
        before.edges + edges <= usize::MAX ==> after.edges == before.edges + edges,
        before.by_rung@[rung] + on_rung(accesses, rung) <= usize::MAX ==> after.by_rung@[rung]
            == before.by_rung@[rung] + on_rung(accesses, rung),
        before.domain_only_comparisons + admission_comparisons(rows, ordinal, accesses)
            <= usize::MAX ==> after.domain_only_comparisons == before.domain_only_comparisons
            + admission_comparisons(rows, ordinal, accesses),
        before.edges_from_unknown_mode + admission_unknowns(rows, ordinal, accesses) <= usize::MAX
            ==> after.edges_from_unknown_mode == before.edges_from_unknown_mode
            + admission_unknowns(rows, ordinal, accesses),
        after.accesses >= before.accesses && after.edges >= before.edges,
{
}

/// A conflict is for want of a direction exactly when one of its two sides does
/// not say which way it goes.
pub proof fn one_unknown_side_is_an_unknown_conflict(
    rows: Seq<AccessRow>,
    ordinal: IngressOrdinal,
    intent: AccessIntent,
    i: int,
)
    requires
        0 <= i < rows.len(),
        conflicts(rows, ordinal, intent, i),
    ensures
        rows[i].intent.mode is Unknown ==> unknown_conflict(rows, ordinal, intent, i),
        intent.mode is Unknown ==> unknown_conflict(rows, ordinal, intent, i),
        unknown_conflict(rows, ordinal, intent, i) ==> rows[i].intent.mode is Unknown
            || intent.mode is Unknown,
{
}

} // verus!
