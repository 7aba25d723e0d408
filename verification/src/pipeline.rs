//! The pipeline lifetime, and the rule that a draw never compiles.
//!
//! "Not compiled yet" is a state a transaction waits on, and "refused" is a
//! terminal state with its reason attached. The translation and compilation
//! happen elsewhere; this owns when they may start, what a waiting transaction
//! observes, and when the result may be dropped.

use vstd::prelude::*;
use crate::access::AccessMode;
use crate::identity::{ResourceId, SessionGeneration};
use crate::table::{Table, TableKey};

verus! {

/// Where a pipeline is in its life.
#[derive(Clone, Copy, Debug, PartialEq, Eq, PartialOrd, Ord, Hash, Structural)]
pub enum PipelineState {
    /// The guest has created the object; no work has started.
    Declared,
    /// The guest's shader form is being turned into the host's.
    Translating,
    /// The host is building the pipeline.
    Compiling,
    /// Usable.
    Ready,
    /// The device cannot build it, and will not try again.
    Refused,
    /// The guest deleted it, or its generation closed.
    Retired,
}

impl PipelineState {
    /// No step leads out of the state.
    pub open spec fn terminal(self) -> bool {
        self is Refused || self is Retired
    }

    /// `next` is a legal step from here: one step forward, a refusal before the
    /// pipeline is ready, or a deletion before a terminal state.
    pub open spec fn steps_to(self, next: PipelineState) -> bool {
        match next {
            PipelineState::Declared => false,
            PipelineState::Translating => self is Declared,
            PipelineState::Compiling => self is Translating,
            PipelineState::Ready => self is Compiling,
            PipelineState::Refused => self is Declared || self is Translating || self is Compiling,
            PipelineState::Retired => !self.terminal(),
        }
    }

    #[must_use]
    pub fn is_terminal(self) -> (t: bool)
        ensures
            t == self.terminal(),
    {
        match self {
            PipelineState::Refused => true,
            PipelineState::Retired => true,
            _ => false,
        }
    }

    #[must_use]
    pub fn is_ready(self) -> (r: bool)
        ensures
            r == (self is Ready),
    {
        match self {
            PipelineState::Ready => true,
            _ => false,
        }
    }

    #[must_use]
    pub fn name(self) -> (name: &'static str)
        ensures
            name@ == (match self {
                PipelineState::Declared => "declared"@,
                PipelineState::Translating => "translating"@,
                PipelineState::Compiling => "compiling"@,
                PipelineState::Ready => "ready"@,
                PipelineState::Refused => "refused"@,
                PipelineState::Retired => "retired"@,
            }),
    {
        match self {
            PipelineState::Declared => "declared",
            PipelineState::Translating => "translating",
            PipelineState::Compiling => "compiling",
            PipelineState::Ready => "ready",
            PipelineState::Refused => "refused",
            PipelineState::Retired => "retired",
        }
    }

    /// Whether `next` is a legal step from here.
    #[must_use]
    pub fn may_become(self, next: PipelineState) -> (legal: bool)
        ensures
            legal == self.steps_to(next),
    {
        match (self, next) {
            (PipelineState::Declared, PipelineState::Translating) => true,
            (PipelineState::Translating, PipelineState::Compiling) => true,
            (PipelineState::Compiling, PipelineState::Ready) => true,
            (
                PipelineState::Declared | PipelineState::Translating | PipelineState::Compiling,
                PipelineState::Refused,
            ) => true,
            (
                PipelineState::Declared
                | PipelineState::Translating
                | PipelineState::Compiling
                | PipelineState::Ready,
                PipelineState::Retired,
            ) => true,
            _ => false,
        }
    }
}

/// What a compiled pipeline does with each slot it binds.
///
/// Published once by whoever compiled it. A slot past the end of a table is one
/// the shader does not name.
#[derive(Debug, PartialEq, Eq)]
pub struct BindingUsage {
    buffers: Vec<Option<AccessMode>>,
    textures: Vec<Option<AccessMode>>,
}

/// What a table says of a slot; nothing, past its end.
pub open spec fn slot_usage(table: Seq<Option<AccessMode>>, slot: u32) -> Option<AccessMode> {
    if slot < table.len() {
        table[slot as int]
    } else {
        None
    }
}

/// A table names a slot the shader might write.
pub open spec fn table_writes(table: Seq<Option<AccessMode>>) -> bool {
    exists|i: int| 0 <= i < table.len() && (#[trigger] table[i]) is Some && table[i]->0.is_write()
}

fn usage_at(table: &Vec<Option<AccessMode>>, slot: u32) -> (mode: Option<AccessMode>)
    ensures
        mode == slot_usage(table@, slot),
{
    if (slot as usize) < table.len() {
        table[slot as usize]
    } else {
        None
    }
}

fn writes_any(table: &Vec<Option<AccessMode>>) -> (w: bool)
    ensures
        w == table_writes(table@),
{
    let mut i: usize = 0;
    while i < table.len()
        invariant
            i <= table@.len(),
            forall|j: int|
                0 <= j < i ==> !((#[trigger] table@[j]) is Some && table@[j]->0.is_write()),
        decreases table.len() - i,
    {
        match table[i] {
            Some(mode) => {
                if mode.writes() {
                    assert(table@[i as int] is Some && table@[i as int]->0.is_write());
                    return true;
                }
            },
            None => {},
        }
        i = i + 1;
    }
    false
}

impl BindingUsage {
    pub closed spec fn buffer_table(&self) -> Seq<Option<AccessMode>> {
        self.buffers@
    }

    pub closed spec fn texture_table(&self) -> Seq<Option<AccessMode>> {
        self.textures@
    }

    #[must_use]
    pub fn new(buffers: Vec<Option<AccessMode>>, textures: Vec<Option<AccessMode>>) -> (u: Self)
        ensures
            u.buffer_table() == buffers@,
            u.texture_table() == textures@,
    {
        BindingUsage { buffers, textures }
    }

    /// What the pipeline does with buffer slot `slot`, or `None` if it does not
    /// reference it.
    #[must_use]
    pub fn buffer(&self, slot: u32) -> (mode: Option<AccessMode>)
        ensures
            mode == slot_usage(self.buffer_table(), slot),
    {
        usage_at(&self.buffers, slot)
    }

    /// What the pipeline does with texture slot `slot`.
    #[must_use]
    pub fn texture(&self, slot: u32) -> (mode: Option<AccessMode>)
        ensures
            mode == slot_usage(self.texture_table(), slot),
    {
        usage_at(&self.textures, slot)
    }

    /// Whether the pipeline writes anything through its bindings.
    #[must_use]
    pub fn writes_anything(&self) -> (w: bool)
        ensures
            w == (table_writes(self.buffer_table()) || table_writes(self.texture_table())),
    {
        writes_any(&self.buffers) || writes_any(&self.textures)
    }
}

/// Why a pipeline will not be built.
#[derive(Clone, Copy, Debug, PartialEq, Eq)]
pub enum RefusalReason {
    /// A descriptor field the model has no representation for.
    Undescribable(&'static str),
    /// The guest's shader form could not be translated.
    TranslationFailed(&'static str),
    /// The host refused to build it.
    CompilationFailed(&'static str),
}

impl RefusalReason {
    #[must_use]
    pub fn slug(self) -> (slug: &'static str)
        ensures
            slug@ == self.slug_text(),
    {
        match self {
            RefusalReason::Undescribable(_) => "pipeline_undescribable",
            RefusalReason::TranslationFailed(_) => "pipeline_translation_failed",
            RefusalReason::CompilationFailed(_) => "pipeline_compilation_failed",
        }
    }

    pub open spec fn slug_text(self) -> Seq<char> {
        match self {
            RefusalReason::Undescribable(_) => "pipeline_undescribable"@,
            RefusalReason::TranslationFailed(_) => "pipeline_translation_failed"@,
            RefusalReason::CompilationFailed(_) => "pipeline_compilation_failed"@,
        }
    }

    #[must_use]
    pub fn detail(self) -> (detail: &'static str)
        ensures
            detail == (match self {
                RefusalReason::Undescribable(d) => d,
                RefusalReason::TranslationFailed(d) => d,
                RefusalReason::CompilationFailed(d) => d,
            }),
    {
        match self {
            RefusalReason::Undescribable(d) => d,
            RefusalReason::TranslationFailed(d) => d,
            RefusalReason::CompilationFailed(d) => d,
        }
    }
}

/// One pipeline object.
#[derive(Clone, Copy, Debug, PartialEq, Eq)]
pub struct Pipeline {
    pub id: ResourceId,
    /// The semantic lifetime it was declared in.
    pub generation: SessionGeneration,
    pub state: PipelineState,
    pub refusal: Option<RefusalReason>,
}

/// What a transaction that wants a pipeline observes.
#[derive(Clone, Copy, Debug, PartialEq, Eq)]
pub enum Lease {
    /// Usable now.
    Ready,
    /// Not yet.
    Pending,
    /// It will never be usable, with the reason.
    Refused(RefusalReason),
    /// There is no such pipeline in this generation.
    Absent,
}

/// Why a transaction can never use a pipeline it binds.
#[derive(Clone, Copy, Debug, PartialEq, Eq)]
pub enum LeaseRefusal {
    /// This device failed to build it.
    Refused { pipeline: ResourceId, reason: RefusalReason },
    /// This generation does not have it.
    Absent { pipeline: ResourceId },
}

impl LeaseRefusal {
    pub open spec fn slug_text(self) -> Seq<char> {
        match self {
            LeaseRefusal::Refused { reason, .. } => reason.slug_text(),
            LeaseRefusal::Absent { .. } => "pipeline_absent"@,
        }
    }

    /// A refused pipeline reports the build's own reason.
    #[must_use]
    pub fn slug(self) -> (slug: &'static str)
        ensures
            slug@ == self.slug_text(),
    {
        match self {
            LeaseRefusal::Refused { reason, .. } => reason.slug(),
            LeaseRefusal::Absent { .. } => "pipeline_absent",
        }
    }
}

impl TableKey for ResourceId {
    fn same(&self, other: &Self) -> (equal: bool) {
        *self == *other
    }
}

/// The pipeline objects of one session.
#[derive(Debug)]
pub struct PipelineTable {
    pipelines: Table<ResourceId, Pipeline>,
    census: Census,
}

/// What the table has seen. Each count stops at the top of its word.
#[derive(Clone, Copy, Debug, PartialEq, Eq, Structural)]
pub struct Census {
    pub declared: usize,
    pub ready: usize,
    pub refused: usize,
    pub retired: usize,
    /// Leases taken while a pipeline was still being built.
    pub leases_pending: usize,
    /// Leases taken on a pipeline that was already ready.
    pub leases_ready: usize,
}

/// `n` more, stopping at the top of the word.
pub open spec fn tally(count: usize, n: nat) -> usize {
    if count + n > usize::MAX { usize::MAX } else { (count + n) as usize }
}

/// What work of `generation` wanting pipeline `id` observes.
pub open spec fn lease_of(
    pipelines: Map<ResourceId, Pipeline>,
    id: ResourceId,
    generation: SessionGeneration,
) -> Lease {
    if !pipelines.dom().contains(id) || pipelines[id].generation != generation {
        Lease::Absent
    } else {
        match pipelines[id].state {
            PipelineState::Retired => Lease::Absent,
            PipelineState::Ready => Lease::Ready,
            PipelineState::Refused => Lease::Refused(pipelines[id].refusal->0),
            _ => Lease::Pending,
        }
    }
}

/// The work can use the pipeline now or later.
pub open spec fn can_use(lease: Lease) -> bool {
    lease is Ready || lease is Pending
}

/// Why the work can never use a pipeline it cannot use.
pub open spec fn lease_refusal(lease: Lease, pipeline: ResourceId) -> LeaseRefusal {
    match lease {
        Lease::Refused(reason) => LeaseRefusal::Refused { pipeline, reason },
        _ => LeaseRefusal::Absent { pipeline },
    }
}

/// How many of the pipelines, from the first on, the work can use.
pub open spec fn usable_prefix(
    pipelines: Map<ResourceId, Pipeline>,
    leases: Seq<ResourceId>,
    generation: SessionGeneration,
) -> nat
    decreases leases.len(),
{
    if leases.len() > 0 && can_use(lease_of(pipelines, leases[0], generation)) {
        1 + usable_prefix(pipelines, leases.drop_first(), generation)
    } else {
        0
    }
}

/// The pipelines that are still being built.
pub open spec fn still_building(
    pipelines: Map<ResourceId, Pipeline>,
    leases: Seq<ResourceId>,
    generation: SessionGeneration,
) -> Seq<ResourceId> {
    leases.filter(|id: ResourceId| lease_of(pipelines, id, generation) is Pending)
}

/// The pipelines that are ready.
pub open spec fn already_built(
    pipelines: Map<ResourceId, Pipeline>,
    leases: Seq<ResourceId>,
    generation: SessionGeneration,
) -> Seq<ResourceId> {
    leases.filter(|id: ResourceId| lease_of(pipelines, id, generation) is Ready)
}

/// The waits a list of leases becomes: those still being built, or the first
/// pipeline that can never be used.
pub open spec fn waits_outcome(
    pipelines: Map<ResourceId, Pipeline>,
    leases: Seq<ResourceId>,
    generation: SessionGeneration,
) -> Result<Seq<ResourceId>, LeaseRefusal> {
    let n = usable_prefix(pipelines, leases, generation);
    if n == leases.len() {
        Ok(still_building(pipelines, leases, generation))
    } else {
        Err(
            lease_refusal(
                lease_of(pipelines, leases[n as int], generation),
                leases[n as int],
            ),
        )
    }
}

/// The counts once the leases of a list were taken, up to the first that could
/// not be.
pub open spec fn counts_after_leases(
    counts: Census,
    pipelines: Map<ResourceId, Pipeline>,
    leases: Seq<ResourceId>,
    generation: SessionGeneration,
) -> Census {
    let taken = leases.take(usable_prefix(pipelines, leases, generation) as int);
    Census {
        leases_pending: tally(
            counts.leases_pending,
            still_building(pipelines, taken, generation).len(),
        ),
        leases_ready: tally(
            counts.leases_ready,
            already_built(pipelines, taken, generation).len(),
        ),
        ..counts
    }
}

impl View for PipelineTable {
    type V = Map<ResourceId, Pipeline>;

    closed spec fn view(&self) -> Map<ResourceId, Pipeline> {
        self.pipelines@
    }
}

impl Default for PipelineTable {
    fn default() -> (t: PipelineTable)
        ensures
            t.wf(),
            t@ == Map::<ResourceId, Pipeline>::empty(),
            t.counts() == (Census {
                declared: 0,
                ready: 0,
                refused: 0,
                retired: 0,
                leases_pending: 0,
                leases_ready: 0,
            }),
    {
        PipelineTable::new()
    }
}

impl PipelineTable {
    pub closed spec fn counts(&self) -> Census {
        self.census
    }

    pub closed spec fn rows_wf(&self) -> bool {
        self.pipelines.wf()
    }

    /// Each pipeline stands under its own name, and a pipeline carries a reason
    /// exactly when it is refused.
    pub open spec fn wf(&self) -> bool {
        self.rows_wf() && forall|id: ResourceId| #[trigger]
            self@.dom().contains(id) ==> self@[id].id == id && (self@[id].refusal is Some == (
            self@[id].state is Refused))
    }

    #[must_use]
    pub fn new() -> (t: Self)
        ensures
            t.wf(),
            t@ == Map::<ResourceId, Pipeline>::empty(),
            t.counts() == (Census {
                declared: 0,
                ready: 0,
                refused: 0,
                retired: 0,
                leases_pending: 0,
                leases_ready: 0,
            }),
    {
        PipelineTable {
            pipelines: Table::new(),
            census: Census {
                declared: 0,
                ready: 0,
                refused: 0,
                retired: 0,
                leases_pending: 0,
                leases_ready: 0,
            },
        }
    }

    #[must_use]
    pub fn census(&self) -> (c: Census)
        ensures
            c == self.counts(),
    {
        self.census
    }

    /// Declare a pipeline. Returns whether it was new; a live declaration is
    /// left as it is.
    pub fn declare(&mut self, id: ResourceId, generation: SessionGeneration) -> (new: bool)
        requires
            old(self).wf(),
        ensures
            final(self).wf(),
            new == !old(self)@.dom().contains(id),
            !new ==> *final(self) == *old(self),
            new ==> final(self)@ == old(self)@.insert(
                id,
                Pipeline { id, generation, state: PipelineState::Declared, refusal: None },
            ) && final(self).counts() == (Census {
                declared: tally(old(self).counts().declared, 1),
                ..old(self).counts()
            }),
    {
        if self.pipelines.contains(id) {
            return false;
        }
        self.census.declared = self.census.declared.saturating_add(1);
        self.pipelines.insert(
            id,
            Pipeline { id, generation, state: PipelineState::Declared, refusal: None },
        );
        true
    }

    #[must_use]
    pub fn get(&self, id: ResourceId) -> (p: Option<&Pipeline>)
        requires
            self.wf(),
        ensures
            p is Some == self@.dom().contains(id),
            p matches Some(p) ==> *p == self@[id],
    {
        self.pipelines.get(id)
    }

    /// Advance a pipeline. Returns whether the step was legal and taken.
    ///
    /// A compile that finishes after the guest deleted the pipeline is the
    /// common illegal step, and it does not resurrect it. A refusal carries a
    /// reason, so a step to it is taken by [`PipelineTable::refuse`].
    pub fn advance(&mut self, id: ResourceId, next: PipelineState) -> (taken: bool)
        requires
            old(self).wf(),
            next is Refused ==> !(old(self)@.dom().contains(id) && old(
                self,
            )@[id].state.steps_to(next)),
        ensures
            final(self).wf(),
            taken == (old(self)@.dom().contains(id) && old(self)@[id].state.steps_to(next)),
            !taken ==> *final(self) == *old(self),
            taken ==> final(self)@ == old(self)@.insert(
                id,
                Pipeline { state: next, ..old(self)@[id] },
            ) && final(self).counts() == (Census {
                ready: tally(old(self).counts().ready, if next is Ready { 1 } else { 0 }),
                retired: tally(old(self).counts().retired, if next is Retired { 1 } else { 0 }),
                ..old(self).counts()
            }),
    {
        match self.pipelines.find(id) {
            Some(i) => {
                let pipeline = *self.pipelines.value(i);
                if !pipeline.state.may_become(next) {
                    return false;
                }
                self.pipelines.set_at(i, Pipeline { state: next, ..pipeline });
                match next {
                    PipelineState::Ready => {
                        self.census.ready = self.census.ready.saturating_add(1);
                    },
                    PipelineState::Retired => {
                        self.census.retired = self.census.retired.saturating_add(1);
                    },
                    _ => {},
                }
                true
            },
            None => false,
        }
    }

    /// Refuse a pipeline, with the reason. Returns whether that was a legal
    /// step.
    pub fn refuse(&mut self, id: ResourceId, reason: RefusalReason) -> (taken: bool)
        requires
            old(self).wf(),
        ensures
            final(self).wf(),
            taken == (old(self)@.dom().contains(id) && old(self)@[id].state.steps_to(
                PipelineState::Refused,
            )),
            !taken ==> *final(self) == *old(self),
            taken ==> final(self)@ == old(self)@.insert(
                id,
                Pipeline {
                    state: PipelineState::Refused,
                    refusal: Some(reason),
                    ..old(self)@[id]
                },
            ) && final(self).counts() == (Census {
                refused: tally(old(self).counts().refused, 1),
                ..old(self).counts()
            }),
    {
        match self.pipelines.find(id) {
            Some(i) => {
                let pipeline = *self.pipelines.value(i);
                if !pipeline.state.may_become(PipelineState::Refused) {
                    return false;
                }
                self.pipelines.set_at(
                    i,
                    Pipeline { state: PipelineState::Refused, refusal: Some(reason), ..pipeline },
                );
                self.census.refused = self.census.refused.saturating_add(1);
                true
            },
            None => false,
        }
    }

    /// What a transaction wanting this pipeline in this generation observes,
    /// without taking a lease.
    #[must_use]
    pub fn observe(&self, id: ResourceId, generation: SessionGeneration) -> (lease: Lease)
        requires
            self.wf(),
        ensures
            lease == lease_of(self@, id, generation),
    {
        match self.pipelines.get(id) {
            Some(p) => {
                if p.generation != generation {
                    return Lease::Absent;
                }
                match p.state {
                    PipelineState::Ready => Lease::Ready,
                    PipelineState::Refused => match p.refusal {
                        Some(reason) => Lease::Refused(reason),
                        None => Lease::Absent,
                    },
                    PipelineState::Declared => Lease::Pending,
                    PipelineState::Translating => Lease::Pending,
                    PipelineState::Compiling => Lease::Pending,
                    PipelineState::Retired => Lease::Absent,
                }
            },
            None => Lease::Absent,
        }
    }

    /// Take a lease on a pipeline for work of a generation.
    ///
    /// A pipeline declared in a closed generation is absent to work from a
    /// later one, though the object is intact.
    pub fn lease(&mut self, id: ResourceId, generation: SessionGeneration) -> (lease: Lease)
        requires
            old(self).wf(),
        ensures
            final(self).wf(),
            final(self)@ == old(self)@,
            lease == lease_of(old(self)@, id, generation),
            final(self).counts() == (Census {
                leases_pending: tally(
                    old(self).counts().leases_pending,
                    if lease is Pending { 1 } else { 0 },
                ),
                leases_ready: tally(
                    old(self).counts().leases_ready,
                    if lease is Ready { 1 } else { 0 },
                ),
                ..old(self).counts()
            }),
    {
        let lease = self.observe(id, generation);
        match lease {
            Lease::Ready => {
                self.census.leases_ready = self.census.leases_ready.saturating_add(1);
            },
            Lease::Pending => {
                self.census.leases_pending = self.census.leases_pending.saturating_add(1);
            },
            _ => {},
        }
        lease
    }

    /// Turn a transaction's pipeline leases into the waits it is admitted with.
    ///
    /// A lease is taken for every pipeline in order, and only those still being
    /// built come back. The first pipeline the work can never use ends the
    /// walk; leases taken before it stay counted.
    pub fn waits_for(
        &mut self,
        leases: &[ResourceId],
        generation: SessionGeneration,
    ) -> (r: Result<Vec<ResourceId>, LeaseRefusal>)
        requires
            old(self).wf(),
        ensures
            final(self).wf(),
            final(self)@ == old(self)@,
            match r {
                Ok(waits) => waits_outcome(old(self)@, leases@, generation)
                    == Ok::<Seq<ResourceId>, LeaseRefusal>(waits@),
                Err(e) => waits_outcome(old(self)@, leases@, generation)
                    == Err::<Seq<ResourceId>, LeaseRefusal>(e),
            },
            final(self).counts() == counts_after_leases(
                old(self).counts(),
                old(self)@,
                leases@,
                generation,
            ),
    {
        let ghost rows = self@;
        let ghost counts = self.census;
        let ghost pending = |id: ResourceId| lease_of(rows, id, generation) is Pending;
        let ghost ready = |id: ResourceId| lease_of(rows, id, generation) is Ready;
        let mut waits: Vec<ResourceId> = Vec::new();
        let mut i: usize = 0;
        proof {
            reveal(Seq::filter);
            assert(leases@.take(0).filter(pending) =~= Seq::<ResourceId>::empty());
            assert(leases@.take(0).filter(ready) =~= Seq::<ResourceId>::empty());
        }
        while i < leases.len()
            invariant
                self.wf(),
                rows == self@,
                rows == old(self)@,
                counts == old(self).census,
                i <= leases@.len(),
                pending == (|id: ResourceId| lease_of(rows, id, generation) is Pending),
                ready == (|id: ResourceId| lease_of(rows, id, generation) is Ready),
                forall|j: int| 0 <= j < i ==> can_use(lease_of(rows, #[trigger] leases@[j], generation)),
                waits@ == leases@.take(i as int).filter(pending),
                self.census == (Census {
                    leases_pending: tally(
                        counts.leases_pending,
                        leases@.take(i as int).filter(pending).len(),
                    ),
                    leases_ready: tally(
                        counts.leases_ready,
                        leases@.take(i as int).filter(ready).len(),
                    ),
                    ..counts
                }),
            decreases leases.len() - i,
        {
            let pipeline = leases[i];
            proof {
                reveal(Seq::filter);
                assert(leases@.take(i + 1).drop_last() =~= leases@.take(i as int));
                assert(leases@.take(i + 1).last() == pipeline);
            }
            match self.lease(pipeline, generation) {
                Lease::Ready => {},
                Lease::Pending => {
                    waits.push(pipeline);
                },
                Lease::Refused(reason) => {
                    proof {
                        lemma_usable_prefix(rows, leases@, generation, i as int);
                    }
                    return Err(LeaseRefusal::Refused { pipeline, reason });
                },
                Lease::Absent => {
                    proof {
                        lemma_usable_prefix(rows, leases@, generation, i as int);
                    }
                    return Err(LeaseRefusal::Absent { pipeline });
                },
            }
            i = i + 1;
        }
        proof {
            lemma_usable_prefix(rows, leases@, generation, i as int);
            assert(leases@.take(i as int) =~= leases@);
        }
        Ok(waits)
    }

    /// Whether work binding these pipelines could be admitted, taking no lease.
    pub fn check(&self, leases: &[ResourceId], generation: SessionGeneration) -> (r: Result<
        (),
        LeaseRefusal,
    >)
        requires
            self.wf(),
        ensures
            r is Ok == (waits_outcome(self@, leases@, generation) is Ok),
            r matches Err(e) ==> waits_outcome(self@, leases@, generation) == Err::<
                Seq<ResourceId>,
                LeaseRefusal,
            >(e),
    {
        let mut i: usize = 0;
        while i < leases.len()
            invariant
                self.wf(),
                i <= leases@.len(),
                forall|j: int|
                    0 <= j < i ==> can_use(lease_of(self@, #[trigger] leases@[j], generation)),
            decreases leases.len() - i,
        {
            let pipeline = leases[i];
            match self.observe(pipeline, generation) {
                Lease::Ready => {},
                Lease::Pending => {},
                Lease::Refused(reason) => {
                    proof {
                        lemma_usable_prefix(self@, leases@, generation, i as int);
                    }
                    return Err(LeaseRefusal::Refused { pipeline, reason });
                },
                Lease::Absent => {
                    proof {
                        lemma_usable_prefix(self@, leases@, generation, i as int);
                    }
                    return Err(LeaseRefusal::Absent { pipeline });
                },
            }
            i = i + 1;
        }
        proof {
            lemma_usable_prefix(self@, leases@, generation, i as int);
        }
        Ok(())
    }

    /// Retire a pipeline the guest deleted.
    pub fn retire(&mut self, id: ResourceId) -> (taken: bool)
        requires
            old(self).wf(),
        ensures
            final(self).wf(),
            taken == (old(self)@.dom().contains(id) && !old(self)@[id].state.terminal()),
            !taken ==> *final(self) == *old(self),
            taken ==> final(self)@ == old(self)@.insert(
                id,
                Pipeline { state: PipelineState::Retired, ..old(self)@[id] },
            ) && final(self).counts() == (Census {
                retired: tally(old(self).counts().retired, 1),
                ..old(self).counts()
            }),
    {
        self.advance(id, PipelineState::Retired)
    }

    /// Drop retired pipelines' bookkeeping.
    pub fn compact(&mut self)
        requires
            old(self).wf(),
        ensures
            final(self).wf(),
            final(self).counts() == old(self).counts(),
            final(self)@ == Map::new(
                |id: ResourceId| old(self)@.dom().contains(id) && !(old(self)@[id].state is Retired),
                |id: ResourceId| old(self)@[id],
            ),
    {
        let mut i: usize = 0;
        let ghost start = self@;
        while i < self.pipelines.len()
            invariant
                self.wf(),
                self.census == old(self).census,
                start == old(self)@,
                i <= self.pipelines.entries().len(),
                forall|j: int|
                    0 <= j < i ==> !((#[trigger] self.pipelines.entries()[j]).1.state is Retired),
                forall|id: ResourceId| #[trigger]
                    self@.dom().contains(id) ==> start.dom().contains(id) && self@[id] == start[id],
                forall|id: ResourceId| #[trigger]
                    start.dom().contains(id) && !(start[id].state is Retired)
                        ==> self@.dom().contains(id),
            decreases self.pipelines.entries().len() - i,
        {
            let retired = match self.pipelines.value(i).state {
                PipelineState::Retired => true,
                _ => false,
            };
            if retired {
                let ghost before = self.pipelines.entries();
                let _ = self.pipelines.remove_at(i);
                assert forall|j: int| 0 <= j < i implies !((
                #[trigger] self.pipelines.entries()[j]).1.state is Retired) by {
                    assert(self.pipelines.entries()[j] == before[j]);
                }
            } else {
                i = i + 1;
            }
        }
        proof {
            let want = Map::new(
                |id: ResourceId| start.dom().contains(id) && !(start[id].state is Retired),
                |id: ResourceId| start[id],
            );
            assert forall|id: ResourceId| self@.dom().contains(id) implies want.dom().contains(id) by {
                let j = crate::table::lemma_key_has_index(self.pipelines.entries(), id);
                assert(!(self.pipelines.entries()[j].1.state is Retired));
            }
            assert(self@ =~= want);
        }
    }

    #[must_use]
    pub fn len(&self) -> (n: usize)
        requires
            self.wf(),
        ensures
            self@.dom().finite(),
            n == self@.dom().len(),
    {
        self.pipelines.len()
    }

    #[must_use]
    pub fn is_empty(&self) -> (empty: bool)
        requires
            self.wf(),
        ensures
            empty == (self@ == Map::<ResourceId, Pipeline>::empty()),
    {
        let n = self.pipelines.len();
        proof {
            if n == 0 {
                assert(self@.dom() =~= Set::<ResourceId>::empty());
                assert(self@ =~= Map::<ResourceId, Pipeline>::empty());
            }
        }
        n == 0
    }
}

/// A prefix of usable pipelines that cannot grow is the usable prefix.
proof fn lemma_usable_prefix(
    pipelines: Map<ResourceId, Pipeline>,
    leases: Seq<ResourceId>,
    generation: SessionGeneration,
    n: int,
)
    requires
        0 <= n <= leases.len(),
        forall|j: int| 0 <= j < n ==> can_use(lease_of(pipelines, #[trigger] leases[j], generation)),
        n < leases.len() ==> !can_use(lease_of(pipelines, leases[n], generation)),
    ensures
        usable_prefix(pipelines, leases, generation) == n,
    decreases leases.len(),
{
    if n > 0 {
        let rest = leases.drop_first();
        assert(can_use(lease_of(pipelines, leases[0], generation)));
        assert forall|j: int| 0 <= j < n - 1 implies can_use(
            lease_of(pipelines, #[trigger] rest[j], generation),
        ) by {
            assert(rest[j] == leases[j + 1]);
        }
        if n < leases.len() {
            assert(rest[n - 1] == leases[n]);
        }
        lemma_usable_prefix(pipelines, rest, generation, n - 1);
    }
}

/// A terminal state is left by no step, so a refused pipeline does not retry
/// and a deleted one is not resurrected.
pub proof fn a_terminal_pipeline_never_moves(state: PipelineState, next: PipelineState)
    requires
        state.terminal(),
    ensures
        !state.steps_to(next),
{
}

/// Ready is reached from compiling and from nowhere else.
pub proof fn no_pipeline_skips_to_ready(state: PipelineState)
    ensures
        state.steps_to(PipelineState::Ready) == (state is Compiling),
{
}

/// Every step leads onwards: none returns to an earlier state or stays.
pub proof fn no_step_goes_back(a: PipelineState, b: PipelineState)
    requires
        a.steps_to(b),
    ensures
        a != b,
        !b.steps_to(a),
        !(b is Declared),
{
}

/// What a transaction is held for is exactly what it binds and cannot use yet.
pub proof fn waits_are_the_unbuilt_bindings(
    pipelines: Map<ResourceId, Pipeline>,
    leases: Seq<ResourceId>,
    generation: SessionGeneration,
    id: ResourceId,
)
    requires
        waits_outcome(pipelines, leases, generation) is Ok,
    ensures
        waits_outcome(pipelines, leases, generation)->Ok_0.contains(id) == (leases.contains(id)
            && lease_of(pipelines, id, generation) is Pending),
{
    lemma_filter_contains(leases, |x: ResourceId| lease_of(pipelines, x, generation) is Pending, id);
}

proof fn lemma_filter_contains(s: Seq<ResourceId>, p: spec_fn(ResourceId) -> bool, id: ResourceId)
    ensures
        s.filter(p).contains(id) == (s.contains(id) && p(id)),
    decreases s.len(),
{
    reveal(Seq::filter);
    if s.len() > 0 {
        let init = s.drop_last();
        let all = s.filter(p);
        let some = init.filter(p);
        lemma_filter_contains(init, p, id);
        if all.contains(id) {
            let i = choose|i: int| 0 <= i < all.len() && all[i] == id;
            if i < some.len() {
                assert(some[i] == id);
                let j = choose|j: int| 0 <= j < init.len() && init[j] == id;
                assert(s[j] == id);
            } else {
                assert(s[s.len() - 1] == id);
            }
        }
        if s.contains(id) && p(id) {
            let j = choose|j: int| 0 <= j < s.len() && s[j] == id;
            if j < init.len() {
                assert(init[j] == id);
                let i = choose|i: int| 0 <= i < some.len() && some[i] == id;
                assert(all[i] == id);
            } else {
                assert(all[all.len() - 1] == id);
            }
        }
    }
}

/// A state is terminal exactly when no step leads out of it.
pub proof fn a_state_is_terminal_when_nothing_follows_it(state: PipelineState)
    ensures
        state.terminal() <==> forall|next: PipelineState| !(#[trigger] state.steps_to(next)),
{
    if !state.terminal() {
        assert(state.steps_to(PipelineState::Retired));
    }
}

/// A pipeline is built one state at a time, can be refused until it is ready
/// and deleted until it has ended.
pub proof fn a_pipeline_is_built_one_state_at_a_time(from: PipelineState, to: PipelineState)
    ensures
        from is Declared && to is Translating ==> from.steps_to(to),
        from is Translating && to is Compiling ==> from.steps_to(to),
        from is Compiling && to is Ready ==> from.steps_to(to),
        to is Refused ==> from.steps_to(to) == !(from is Ready || from is Refused
            || from is Retired),
        to is Retired ==> from.steps_to(to) == !(from is Refused || from is Retired),
        from.steps_to(to) && !(to is Refused) && !(to is Retired) ==> (from is Declared
            && to is Translating) || (from is Translating && to is Compiling) || (from is Compiling
            && to is Ready),
{
}

/// Work sees a pipeline of its own generation as far as it has come, and none
/// of another generation or one that was deleted.
pub proof fn a_lease_sees_a_pipeline_as_far_as_it_has_come(
    pipelines: Map<ResourceId, Pipeline>,
    id: ResourceId,
    generation: SessionGeneration,
)
    ensures
        ({
            let p = pipelines[id];
            let mine = pipelines.dom().contains(id) && p.generation.0 == generation.0;
            let lease = lease_of(pipelines, id, generation);
            &&& lease is Absent <==> !mine || p.state is Retired
            &&& lease is Ready <==> mine && p.state is Ready
            &&& lease is Refused <==> mine && p.state is Refused
            &&& lease is Pending <==> mine && (p.state is Declared || p.state is Translating
                || p.state is Compiling)
            &&& lease matches Lease::Refused(reason) ==> p.refusal is Some ==> p.refusal
                == Some(reason)
        }),
{
}

/// Work is admitted exactly when every pipeline it binds is ready or being
/// built. Otherwise it is refused for the first that is neither, by name, and
/// for the build's own reason where the build was refused.
pub proof fn work_is_refused_for_its_first_unusable_pipeline(
    pipelines: Map<ResourceId, Pipeline>,
    leases: Seq<ResourceId>,
    generation: SessionGeneration,
)
    ensures
        ({
            let usable = |i: int|
                lease_of(pipelines, leases[i], generation) is Ready || lease_of(
                    pipelines,
                    leases[i],
                    generation,
                ) is Pending;
            let n = usable_prefix(pipelines, leases, generation);
            &&& n <= leases.len()
            &&& forall|i: int| 0 <= i < n ==> #[trigger] usable(i)
            &&& waits_outcome(pipelines, leases, generation) is Ok <==> n == leases.len()
            &&& waits_outcome(pipelines, leases, generation) matches Err(e) ==> {
                &&& !usable(n as int)
                &&& match e {
                    LeaseRefusal::Refused { pipeline, reason } => pipeline == leases[n as int]
                        && lease_of(pipelines, pipeline, generation) == Lease::Refused(reason),
                    LeaseRefusal::Absent { pipeline } => pipeline == leases[n as int] && lease_of(
                        pipelines,
                        pipeline,
                        generation,
                    ) is Absent,
                }
            }
        }),
    decreases leases.len(),
{
    if leases.len() > 0 && can_use(lease_of(pipelines, leases[0], generation)) {
        let rest = leases.drop_first();
        work_is_refused_for_its_first_unusable_pipeline(pipelines, rest, generation);
        let n = usable_prefix(pipelines, leases, generation);
        let usable = |i: int|
            lease_of(pipelines, leases[i], generation) is Ready || lease_of(
                pipelines,
                leases[i],
                generation,
            ) is Pending;
        let later = |i: int|
            lease_of(pipelines, rest[i], generation) is Ready || lease_of(
                pipelines,
                rest[i],
                generation,
            ) is Pending;
        assert forall|i: int| 0 <= i < n implies #[trigger] usable(i) by {
            if i > 0 {
                assert(rest[i - 1] == leases[i]);
                assert(later(i - 1));
            }
        }
        if n < leases.len() {
            assert(rest[n - 1] == leases[n as int]);
            assert(waits_outcome(pipelines, rest, generation) is Err);
            assert(!later(n - 1));
        }
    }
}

/// A slot past a reflection's tables is not referenced; any other is used as
/// its table says.
pub proof fn a_slot_is_used_as_its_table_says(table: Seq<Option<AccessMode>>, slot: u32)
    ensures
        slot < table.len() ==> slot_usage(table, slot) == table[slot as int],
        slot >= table.len() ==> slot_usage(table, slot) is None,
        slot < table.len() && table[slot as int] is Some && !(table[slot as int]->0 is Read)
            ==> table_writes(table),
{
    if slot < table.len() && table[slot as int] is Some && !(table[slot as int]->0 is Read) {
        let i = slot as int;
        assert(table[i] is Some && table[i]->0.is_write());
    }
}

/// A table of reads writes nothing.
pub proof fn a_table_of_reads_writes_nothing(table: Seq<Option<AccessMode>>)
    requires
        forall|i: int|
            0 <= i < table.len() && (#[trigger] table[i]) is Some ==> table[i]->0 is Read,
    ensures
        !table_writes(table),
{
}

/// Where work can use every pipeline it binds, each lease is counted once: as
/// pending where the pipeline is still being built and as ready where it is
/// built.
pub proof fn every_lease_is_counted_once(
    counts: Census,
    pipelines: Map<ResourceId, Pipeline>,
    leases: Seq<ResourceId>,
    generation: SessionGeneration,
)
    requires
        waits_outcome(pipelines, leases, generation) is Ok,
        counts.leases_pending + leases.len() <= usize::MAX,
        counts.leases_ready + leases.len() <= usize::MAX,
    ensures
        ({
            let after = counts_after_leases(counts, pipelines, leases, generation);
            &&& after.leases_pending + after.leases_ready == counts.leases_pending
                + counts.leases_ready + leases.len()
            &&& after.leases_pending == counts.leases_pending + waits_outcome(
                pipelines,
                leases,
                generation,
            )->Ok_0.len()
            &&& after.declared == counts.declared && after.ready == counts.ready && after.refused
                == counts.refused && after.retired == counts.retired
        }),
{
    work_is_refused_for_its_first_unusable_pipeline(pipelines, leases, generation);
    assert(leases.take(leases.len() as int) =~= leases);
    let usable = |i: int|
        lease_of(pipelines, leases[i], generation) is Ready || lease_of(
            pipelines,
            leases[i],
            generation,
        ) is Pending;
    assert forall|i: int| 0 <= i < leases.len() implies can_use(
        lease_of(pipelines, #[trigger] leases[i], generation),
    ) by {
        assert(usable(i));
    }
    lemma_split_leases(pipelines, leases, generation);
}

proof fn lemma_split_leases(
    pipelines: Map<ResourceId, Pipeline>,
    leases: Seq<ResourceId>,
    generation: SessionGeneration,
)
    requires
        forall|i: int|
            0 <= i < leases.len() ==> can_use(
                lease_of(pipelines, #[trigger] leases[i], generation),
            ),
    ensures
        still_building(pipelines, leases, generation).len() + already_built(
            pipelines,
            leases,
            generation,
        ).len() == leases.len(),
    decreases leases.len(),
{
    reveal(Seq::filter);
    if leases.len() > 0 {
        let rest = leases.drop_last();
        assert forall|i: int| 0 <= i < rest.len() implies can_use(
            lease_of(pipelines, #[trigger] rest[i], generation),
        ) by {
            assert(rest[i] == leases[i]);
        }
        lemma_split_leases(pipelines, rest, generation);
        assert(leases[leases.len() - 1] == leases.last());
        assert(can_use(lease_of(pipelines, leases[leases.len() - 1], generation)));
    }
}

} // verus!
