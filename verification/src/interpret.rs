//! The serial reference interpreter: what the guest is owed, executed one
//! transaction at a time.
//!
//! What it produces is a trace, the ordered list of the things a guest could
//! observe: a stamp reaching a value, a content version becoming current, an
//! event advancing, a fence updated, a refusal. Anything else is an
//! implementation detail. Within one transaction the versions come before the
//! stamp: a guest that polled the stamp must not see the flag without the
//! bytes.

use vstd::prelude::*;
use crate::access::{AccessIntent, AccessKey, BackingId, ByteRange, ContentVersion};
use crate::content::{BackingContent, Census, ContentLedger, Replica};
use crate::exec::{
    ExecTransaction,
    Prerequisite,
    ResolvedOperation,
    StreamRecord,
    VersionPublication,
};
use crate::identity::{
    CompletionStamp,
    IngressOrdinal,
    ResourceId,
    SessionGeneration,
    StampSlot,
    StampValue,
};
use crate::sync::FenceKind;
use crate::table::Table;

verus! {

/// Something a guest could observe.
#[derive(Clone, Copy, Debug, PartialEq, Eq, Structural)]
pub enum Observation {
    /// A backing's content reached a version.
    VersionPublished { backing: BackingId, version: ContentVersion },
    /// A completion stamp reached a value.
    StampPublished { slot: StampSlot, value: StampValue },
    /// An event's value advanced.
    EventAdvanced { event: ResourceId, to: u64 },
    /// A fence was updated by the encoder that owns it.
    FenceUpdated { fence: ResourceId },
    /// A transaction could not run, with the reason.
    Refused { ingress: IngressOrdinal, reason: Refusal },
}

/// Why the interpreter would not run a transaction.
#[derive(Clone, Copy, Debug, PartialEq, Eq, Structural)]
pub enum Refusal {
    /// A prerequisite is not satisfied and, in a serial schedule, never will
    /// be: nothing is outstanding.
    UnmeetableWait,
    /// The transaction belongs to a generation that has closed.
    StaleGeneration,
}

impl Refusal {
    #[must_use]
    pub fn slug(self) -> (slug: &'static str)
        ensures
            slug@ == (match self {
                Refusal::UnmeetableWait => "interpret_unmeetable_wait"@,
                Refusal::StaleGeneration => "interpret_stale_generation"@,
            }),
    {
        match self {
            Refusal::UnmeetableWait => "interpret_unmeetable_wait",
            Refusal::StaleGeneration => "interpret_stale_generation",
        }
    }
}

/// What running one transaction did.
#[derive(Clone, Copy, Debug, PartialEq, Eq, Structural)]
pub enum Outcome {
    Ran,
    Refused(Refusal),
}

/// The byte range a write access covers, when it names one.
pub open spec fn bytes_named(key: AccessKey) -> Option<ByteRange> {
    match key {
        AccessKey::Range(_, range) => Some(range),
        _ => None,
    }
}

/// The byte range a write access covers, when it names one.
///
/// Relating image coordinates to bytes needs a layout, so a subresource write
/// moves no bytes and its effect is the version alone.
#[must_use]
pub fn written_bytes(key: AccessKey) -> (bytes: Option<ByteRange>)
    ensures
        bytes == bytes_named(key),
{
    match key {
        AccessKey::Range(_, range) => Some(range),
        _ => None,
    }
}

/// The bytes and the backing an access writes, if it produces content and names
/// bytes.
pub open spec fn write_of(access: AccessIntent) -> Option<(BackingId, ByteRange)> {
    match (access.output_content_version, access.key) {
        (Some(_), AccessKey::Range(key, range)) => Some((key.backing, range)),
        _ => None,
    }
}

/// The content once a transaction's writes landed.
pub open spec fn content_after(
    content: Map<BackingId, BackingContent>,
    accesses: Seq<AccessIntent>,
) -> Map<BackingId, BackingContent>
    decreases accesses.len(),
{
    if accesses.len() == 0 {
        content
    } else {
        let before = content_after(content, accesses.drop_last());
        match write_of(accesses.last()) {
            Some((backing, range)) => before.insert(
                backing,
                crate::content::content_at(before, backing).written(range.bytes(), Replica::DeviceOwned),
            ),
            None => before,
        }
    }
}

/// The ledger's counts once a transaction's writes landed.
pub open spec fn counts_after(counts: Census, accesses: Seq<AccessIntent>) -> Census
    decreases accesses.len(),
{
    if accesses.len() == 0 {
        counts
    } else {
        let before = counts_after(counts, accesses.drop_last());
        if write_of(accesses.last()) is Some {
            Census { writes: crate::content::counted(before.writes), ..before }
        } else {
            before
        }
    }
}

/// The observations of published versions.
pub open spec fn versions_seen(versions: Seq<VersionPublication>) -> Seq<Observation> {
    Seq::new(
        versions.len(),
        |i: int|
            Observation::VersionPublished {
                backing: versions[i].backing,
                version: versions[i].to,
            },
    )
}

/// The observation of a published stamp.
pub open spec fn stamp_seen(stamp: Option<CompletionStamp>) -> Seq<Observation> {
    match stamp {
        Some(s) => seq![Observation::StampPublished { slot: s.slot, value: s.value }],
        None => Seq::empty(),
    }
}

/// One more, stopping at the top of the word.
pub open spec fn next_usize(n: usize) -> usize {
    if n == usize::MAX { n } else { (n + 1) as usize }
}

/// The interpreter's state, mathematically.
#[verifier::ext_equal]
pub struct InterpreterModel {
    pub generation: SessionGeneration,
    pub content: Map<BackingId, BackingContent>,
    pub counts: Census,
    pub events: Map<ResourceId, u64>,
    pub fences: Map<ResourceId, u64>,
    pub stamps: Map<StampSlot, StampValue>,
    pub trace: Seq<Observation>,
    pub ran: usize,
    pub refused: usize,
}

impl InterpreterModel {
    /// Nothing has run, in the first generation.
    pub open spec fn fresh() -> InterpreterModel {
        InterpreterModel {
            generation: SessionGeneration(1),
            content: Map::empty(),
            counts: Census {
                writes: 0,
                transfers_planned: 0,
                transfer_bytes: 0,
                reads_already_fresh: 0,
            },
            events: Map::empty(),
            fences: Map::empty(),
            stamps: Map::empty(),
            trace: Seq::empty(),
            ran: 0,
            refused: 0,
        }
    }

    /// An event's value; zero before its first signal.
    pub open spec fn event_value(self, event: ResourceId) -> u64 {
        if self.events.dom().contains(event) {
            self.events[event]
        } else {
            0
        }
    }

    /// A prerequisite is satisfied.
    pub open spec fn met(self, p: Prerequisite) -> bool {
        match p {
            Prerequisite::Stamp(wait) => self.stamps.dom().contains(wait.slot)
                && !wait.value.is_after(self.stamps[wait.slot]),
            Prerequisite::Event { event, value } => self.event_value(event) >= value,
            Prerequisite::Fence { fence } => self.fences.dom().contains(fence),
        }
    }

    /// Every prerequisite is satisfied.
    pub open spec fn all_met(self, ps: Seq<Prerequisite>) -> bool {
        forall|i: int| 0 <= i < ps.len() ==> self.met(#[trigger] ps[i])
    }

    /// What a transaction is refused for, if anything.
    pub open spec fn refusal(self, tx: ExecTransaction) -> Option<Refusal> {
        if tx.session != self.generation {
            Some(Refusal::StaleGeneration)
        } else if !self.all_met(tx.prerequisites@) {
            Some(Refusal::UnmeetableWait)
        } else {
            None
        }
    }

    /// A record ran. Only a signal that advances its event and a fence update
    /// are observable.
    pub open spec fn applied(self, op: ResolvedOperation) -> InterpreterModel {
        match op {
            ResolvedOperation::Event(e) => if e.moves(self.event_value(e.event)) {
                InterpreterModel {
                    events: self.events.insert(e.event, e.value),
                    trace: self.trace.push(
                        Observation::EventAdvanced { event: e.event, to: e.value },
                    ),
                    ..self
                }
            } else {
                self
            },
            ResolvedOperation::Fence(f) => if f.kind is Update {
                InterpreterModel {
                    fences: self.fences.insert(
                        f.fence,
                        crate::identity::next_count(
                            if self.fences.dom().contains(f.fence) {
                                self.fences[f.fence]
                            } else {
                                0
                            },
                        ),
                    ),
                    trace: self.trace.push(Observation::FenceUpdated { fence: f.fence }),
                    ..self
                }
            } else {
                self
            },
            _ => self,
        }
    }

    /// Records ran, in order.
    pub open spec fn all_applied(self, records: Seq<StreamRecord>) -> InterpreterModel
        decreases records.len(),
    {
        if records.len() == 0 {
            self
        } else {
            self.all_applied(records.drop_last()).applied(records.last().op)
        }
    }

    /// A transaction's work ran: its records in order, then its writes, then
    /// its versions.
    pub open spec fn worked(self, tx: ExecTransaction) -> InterpreterModel {
        let m = self.all_applied(crate::exec::all_records(tx.streams@));
        InterpreterModel {
            content: content_after(self.content, tx.accesses@),
            counts: counts_after(self.counts, tx.accesses@),
            trace: m.trace + versions_seen(crate::exec::publications(tx.accesses@)),
            ran: next_usize(self.ran),
            ..m
        }
    }

    /// A stamp became readable, if there is one.
    pub open spec fn stamped(self, stamp: Option<CompletionStamp>) -> InterpreterModel {
        InterpreterModel {
            stamps: match stamp {
                Some(s) => self.stamps.insert(s.slot, s.value),
                None => self.stamps,
            },
            trace: self.trace + stamp_seen(stamp),
            ..self
        }
    }

    /// A transaction ran: its work, then its stamp.
    pub open spec fn completed(self, tx: ExecTransaction) -> InterpreterModel {
        self.worked(tx).stamped(tx.publication.stamp)
    }

    /// A transaction was refused.
    pub open spec fn turned_away(self, ingress: IngressOrdinal, reason: Refusal) -> InterpreterModel {
        InterpreterModel {
            trace: self.trace.push(Observation::Refused { ingress, reason }),
            refused: next_usize(self.refused),
            ..self
        }
    }

    /// What performing a transaction's work leaves.
    pub open spec fn performed(self, tx: ExecTransaction) -> InterpreterModel {
        match self.refusal(tx) {
            Some(reason) => self.turned_away(tx.ingress, reason),
            None => self.worked(tx),
        }
    }

    /// What handing the interpreter a transaction leaves.
    pub open spec fn after(self, tx: ExecTransaction) -> InterpreterModel {
        match self.refusal(tx) {
            Some(reason) => self.turned_away(tx.ingress, reason),
            None => self.completed(tx),
        }
    }
}

/// The serial reference interpreter. Holds the state a guest can observe and
/// nothing else.
#[derive(Debug)]
pub struct Interpreter {
    generation: SessionGeneration,
    content: ContentLedger,
    events: Table<ResourceId, u64>,
    fences: Table<ResourceId, u64>,
    stamps: Table<StampSlot, StampValue>,
    trace: Vec<Observation>,
    ran: usize,
    refused: usize,
}

impl View for Interpreter {
    type V = InterpreterModel;

    closed spec fn view(&self) -> InterpreterModel {
        InterpreterModel {
            generation: self.generation,
            content: self.content@,
            counts: self.content.counts(),
            events: self.events@,
            fences: self.fences@,
            stamps: self.stamps@,
            trace: self.trace@,
            ran: self.ran,
            refused: self.refused,
        }
    }
}

impl Default for Interpreter {
    fn default() -> (i: Interpreter)
        ensures
            i.wf(),
            i@ == InterpreterModel::fresh(),
    {
        Interpreter {
            generation: SessionGeneration::first(),
            content: ContentLedger::new(),
            events: Table::new(),
            fences: Table::new(),
            stamps: Table::new(),
            trace: Vec::new(),
            ran: 0,
            refused: 0,
        }
    }
}

impl Interpreter {
    pub closed spec fn wf(&self) -> bool {
        self.content.wf() && self.events.wf() && self.fences.wf() && self.stamps.wf()
    }

    #[must_use]
    pub fn new() -> (i: Self)
        ensures
            i.wf(),
            i@ == InterpreterModel::fresh(),
    {
        Interpreter::default()
    }

    /// The generation work must belong to.
    #[must_use]
    pub fn generation(&self) -> (g: SessionGeneration)
        ensures
            g == self@.generation,
    {
        self.generation
    }

    /// Open the next generation, as a reset does. What was published stays
    /// published; what changes is which work may run from here on.
    pub fn reset(&mut self)
        requires
            old(self).wf(),
        ensures
            final(self).wf(),
            final(self)@ == (InterpreterModel {
                generation: SessionGeneration(crate::identity::next_count(old(self)@.generation.0)),
                ..old(self)@
            }),
    {
        self.generation = self.generation.next();
    }

    /// The observation trace, in order.
    #[must_use]
    pub fn trace(&self) -> (trace: &[Observation])
        ensures
            trace@ == self@.trace,
    {
        self.trace.as_slice()
    }

    /// Give up the interpreter for its trace.
    #[must_use]
    pub fn into_trace(self) -> (trace: Vec<Observation>)
        ensures
            trace@ == self@.trace,
    {
        self.trace
    }

    /// The content ledger.
    #[must_use]
    pub fn content(&self) -> (ledger: &ContentLedger)
        requires
            self.wf(),
        ensures
            ledger.wf(),
            ledger@ == self@.content,
            ledger.counts() == self@.counts,
    {
        &self.content
    }

    /// The content ledger, for a caller declaring backings before a run.
    pub fn content_mut(&mut self) -> (ledger: &mut ContentLedger)
        requires
            old(self).wf(),
        ensures
            ledger.wf(),
            ledger@ == old(self)@.content,
            ledger.counts() == old(self)@.counts,
            final(ledger).wf() ==> final(self).wf(),
            final(self)@ == (InterpreterModel {
                content: final(ledger)@,
                counts: final(ledger).counts(),
                ..old(self)@
            }),
    {
        &mut self.content
    }

    /// The value an event has reached.
    #[must_use]
    pub fn event_generation(&self, event: ResourceId) -> (value: u64)
        requires
            self.wf(),
        ensures
            value == self@.event_value(event),
    {
        match self.events.get(event) {
            Some(value) => *value,
            None => 0,
        }
    }

    /// The value a stamp slot holds.
    #[must_use]
    pub fn stamp(&self, slot: StampSlot) -> (value: Option<StampValue>)
        requires
            self.wf(),
        ensures
            value == (if self@.stamps.dom().contains(slot) {
                Some(self@.stamps[slot])
            } else {
                None
            }),
    {
        match self.stamps.get(slot) {
            Some(value) => Some(*value),
            None => None,
        }
    }

    /// How many transactions ran and how many were refused.
    #[must_use]
    pub fn census(&self) -> (c: (usize, usize))
        ensures
            c == (self@.ran, self@.refused),
    {
        (self.ran, self.refused)
    }

    /// Run one transaction to completion.
    ///
    /// When this returns, the transaction's work is done and everything it
    /// publishes is visible.
    pub fn run(&mut self, tx: &ExecTransaction) -> (outcome: Outcome)
        requires
            old(self).wf(),
        ensures
            final(self).wf(),
            final(self)@ == old(self)@.after(*tx),
            outcome == (match old(self)@.refusal(*tx) {
                Some(reason) => Outcome::Refused(reason),
                None => Outcome::Ran,
            }),
    {
        let outcome = self.perform(tx);
        if outcome == Outcome::Ran {
            self.publish(tx.publication.stamp);
        }
        outcome
    }

    /// Run one transaction's work and publish its versions, leaving its stamp
    /// to the caller.
    pub fn perform(&mut self, tx: &ExecTransaction) -> (outcome: Outcome)
        requires
            old(self).wf(),
        ensures
            final(self).wf(),
            final(self)@ == old(self)@.performed(*tx),
            outcome == (match old(self)@.refusal(*tx) {
                Some(reason) => Outcome::Refused(reason),
                None => Outcome::Ran,
            }),
    {
        if tx.session != self.generation {
            return self.refuse(tx.ingress, Refusal::StaleGeneration);
        }
        if self.waits(&tx.prerequisites) {
            return self.refuse(tx.ingress, Refusal::UnmeetableWait);
        }
        let ghost before = self@;
        let records = tx.records();
        let mut i: usize = 0;
        while i < records.len()
            invariant
                self.wf(),
                i <= records@.len(),
                self@ == before.all_applied(records@.take(i as int)),
            decreases records.len() - i,
        {
            proof {
                assert(records@.take(i + 1).drop_last() =~= records@.take(i as int));
                assert(records@.take(i + 1).last() == records@[i as int]);
            }
            self.apply_record(&records[i].op);
            i = i + 1;
        }
        assert(records@.take(i as int) =~= records@);
        let ghost applied = self@;
        proof {
            lemma_applied_keeps(before, records@);
        }
        // Writes land before anything is published.
        let mut j: usize = 0;
        while j < tx.accesses.len()
            invariant
                self.wf(),
                j <= tx.accesses@.len(),
                self@ == (InterpreterModel {
                    content: content_after(applied.content, tx.accesses@.take(j as int)),
                    counts: counts_after(applied.counts, tx.accesses@.take(j as int)),
                    ..applied
                }),
            decreases tx.accesses.len() - j,
        {
            let access = tx.accesses[j];
            proof {
                assert(tx.accesses@.take(j + 1).drop_last() =~= tx.accesses@.take(j as int));
                assert(tx.accesses@.take(j + 1).last() == access);
            }
            if access.output_content_version.is_some() {
                match (written_bytes(access.key), access.key.resource()) {
                    (Some(bytes), Some(key)) => {
                        self.content.write(key.backing, bytes, Replica::DeviceOwned);
                    },
                    _ => {},
                }
            }
            j = j + 1;
        }
        assert(tx.accesses@.take(j as int) =~= tx.accesses@);
        let versions = tx.published_versions();
        let ghost written = self@;
        let mut k: usize = 0;
        while k < versions.len()
            invariant
                self.wf(),
                k <= versions@.len(),
                self@ == (InterpreterModel {
                    trace: written.trace + versions_seen(versions@.take(k as int)),
                    ..written
                }),
            decreases versions.len() - k,
        {
            let version = versions[k];
            self.trace.push(
                Observation::VersionPublished { backing: version.backing, version: version.to },
            );
            assert(self@.trace =~= written.trace + versions_seen(versions@.take(k + 1)));
            k = k + 1;
        }
        assert(versions@.take(k as int) =~= versions@);
        self.ran = self.ran.saturating_add(1);
        assert(self@.trace =~= before.worked(*tx).trace);
        assert(self@ =~= before.worked(*tx));
        Outcome::Ran
    }

    /// Make a completion stamp readable, if there is one.
    pub fn publish(&mut self, stamp: Option<CompletionStamp>)
        requires
            old(self).wf(),
        ensures
            final(self).wf(),
            final(self)@ == old(self)@.stamped(stamp),
    {
        match stamp {
            Some(stamp) => {
                self.stamps.insert(stamp.slot, stamp.value);
                self.trace.push(
                    Observation::StampPublished { slot: stamp.slot, value: stamp.value },
                );
            },
            None => {},
        }
        assert(self@ =~= old(self)@.stamped(stamp));
    }

    fn refuse(&mut self, ingress: IngressOrdinal, reason: Refusal) -> (outcome: Outcome)
        requires
            old(self).wf(),
        ensures
            final(self).wf(),
            final(self)@ == old(self)@.turned_away(ingress, reason),
            outcome == Outcome::Refused(reason),
    {
        self.refused = self.refused.saturating_add(1);
        self.trace.push(Observation::Refused { ingress, reason });
        Outcome::Refused(reason)
    }

    /// Whether a prerequisite is not satisfied.
    fn waits(&self, prerequisites: &Vec<Prerequisite>) -> (waits: bool)
        requires
            self.wf(),
        ensures
            waits == !self@.all_met(prerequisites@),
    {
        let mut i: usize = 0;
        while i < prerequisites.len()
            invariant
                self.wf(),
                i <= prerequisites@.len(),
                forall|j: int| 0 <= j < i ==> self@.met(#[trigger] prerequisites@[j]),
            decreases prerequisites.len() - i,
        {
            let met = match prerequisites[i] {
                Prerequisite::Stamp(wait) => match self.stamps.get(wait.slot) {
                    Some(published) => !wait.value.follows(*published),
                    None => false,
                },
                Prerequisite::Event { event, value } => self.event_generation(event) >= value,
                Prerequisite::Fence { fence } => self.fences.contains(fence),
            };
            if !met {
                assert(!self@.met(prerequisites@[i as int]));
                return true;
            }
            i = i + 1;
        }
        false
    }

    fn apply_record(&mut self, op: &ResolvedOperation)
        requires
            old(self).wf(),
        ensures
            final(self).wf(),
            final(self)@ == old(self)@.applied(*op),
    {
        match op {
            ResolvedOperation::Event(event) => {
                let current = self.event_generation(event.event);
                if event.advances(current) {
                    self.events.insert(event.event, event.value);
                    self.trace.push(
                        Observation::EventAdvanced { event: event.event, to: event.value },
                    );
                }
            },
            ResolvedOperation::Fence(fence) => match fence.kind {
                FenceKind::Update => {
                    let count = match self.fences.get(fence.fence) {
                        Some(n) => *n,
                        None => 0,
                    };
                    self.fences.insert(fence.fence, count.saturating_add(1));
                    self.trace.push(Observation::FenceUpdated { fence: fence.fence });
                },
                FenceKind::Wait => {},
            },
            // A barrier orders nothing in a schedule that is already serial, a
            // content directive is answered by whatever placement was chosen,
            // and a draw's memory effect is its declared participation.
            _ => {},
        }
    }
}

/// Running records leaves content, stamps and counts alone.
proof fn lemma_applied_keeps(m: InterpreterModel, records: Seq<StreamRecord>)
    ensures
        m.all_applied(records).content == m.content,
        m.all_applied(records).counts == m.counts,
        m.all_applied(records).stamps == m.stamps,
        m.all_applied(records).ran == m.ran,
        m.all_applied(records).refused == m.refused,
        m.all_applied(records).generation == m.generation,
        m.trace.is_prefix_of(m.all_applied(records).trace),
    decreases records.len(),
{
    if records.len() > 0 {
        lemma_applied_keeps(m, records.drop_last());
    }
}

/// Nothing a guest observed is taken back: the trace after a transaction begins
/// with the trace before it.
pub proof fn nothing_observed_is_taken_back(m: InterpreterModel, tx: ExecTransaction)
    ensures
        m.trace.is_prefix_of(m.after(tx).trace),
{
    lemma_applied_keeps(m, crate::exec::all_records(tx.streams@));
}

/// A transaction's stamp is the last thing it makes visible, after every
/// version it published.
pub proof fn versions_are_published_before_the_stamp(m: InterpreterModel, tx: ExecTransaction)
    requires
        m.refusal(tx) is None,
        tx.publication.stamp is Some,
    ensures
        m.after(tx).trace.len() > 0,
        m.after(tx).trace.last() == (Observation::StampPublished {
            slot: tx.publication.stamp->0.slot,
            value: tx.publication.stamp->0.value,
        }),
        forall|i: int|
            0 <= i < crate::exec::publications(tx.accesses@).len() ==> m.after(tx).trace.drop_last().contains(
                Observation::VersionPublished {
                    backing: (#[trigger] crate::exec::publications(tx.accesses@)[i]).backing,
                    version: crate::exec::publications(tx.accesses@)[i].to,
                },
            ),
{
    let records = m.all_applied(crate::exec::all_records(tx.streams@)).trace;
    let versions = crate::exec::publications(tx.accesses@);
    let trace = m.after(tx).trace;
    assert forall|i: int| 0 <= i < versions.len() implies trace.drop_last().contains(
        Observation::VersionPublished {
            backing: (#[trigger] versions[i]).backing,
            version: versions[i].to,
        },
    ) by {
        assert(trace.drop_last()[records.len() + i] == versions_seen(versions)[i]);
    }
}

/// A stamp that was published stays published: a transaction that carries none
/// for a slot leaves the slot alone, and a refused one leaves every slot alone.
pub proof fn a_published_stamp_stays(m: InterpreterModel, tx: ExecTransaction, slot: StampSlot)
    requires
        m.stamps.dom().contains(slot),
        m.refusal(tx) is Some || tx.publication.stamp is None || tx.publication.stamp->0.slot
            != slot,
    ensures
        m.after(tx).stamps.dom().contains(slot),
        m.after(tx).stamps[slot] == m.stamps[slot],
{
    lemma_applied_keeps(m, crate::exec::all_records(tx.streams@));
}

/// A refused transaction is observed, and changes nothing else a guest sees.
pub proof fn a_refusal_is_observed_and_changes_nothing(m: InterpreterModel, tx: ExecTransaction)
    requires
        m.refusal(tx) is Some,
    ensures
        m.after(tx).trace == m.trace.push(
            Observation::Refused { ingress: tx.ingress, reason: m.refusal(tx)->0 },
        ),
        m.after(tx).content == m.content,
        m.after(tx).events == m.events,
        m.after(tx).fences == m.fences,
        m.after(tx).stamps == m.stamps,
{
}

/// An event never goes backwards.
pub proof fn an_event_never_goes_backwards(
    m: InterpreterModel,
    tx: ExecTransaction,
    event: ResourceId,
)
    ensures
        m.after(tx).event_value(event) >= m.event_value(event),
{
    lemma_event_grows(m, crate::exec::all_records(tx.streams@), event);
}

proof fn lemma_event_grows(m: InterpreterModel, records: Seq<StreamRecord>, event: ResourceId)
    ensures
        m.all_applied(records).event_value(event) >= m.event_value(event),
    decreases records.len(),
{
    if records.len() > 0 {
        lemma_event_grows(m, records.drop_last(), event);
    }
}

/// Work from a closed generation is refused by name.
pub proof fn work_from_a_closed_generation_is_refused(m: InterpreterModel, tx: ExecTransaction)
    requires
        tx.session == m.generation,
        m.generation.0 < u64::MAX,
    ensures
        (InterpreterModel {
            generation: SessionGeneration(crate::identity::next_count(m.generation.0)),
            ..m
        }).refusal(tx) == Some(Refusal::StaleGeneration),
{
}

/// A transaction's writes leave exactly the bytes they name with the device
/// alone: a byte of a range some access produces is held there and not by the
/// guest, and any other byte is held as it was.
pub proof fn a_write_leaves_its_bytes_with_the_device(
    content: Map<BackingId, BackingContent>,
    accesses: Seq<AccessIntent>,
    backing: BackingId,
    at: u64,
)
    requires
        at < u64::MAX,
    ensures
        ({
            let after = content_after(content, accesses);
            let held = after.dom().contains(backing) && after[backing].device.contains(at as int);
            let stale = !(after.dom().contains(backing) && after[backing].guest.contains(
                at as int,
            ));
            let was_held = content.dom().contains(backing) && content[backing].device.contains(
                at as int,
            );
            let was_stale = !(content.dom().contains(backing) && content[backing].guest.contains(
                at as int,
            ));
            let written = exists|i: int|
                0 <= i < accesses.len() && produces_byte(#[trigger] accesses[i], backing, at);
            &&& written ==> held && stale
            &&& !written ==> held == was_held && stale == was_stale
        }),
    decreases accesses.len(),
{
    if accesses.len() > 0 {
        let rest = accesses.drop_last();
        a_write_leaves_its_bytes_with_the_device(content, rest, backing, at);
        let last = accesses[accesses.len() - 1];
        assert(last == accesses.last());
        if exists|i: int|
            0 <= i < rest.len() && produces_byte(#[trigger] rest[i], backing, at) {
            let i = choose|i: int|
                0 <= i < rest.len() && produces_byte(#[trigger] rest[i], backing, at);
            assert(accesses[i] == rest[i]);
        }
        if exists|i: int|
            0 <= i < accesses.len() && produces_byte(#[trigger] accesses[i], backing, at) {
            let i = choose|i: int|
                0 <= i < accesses.len() && produces_byte(#[trigger] accesses[i], backing, at);
            if i < rest.len() {
                assert(accesses[i] == rest[i]);
            }
        }
        if let Some((b, range)) = write_of(last) {
            assert(range.bytes().contains(at as int) == (range.offset <= at < range.offset
                + range.length));
            assert((b == backing && range.bytes().contains(at as int)) == produces_byte(
                last,
                backing,
                at,
            ));
        } else {
            assert(!produces_byte(last, backing, at));
        }
    }
}

/// The access produces content over the byte at `at` of a backing.
pub open spec fn produces_byte(access: AccessIntent, backing: BackingId, at: u64) -> bool {
    access.output_content_version is Some && (access.key matches AccessKey::Range(key, range)
        && key.backing == backing && range.offset <= at < range.offset + range.length)
}

/// A prerequisite is met by what was already observed: a stamp the slot has
/// passed, an event that has the value, a fence that was updated.
pub proof fn a_prerequisite_is_met_by_what_happened(m: InterpreterModel, p: Prerequisite)
    ensures
        p matches Prerequisite::Event { event, value } ==> (m.met(p) <==> value == 0
            || (m.events.dom().contains(event) && m.events[event] >= value)),
        p matches Prerequisite::Fence { fence } ==> (m.met(p) <==> m.fences.dom().contains(fence)),
        p matches Prerequisite::Stamp(wait) ==> {
            &&& m.met(p) ==> m.stamps.dom().contains(wait.slot)
            &&& m.stamps.dom().contains(wait.slot) && m.stamps[wait.slot].has_reached(wait.value)
                ==> m.met(p)
            &&& m.stamps.dom().contains(wait.slot) && wait.value.is_after(m.stamps[wait.slot])
                ==> !m.met(p)
        },
{
}

/// A transaction runs exactly when it is of this generation and nothing it
/// waits for is outstanding, and is counted as one that ran or as one that was
/// refused.
pub proof fn a_transaction_runs_or_is_refused(m: InterpreterModel, tx: ExecTransaction)
    requires
        m.ran < usize::MAX,
        m.refused < usize::MAX,
    ensures
        m.refusal(tx) is None <==> tx.session.0 == m.generation.0 && forall|i: int|
            0 <= i < tx.prerequisites@.len() ==> m.met(#[trigger] tx.prerequisites@[i]),
        (m.refusal(tx) matches Some(Refusal::StaleGeneration)) <==> tx.session.0 != m.generation.0,
        m.refusal(tx) is None ==> m.after(tx).ran == m.ran + 1 && m.after(tx).refused == m.refused,
        m.refusal(tx) is Some ==> m.after(tx).ran == m.ran && m.after(tx).refused == m.refused + 1,
        m.after(tx).generation == m.generation,
{
    lemma_applied_keeps(m, crate::exec::all_records(tx.streams@));
}

/// Once records ran, an event stands at or above every value they signalled.
pub proof fn an_event_reaches_every_signal(
    m: InterpreterModel,
    records: Seq<StreamRecord>,
    i: int,
)
    requires
        0 <= i < records.len(),
        records[i].op matches ResolvedOperation::Event(e) && e.kind is Signal,
    ensures
        records[i].op matches ResolvedOperation::Event(e) && m.all_applied(records).event_value(
            e.event,
        ) >= e.value,
    decreases records.len(),
{
    let rest = records.drop_last();
    if i < rest.len() {
        an_event_reaches_every_signal(m, rest, i);
    }
}

/// Records move an event only to a value one of them signals: it stands where
/// it stood, or at a signal's value.
pub proof fn an_event_moves_only_by_a_signal(
    m: InterpreterModel,
    records: Seq<StreamRecord>,
    event: ResourceId,
) -> (by: Option<int>)
    ensures
        match by {
            None => m.all_applied(records).event_value(event) == m.event_value(event),
            Some(i) => 0 <= i < records.len() && (records[i].op matches ResolvedOperation::Event(e)
                && e.kind is Signal && e.event == event && m.all_applied(records).event_value(event)
                == e.value),
        },
    decreases records.len(),
{
    if records.len() == 0 {
        None
    } else {
        let rest = records.drop_last();
        let by = an_event_moves_only_by_a_signal(m, rest, event);
        let before = m.all_applied(rest);
        if m.all_applied(records).event_value(event) != before.event_value(event) {
            Some(records.len() - 1)
        } else {
            by
        }
    }
}

/// A fence is there once a record updated it, and not before.
pub proof fn a_fence_is_there_once_it_was_updated(
    m: InterpreterModel,
    records: Seq<StreamRecord>,
    fence: ResourceId,
)
    ensures
        m.all_applied(records).fences.dom().contains(fence) <==> m.fences.dom().contains(fence)
            || exists|i: int| 0 <= i < records.len() && updates(#[trigger] records[i], fence),
    decreases records.len(),
{
    if records.len() > 0 {
        let rest = records.drop_last();
        a_fence_is_there_once_it_was_updated(m, rest, fence);
        let last = records[records.len() - 1];
        assert(last == records.last());
        if exists|i: int| 0 <= i < rest.len() && updates(#[trigger] rest[i], fence) {
            let i = choose|i: int| 0 <= i < rest.len() && updates(#[trigger] rest[i], fence);
            assert(records[i] == rest[i]);
        }
        if exists|i: int| 0 <= i < records.len() && updates(#[trigger] records[i], fence) {
            let i = choose|i: int| 0 <= i < records.len() && updates(#[trigger] records[i], fence);
            if i < rest.len() {
                assert(records[i] == rest[i]);
            }
        }
    }
}

/// The record updates the fence.
pub open spec fn updates(record: StreamRecord, fence: ResourceId) -> bool {
    record.op matches ResolvedOperation::Fence(f) && f.kind is Update && f.fence == fence
}

/// Each fence update and each signal that moves its event is one observation,
/// in the order the records ran, and no other record is one.
pub proof fn a_record_shows_what_it_moved(m: InterpreterModel, op: ResolvedOperation)
    ensures
        ({
            let after = m.applied(op);
            let moved = match op {
                ResolvedOperation::Event(e) => e.kind is Signal && e.value > m.event_value(e.event),
                ResolvedOperation::Fence(f) => f.kind is Update,
                _ => false,
            };
            &&& !moved ==> after == m
            &&& moved ==> after.trace.len() == m.trace.len() + 1 && after.trace.drop_last()
                == m.trace
            &&& moved ==> match op {
                ResolvedOperation::Event(e) => after.trace.last() == (Observation::EventAdvanced {
                    event: e.event,
                    to: e.value,
                }),
                ResolvedOperation::Fence(f) => after.trace.last() == (Observation::FenceUpdated {
                    fence: f.fence,
                }),
                _ => false,
            }
        }),
{
    let after = m.applied(op);
    if after.trace.len() == m.trace.len() + 1 {
        assert(after.trace.drop_last() =~= m.trace);
    }
}

/// A transaction's stamp is what its slot holds afterwards.
pub proof fn a_run_transaction_leaves_its_stamp(m: InterpreterModel, tx: ExecTransaction)
    requires
        m.refusal(tx) is None,
    ensures
        tx.publication.stamp matches Some(s) ==> m.after(tx).stamps.dom().contains(s.slot)
            && m.after(tx).stamps[s.slot] == s.value,
        tx.publication.stamp is None ==> m.after(tx).stamps == m.stamps,
{
    lemma_applied_keeps(m, crate::exec::all_records(tx.streams@));
}

} // verus!
