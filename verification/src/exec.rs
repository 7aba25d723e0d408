//! The command-stream transaction: everything one accepted packet means,
//! frozen.
//!
//! [`ExecBuilder`] consumes itself to produce an [`ExecTransaction`], which has
//! no mutating method, so what a packet touches has one answer for the whole
//! life of the work. The variable-length parts of its records live in arenas on
//! the transaction and the operations name windows of them.

use vstd::prelude::*;
use crate::access::{AccessIntent, AccessKey, BackingId, ContentVersion, Participation};
use crate::bind::{BufferBinding, ObjectBinding};
use crate::blit::BlitOp;
use crate::compute::ComputeOp;
use crate::icb::IcbOp;
use crate::identity::{
    ChannelId, ChannelSequence, CompletionStamp, IngressOrdinal, ResourceId, SessionGeneration,
    StampWait,
};
use crate::operation::OperationClass;
use crate::pass::PassDescriptor;
use crate::render::RenderOp;
use crate::resource_state::ResourceStateOp;
use crate::stream::{
    EncoderBoundary, ProtectionOptions, SegmentBegin, SegmentKind, SegmentRole, StreamCursor,
    StreamPosition, StreamRefusal, StreamState,
};
use crate::sync::{BarrierOp, EventOp, FenceOp};
use crate::table::TableKey;

verus! {

/// One resolved operation, in the class the vocabulary put it in.
#[derive(Clone, Copy, Debug, PartialEq, Eq, Structural)]
pub enum ResolvedOperation {
    EncoderBoundary(EncoderBoundary),
    Render(RenderOp),
    Compute(ComputeOp),
    Blit(BlitOp),
    Event(EventOp),
    Fence(FenceOp),
    Barrier(BarrierOp),
    ResourceState(ResourceStateOp),
    IndirectCommand(IcbOp),
}

impl ResolvedOperation {
    /// The vocabulary class this operation belongs to.
    pub open spec fn in_class(self) -> OperationClass {
        match self {
            ResolvedOperation::EncoderBoundary(_) => OperationClass::EncoderBoundary,
            ResolvedOperation::Render(_) => OperationClass::Render,
            ResolvedOperation::Compute(_) => OperationClass::Compute,
            ResolvedOperation::Blit(_) => OperationClass::Blit,
            ResolvedOperation::Event(_) => OperationClass::Event,
            ResolvedOperation::Fence(_) => OperationClass::Fence,
            ResolvedOperation::Barrier(_) => OperationClass::Barrier,
            ResolvedOperation::ResourceState(_) => OperationClass::ResourceState,
            ResolvedOperation::IndirectCommand(_) => OperationClass::IndirectCommand,
        }
    }

    #[must_use]
    pub fn class(&self) -> (class: OperationClass)
        ensures
            class == self.in_class(),
    {
        match self {
            ResolvedOperation::EncoderBoundary(_) => OperationClass::EncoderBoundary,
            ResolvedOperation::Render(_) => OperationClass::Render,
            ResolvedOperation::Compute(_) => OperationClass::Compute,
            ResolvedOperation::Blit(_) => OperationClass::Blit,
            ResolvedOperation::Event(_) => OperationClass::Event,
            ResolvedOperation::Fence(_) => OperationClass::Fence,
            ResolvedOperation::Barrier(_) => OperationClass::Barrier,
            ResolvedOperation::ResourceState(_) => OperationClass::ResourceState,
            ResolvedOperation::IndirectCommand(_) => OperationClass::IndirectCommand,
        }
    }

    /// What this record touches by itself, against a transaction's pass
    /// descriptors.
    ///
    /// Writing a pass descriptor contributes what the pass costs before any
    /// draw, which only the arena can say; a slot past its end contributes
    /// nothing. Boundaries, fences, events and barriers name no memory.
    pub open spec fn footprint(self, passes: Seq<PassDescriptor>) -> Seq<Participation> {
        match self {
            ResolvedOperation::Render(RenderOp::WriteDescriptor { descriptor }) => if descriptor.0
                < passes.len() {
                passes[descriptor.0 as int].footprint()
            } else {
                Seq::empty()
            },
            ResolvedOperation::Blit(op) => op.footprint(),
            ResolvedOperation::ResourceState(op) => op.footprint(),
            ResolvedOperation::IndirectCommand(op) => op.footprint(),
            _ => Seq::empty(),
        }
    }

    /// Append every participation this record declares by itself.
    pub fn participations(&self, arenas: &ExecArenas, out: &mut Vec<Participation>)
        ensures
            final(out)@ == old(out)@ + self.footprint(arenas.pass_descriptors@),
    {
        match self {
            ResolvedOperation::Render(RenderOp::WriteDescriptor { descriptor }) => {
                let at = descriptor.0 as usize;
                if at < arenas.pass_descriptors.len() {
                    arenas.pass_descriptors[at].extend_participations(out);
                }
            },
            ResolvedOperation::Blit(op) => op.participations(out),
            ResolvedOperation::ResourceState(op) => op.participations(out),
            ResolvedOperation::IndirectCommand(op) => op.participations(out),
            ResolvedOperation::Render(RenderOp::SetPipeline { .. })
            | ResolvedOperation::EncoderBoundary(_)
            | ResolvedOperation::Compute(_)
            | ResolvedOperation::Event(_)
            | ResolvedOperation::Fence(_)
            | ResolvedOperation::Barrier(_) => {},
        }
        assert(out@ =~= old(out)@ + self.footprint(arenas.pass_descriptors@));
    }

    /// What recording this operation in a stream is refused for.
    ///
    /// A class that belongs to one rail is checked against the open encoder's;
    /// a class that exists on more than one is accepted by an encoder that
    /// carries it.
    pub open spec fn refusal_in(self, stream: StreamState) -> Option<StreamRefusal> {
        match self.in_class().sole_rail() {
            Some(rail) => stream.record_refusal(rail),
            None => match stream.open {
                None => Some(StreamRefusal::RecordOutsideEncoder),
                Some(kind) => if self.in_class().carried_by(kind) {
                    None
                } else {
                    Some(StreamRefusal::RailMismatch { segment: kind, record: kind.own_rail() })
                },
            },
        }
    }
}

/// One record, and where it sits.
#[derive(Clone, Copy, Debug, PartialEq, Eq, Structural)]
pub struct StreamRecord {
    pub at: StreamPosition,
    pub op: ResolvedOperation,
}

/// One encoder's worth of resolved records.
#[derive(Debug, PartialEq, Eq)]
pub struct ResolvedStream {
    pub begin: SegmentBegin,
    pub records: Vec<StreamRecord>,
}

impl ResolvedStream {
    #[must_use]
    pub fn kind(&self) -> (kind: SegmentKind)
        ensures
            kind == self.begin.kind,
    {
        self.begin.kind
    }
}

/// A content version a transaction makes current, and exactly the memory it
/// covers.
///
/// Read off the write access that produces it, so the two cannot disagree about
/// the region.
#[derive(Clone, Copy, Debug, PartialEq, Eq, Structural)]
pub struct VersionPublication {
    pub backing: BackingId,
    /// Exactly the memory the producing access named.
    pub region: AccessKey,
    pub to: ContentVersion,
}

/// Something a transaction must wait for that is not a hazard edge.
///
/// Hazard edges always point backwards in arrival order. These do not: a guest
/// may wait for a stamp or an event value nothing has produced yet.
#[derive(Clone, Copy, Debug, PartialEq, Eq, Structural)]
pub enum Prerequisite {
    /// A completion-stamp point.
    Stamp(StampWait),
    /// An event value.
    Event { event: ResourceId, value: u64 },
    /// A fence another encoder updates.
    Fence { fence: ResourceId },
}

/// What a transaction makes visible when its work completes.
#[derive(Clone, Copy, Debug, PartialEq, Eq, Structural)]
pub struct PublicationContract {
    /// The stamp the guest polls, if this packet carries one.
    pub stamp: Option<CompletionStamp>,
}

impl Default for PublicationContract {
    fn default() -> (p: PublicationContract)
        ensures
            p.stamp is None,
    {
        PublicationContract { stamp: None }
    }
}

/// The variable-length parts of a packet's records, one arena per entry shape.
#[derive(Debug, PartialEq, Eq)]
pub struct ExecArenas {
    pub buffer_bindings: Vec<BufferBinding>,
    pub object_bindings: Vec<ObjectBinding>,
    /// Resources named by a barrier's counted list.
    pub resources: Vec<ResourceId>,
    pub pass_descriptors: Vec<PassDescriptor>,
}

impl ExecArenas {
    /// Nothing is filed.
    pub open spec fn is_blank(&self) -> bool {
        self.buffer_bindings@.len() == 0 && self.object_bindings@.len() == 0
            && self.resources@.len() == 0 && self.pass_descriptors@.len() == 0
    }
}

impl Default for ExecArenas {
    fn default() -> (a: ExecArenas)
        ensures
            a.is_blank(),
    {
        ExecArenas {
            buffer_bindings: Vec::new(),
            object_bindings: Vec::new(),
            resources: Vec::new(),
            pass_descriptors: Vec::new(),
        }
    }
}

/// The version an access publishes, if it produces one and names memory.
pub open spec fn publication_of(access: AccessIntent) -> Option<VersionPublication> {
    match (access.output_content_version, access.key.resource_key()) {
        (Some(to), Some(key)) => Some(
            VersionPublication { backing: key.backing, region: access.key, to },
        ),
        _ => None,
    }
}

/// The versions a list of accesses publishes, in order.
pub open spec fn publications(accesses: Seq<AccessIntent>) -> Seq<VersionPublication>
    decreases accesses.len(),
{
    if accesses.len() == 0 {
        Seq::empty()
    } else {
        let before = publications(accesses.drop_last());
        match publication_of(accesses.last()) {
            Some(p) => before.push(p),
            None => before,
        }
    }
}

/// The records of several streams, in execution order.
pub open spec fn all_records(streams: Seq<ResolvedStream>) -> Seq<StreamRecord>
    decreases streams.len(),
{
    if streams.len() == 0 {
        Seq::empty()
    } else {
        all_records(streams.drop_last()) + streams.last().records@
    }
}

/// Every record stands where its position says: which stream, and which record
/// of it.
pub open spec fn positioned(streams: Seq<ResolvedStream>) -> bool {
    forall|i: int, j: int| #![trigger streams[i].records@[j]]
        0 <= i < streams.len() && 0 <= j < streams[i].records@.len() ==> streams[i].records@[j].at.segment
            == i && streams[i].records@[j].at.record == j
}

/// One accepted packet, resolved and frozen.
#[derive(Debug, PartialEq, Eq)]
pub struct ExecTransaction {
    pub session: SessionGeneration,
    /// The submission ordering domain.
    pub domain: ChannelId,
    pub domain_sequence: ChannelSequence,
    pub ingress: IngressOrdinal,
    pub streams: Vec<ResolvedStream>,
    /// Everything this transaction touches, at the precision the records
    /// supplied.
    pub accesses: Vec<AccessIntent>,
    pub pipeline_leases: Vec<ResourceId>,
    pub prerequisites: Vec<Prerequisite>,
    pub publication: PublicationContract,
    pub arenas: ExecArenas,
}

impl ExecTransaction {
    /// Every record, in execution order.
    #[must_use]
    pub fn records(&self) -> (records: Vec<StreamRecord>)
        ensures
            records@ == all_records(self.streams@),
    {
        let mut records: Vec<StreamRecord> = Vec::new();
        let mut i: usize = 0;
        while i < self.streams.len()
            invariant
                i <= self.streams@.len(),
                records@ == all_records(self.streams@.take(i as int)),
            decreases self.streams.len() - i,
        {
            let stream = &self.streams[i];
            proof {
                assert(self.streams@.take(i + 1).drop_last() =~= self.streams@.take(i as int));
                assert(self.streams@.take(i + 1).last() == self.streams@[i as int]);
            }
            let ghost before = records@;
            let mut j: usize = 0;
            while j < stream.records.len()
                invariant
                    j <= stream.records@.len(),
                    records@ == before + stream.records@.take(j as int),
                decreases stream.records.len() - j,
            {
                records.push(stream.records[j]);
                j = j + 1;
                assert(records@ =~= before + stream.records@.take(j as int));
            }
            assert(stream.records@.take(j as int) =~= stream.records@);
            i = i + 1;
        }
        assert(self.streams@.take(i as int) =~= self.streams@);
        records
    }

    /// The content versions this transaction makes current: one per access that
    /// declared an output version and names memory.
    #[must_use]
    pub fn published_versions(&self) -> (versions: Vec<VersionPublication>)
        ensures
            versions@ == publications(self.accesses@),
    {
        let mut versions: Vec<VersionPublication> = Vec::new();
        let mut i: usize = 0;
        while i < self.accesses.len()
            invariant
                i <= self.accesses@.len(),
                versions@ == publications(self.accesses@.take(i as int)),
            decreases self.accesses.len() - i,
        {
            let access = self.accesses[i];
            proof {
                assert(self.accesses@.take(i + 1).drop_last() =~= self.accesses@.take(i as int));
                assert(self.accesses@.take(i + 1).last() == access);
            }
            match (access.output_content_version, access.key.resource()) {
                (Some(to), Some(key)) => {
                    versions.push(
                        VersionPublication { backing: key.backing, region: access.key, to },
                    );
                },
                _ => {},
            }
            i = i + 1;
        }
        assert(self.accesses@.take(i as int) =~= self.accesses@);
        versions
    }

    /// How many records this packet carries.
    #[must_use]
    pub fn record_count(&self) -> (n: usize)
        ensures
            n == all_records(self.streams@).len(),
    {
        self.records().len()
    }

    /// The transaction writes something.
    pub open spec fn is_writer(&self) -> bool {
        exists|i: int| 0 <= i < self.accesses@.len() && (#[trigger] self.accesses@[i]).mode.is_write()
    }

    /// Whether this transaction writes anything at all. One that does not
    /// cannot be the producer half of a hazard.
    #[must_use]
    pub fn writes_anything(&self) -> (writes: bool)
        ensures
            writes == self.is_writer(),
    {
        let mut i: usize = 0;
        while i < self.accesses.len()
            invariant
                i <= self.accesses@.len(),
                forall|j: int| 0 <= j < i ==> !(#[trigger] self.accesses@[j]).mode.is_write(),
            decreases self.accesses.len() - i,
        {
            if self.accesses[i].mode.writes() {
                assert(self.accesses@[i as int].mode.is_write());
                return true;
            }
            i = i + 1;
        }
        false
    }
}

/// Builds one [`ExecTransaction`], and refuses the shapes that cannot execute.
///
/// The segment and encoder rules are its [`StreamCursor`]'s and reach the
/// caller unchanged.
#[derive(Debug)]
pub struct ExecBuilder {
    cursor: StreamCursor,
    session: SessionGeneration,
    domain: ChannelId,
    domain_sequence: ChannelSequence,
    ingress: IngressOrdinal,
    streams: Vec<ResolvedStream>,
    open: Option<ResolvedStream>,
    accesses: Vec<AccessIntent>,
    pipeline_leases: Vec<ResourceId>,
    prerequisites: Vec<Prerequisite>,
    publication: PublicationContract,
    arenas: ExecArenas,
}

/// One encoder's records, mathematically.
#[verifier::ext_equal]
pub struct StreamModel {
    pub begin: SegmentBegin,
    pub records: Seq<StreamRecord>,
}

impl View for ResolvedStream {
    type V = StreamModel;

    open spec fn view(&self) -> StreamModel {
        StreamModel { begin: self.begin, records: self.records@ }
    }
}

/// What several streams are, mathematically.
pub open spec fn streams_of(streams: Seq<ResolvedStream>) -> Seq<StreamModel> {
    Seq::new(streams.len(), |i: int| streams[i]@)
}

/// A transaction being built, mathematically.
#[verifier::ext_equal]
pub struct BuilderModel {
    pub session: SessionGeneration,
    pub domain: ChannelId,
    pub domain_sequence: ChannelSequence,
    pub ingress: IngressOrdinal,
    /// Where the stream is.
    pub stream: StreamState,
    /// The encoders that ended.
    pub streams: Seq<StreamModel>,
    /// The encoder that is open.
    pub open: Option<StreamModel>,
    pub accesses: Seq<AccessIntent>,
    pub leases: Seq<ResourceId>,
    pub prerequisites: Seq<Prerequisite>,
    pub stamp: Option<CompletionStamp>,
}

impl BuilderModel {
    /// A packet with nothing in it yet.
    pub open spec fn start(
        session: SessionGeneration,
        domain: ChannelId,
        domain_sequence: ChannelSequence,
        ingress: IngressOrdinal,
    ) -> BuilderModel {
        BuilderModel {
            session,
            domain,
            domain_sequence,
            ingress,
            stream: StreamState::start(),
            streams: Seq::empty(),
            open: None,
            accesses: Seq::empty(),
            leases: Seq::empty(),
            prerequisites: Seq::empty(),
            stamp: None,
        }
    }

    /// The streams are what the cursor counted, and every record stands where
    /// its position says.
    pub open spec fn wf(self) -> bool {
        &&& self.stream.wf()
        &&& self.streams.len() == self.stream.next.segment
        &&& (self.open is Some) == (self.stream.open is Some)
        &&& self.open matches Some(s) ==> self.stream.open == Some(s.begin.kind)
            && s.records.len() == self.stream.next.record && (forall|j: int|
            0 <= j < s.records.len() ==> (#[trigger] s.records[j]).at.segment
                == self.streams.len() && s.records[j].at.record == j)
        &&& forall|i: int, j: int| #![trigger self.streams[i].records[j]]
            0 <= i < self.streams.len() && 0 <= j < self.streams[i].records.len()
                ==> self.streams[i].records[j].at.segment == i && self.streams[i].records[j].at.record
                == j
    }

    /// A record was accepted.
    pub open spec fn recorded(self, op: ResolvedOperation) -> BuilderModel {
        BuilderModel {
            stream: self.stream.recorded(),
            open: match self.open {
                Some(s) => Some(
                    StreamModel {
                        begin: s.begin,
                        records: s.records.push(StreamRecord { at: self.stream.next, op }),
                    },
                ),
                None => None,
            },
            ..self
        }
    }

    /// The open encoder ended.
    pub open spec fn ended(self) -> BuilderModel {
        BuilderModel {
            stream: self.stream.ended(),
            streams: match self.open {
                Some(s) => self.streams.push(s),
                None => self.streams,
            },
            open: None,
            ..self
        }
    }

    /// A pipeline was leased; once, however often it is bound.
    pub open spec fn leased(self, pipeline: ResourceId) -> BuilderModel {
        if self.leases.contains(pipeline) {
            self
        } else {
            BuilderModel { leases: self.leases.push(pipeline), ..self }
        }
    }
}

/// The transaction is what the builder had gathered.
pub open spec fn frozen_from(tx: ExecTransaction, b: BuilderModel) -> bool {
    &&& tx.session == b.session
    &&& tx.domain == b.domain
    &&& tx.domain_sequence == b.domain_sequence
    &&& tx.ingress == b.ingress
    &&& streams_of(tx.streams@) == b.streams
    &&& tx.accesses@ == b.accesses
    &&& tx.pipeline_leases@ == b.leases
    &&& tx.prerequisites@ == b.prerequisites
    &&& tx.publication.stamp == b.stamp
}

impl View for ExecBuilder {
    type V = BuilderModel;

    closed spec fn view(&self) -> BuilderModel {
        BuilderModel {
            session: self.session,
            domain: self.domain,
            domain_sequence: self.domain_sequence,
            ingress: self.ingress,
            stream: self.cursor@,
            streams: streams_of(self.streams@),
            open: match self.open {
                Some(s) => Some(s@),
                None => None,
            },
            accesses: self.accesses@,
            leases: self.pipeline_leases@,
            prerequisites: self.prerequisites@,
            stamp: self.publication.stamp,
        }
    }
}

impl ExecBuilder {
    /// What is filed in the arenas.
    pub closed spec fn filed(&self) -> ExecArenas {
        self.arenas
    }

    pub open spec fn wf(&self) -> bool {
        self@.wf()
    }

    #[must_use]
    pub fn new(
        session: SessionGeneration,
        domain: ChannelId,
        domain_sequence: ChannelSequence,
        ingress: IngressOrdinal,
    ) -> (b: Self)
        ensures
            b.wf(),
            b@ == BuilderModel::start(session, domain, domain_sequence, ingress),
            b.filed().is_blank(),
    {
        let b = ExecBuilder {
            cursor: StreamCursor::new(),
            session,
            domain,
            domain_sequence,
            ingress,
            streams: Vec::new(),
            open: None,
            accesses: Vec::new(),
            pipeline_leases: Vec::new(),
            prerequisites: Vec::new(),
            publication: PublicationContract::default(),
            arenas: ExecArenas::default(),
        };
        assert(b@ =~= BuilderModel::start(session, domain, domain_sequence, ingress));
        b
    }

    /// The arenas, so a resolver can file variable-length entries and name the
    /// window it filed them at.
    pub fn arenas_mut(&mut self) -> (arenas: &mut ExecArenas)
        ensures
            *arenas == old(self).filed(),
            final(self).filed() == *final(arenas),
            final(self)@ == old(self)@,
    {
        &mut self.arenas
    }

    /// A protection envelope armed the next segment.
    pub fn protection_envelope(&mut self, options: ProtectionOptions) -> (r: Result<
        (),
        StreamRefusal,
    >)
        requires
            old(self).wf(),
        ensures
            final(self).wf(),
            final(self).filed() == old(self).filed(),
            match old(self)@.stream.envelope_refusal() {
                Some(e) => r == Err::<(), StreamRefusal>(e) && final(self)@ == old(self)@,
                None => r is Ok && final(self)@ == (BuilderModel {
                    stream: StreamState { armed: Some(options), ..old(self)@.stream },
                    ..old(self)@
                }),
            },
    {
        self.cursor.protection_envelope(options)
    }

    /// Open an encoder. `role` is what the segment's type byte was found to
    /// mean.
    pub fn begin_segment(&mut self, wire_type: u8, role: Option<SegmentRole>, flag: bool) -> (r:
        Result<(), StreamRefusal>)
        requires
            old(self).wf(),
        ensures
            final(self).wf(),
            final(self).filed() == old(self).filed(),
            match old(self)@.stream.begin_refusal(wire_type, role) {
                Some(e) => r == Err::<(), StreamRefusal>(e) && final(self)@ == old(self)@,
                None => role matches Some(SegmentRole::Encoder(kind)) && r is Ok && final(self)@
                    == (BuilderModel {
                    stream: old(self)@.stream.begun(kind),
                    open: Some(
                        StreamModel {
                            begin: SegmentBegin {
                                kind,
                                flag,
                                protection: old(self)@.stream.armed,
                            },
                            records: Seq::empty(),
                        },
                    ),
                    ..old(self)@
                }),
            },
    {
        match self.cursor.begin(wire_type, role, flag) {
            Err(e) => Err(e),
            Ok((_, begin)) => {
                let stream = ResolvedStream { begin, records: Vec::new() };
                assert(stream@.records =~= Seq::<StreamRecord>::empty());
                self.open = Some(stream);
                Ok(())
            },
        }
    }

    /// Record one resolved operation inside the open encoder.
    ///
    /// The rail is the operation's own and not passed alongside it, so a
    /// compute payload cannot be handed in under a render rail.
    pub fn record(&mut self, op: ResolvedOperation) -> (r: Result<StreamPosition, StreamRefusal>)
        requires
            old(self).wf(),
            old(self)@.stream.next.record < u32::MAX,
        ensures
            final(self).wf(),
            final(self).filed() == old(self).filed(),
            match op.refusal_in(old(self)@.stream) {
                Some(e) => r == Err::<StreamPosition, StreamRefusal>(e) && final(self)@ == old(self)@,
                None => r == Ok::<StreamPosition, StreamRefusal>(old(self)@.stream.next) && final(self)@ == old(self)@.recorded(op),
            },
    {
        let rail = match op.class().rail() {
            Some(rail) => rail,
            None => {
                let kind = match self.cursor.open_encoder() {
                    Some(kind) => kind,
                    None => {
                        return Err(StreamRefusal::RecordOutsideEncoder);
                    },
                };
                if !op.class().admissible_on(kind) {
                    return Err(
                        StreamRefusal::RailMismatch { segment: kind, record: kind.rail() },
                    );
                }
                kind.rail()
            },
        };
        match self.cursor.record(rail) {
            Err(e) => Err(e),
            Ok(at) => {
                let mut open = self.open.take();
                match &mut open {
                    Some(stream) => {
                        stream.records.push(StreamRecord { at, op });
                    },
                    None => {},
                }
                self.open = open;
                assert(self@ =~= old(self)@.recorded(op));
                Ok(at)
            },
        }
    }

    /// Close the open encoder.
    pub fn end_segment(&mut self) -> (r: Result<EncoderBoundary, StreamRefusal>)
        requires
            old(self).wf(),
            old(self)@.stream.next.segment < u32::MAX,
        ensures
            final(self).wf(),
            final(self).filed() == old(self).filed(),
            match old(self)@.open {
                None => r == Err::<EncoderBoundary, StreamRefusal>(StreamRefusal::EndWithoutBegin)
                    && final(self)@ == old(self)@,
                Some(s) => r == Ok::<EncoderBoundary, StreamRefusal>(
                    EncoderBoundary::End { records: s.records.len() as u32 },
                ) && final(self)@ == old(self)@.ended(),
            },
    {
        let ghost before = self.streams@;
        match self.cursor.end() {
            Err(e) => Err(e),
            Ok(boundary) => {
                match self.open.take() {
                    Some(stream) => {
                        self.streams.push(stream);
                        assert(streams_of(self.streams@) =~= streams_of(before).push(stream@));
                    },
                    None => {},
                }
                assert(self@ =~= old(self)@.ended());
                Ok(boundary)
            },
        }
    }

    pub fn declare_access(&mut self, access: AccessIntent)
        requires
            old(self).wf(),
        ensures
            final(self).wf(),
            final(self).filed() == old(self).filed(),
            final(self)@ == (BuilderModel {
                accesses: old(self)@.accesses.push(access),
                ..old(self)@
            }),
    {
        self.accesses.push(access);
    }

    /// Hold a pipeline for this transaction. The guest binds the same pipeline
    /// on every draw, so a repeat adds nothing.
    pub fn lease_pipeline(&mut self, pipeline: ResourceId)
        requires
            old(self).wf(),
        ensures
            final(self).wf(),
            final(self).filed() == old(self).filed(),
            final(self)@ == old(self)@.leased(pipeline),
    {
        let mut i: usize = 0;
        while i < self.pipeline_leases.len()
            invariant
                i <= self.pipeline_leases@.len(),
                *self == *old(self),
                forall|j: int| 0 <= j < i ==> self.pipeline_leases@[j] != pipeline,
                self.wf(),
            decreases self.pipeline_leases.len() - i,
        {
            if self.pipeline_leases[i].same(&pipeline) {
                assert(self@.leases[i as int] == pipeline);
                return;
            }
            i = i + 1;
        }
        self.pipeline_leases.push(pipeline);
    }

    pub fn require(&mut self, prerequisite: Prerequisite)
        requires
            old(self).wf(),
        ensures
            final(self).wf(),
            final(self).filed() == old(self).filed(),
            final(self)@ == (BuilderModel {
                prerequisites: old(self)@.prerequisites.push(prerequisite),
                ..old(self)@
            }),
    {
        self.prerequisites.push(prerequisite);
    }

    pub fn publish_stamp(&mut self, stamp: CompletionStamp)
        requires
            old(self).wf(),
        ensures
            final(self).wf(),
            final(self).filed() == old(self).filed(),
            final(self)@ == (BuilderModel { stamp: Some(stamp), ..old(self)@ }),
    {
        self.publication.stamp = Some(stamp);
    }

    /// Freeze the transaction. An encoder that never ended and an envelope that
    /// armed nothing are refused.
    pub fn finish(self) -> (r: Result<ExecTransaction, StreamRefusal>)
        requires
            self.wf(),
        ensures
            match self@.stream.finish_refusal() {
                Some(e) => r == Err::<ExecTransaction, StreamRefusal>(e),
                None => r matches Ok(tx) && frozen_from(tx, self@) && tx.arenas == self.filed()
                    && positioned(tx.streams@),
            },
    {
        let ExecBuilder {
            cursor,
            session,
            domain,
            domain_sequence,
            ingress,
            streams,
            open: _,
            accesses,
            pipeline_leases,
            prerequisites,
            publication,
            arenas,
        } = self;
        match cursor.finish() {
            Err(e) => Err(e),
            Ok(_) => {
                proof {
                    let models = self@.streams;
                    assert forall|i: int, j: int| #![trigger streams@[i].records@[j]]
                        0 <= i < streams@.len() && 0 <= j < streams@[i].records@.len() implies streams@[i].records@[j].at.segment
                        == i && streams@[i].records@[j].at.record == j by {
                        assert(models[i].records[j] == streams@[i].records@[j]);
                    }
                }
                Ok(
                    ExecTransaction {
                        session,
                        domain,
                        domain_sequence,
                        ingress,
                        streams,
                        accesses,
                        pipeline_leases,
                        prerequisites,
                        publication,
                        arenas,
                    },
                )
            },
        }
    }
}

/// A frozen transaction carries its records in execution order: each stands
/// before every later one.
pub proof fn records_are_carried_in_order(streams: Seq<ResolvedStream>, m: int, n: int)
    requires
        positioned(streams),
        0 <= m < n < all_records(streams).len(),
    ensures
        all_records(streams)[m].at.before(all_records(streams)[n].at),
    decreases streams.len(),
{
    let rest = streams.drop_last();
    let before = all_records(rest);
    let last = streams.last();
    assert(rest =~= streams.take(streams.len() - 1));
    assert(positioned(rest)) by {
        assert forall|i: int, j: int| #![trigger rest[i].records@[j]]
            0 <= i < rest.len() && 0 <= j < rest[i].records@.len() implies rest[i].records@[j].at.segment
            == i && rest[i].records@[j].at.record == j by {
            assert(streams[i].records@[j] == rest[i].records@[j]);
        }
    }
    let k = streams.len() - 1;
    if n < before.len() {
        records_are_carried_in_order(rest, m, n);
    } else {
        let jn = n - before.len();
        assert(all_records(streams)[n] == streams[k].records@[jn]);
        if m < before.len() {
            lemma_segment_below(rest, m);
        } else {
            assert(all_records(streams)[m] == streams[k].records@[m - before.len()]);
        }
    }
}

/// A record stands in one of the streams.
proof fn lemma_segment_below(streams: Seq<ResolvedStream>, m: int)
    requires
        positioned(streams),
        0 <= m < all_records(streams).len(),
    ensures
        all_records(streams)[m].at.segment < streams.len(),
    decreases streams.len(),
{
    let rest = streams.drop_last();
    let before = all_records(rest);
    assert(positioned(rest)) by {
        assert forall|i: int, j: int| #![trigger rest[i].records@[j]]
            0 <= i < rest.len() && 0 <= j < rest[i].records@.len() implies rest[i].records@[j].at.segment
            == i && rest[i].records@[j].at.record == j by {
            assert(streams[i].records@[j] == rest[i].records@[j]);
        }
    }
    if m < before.len() {
        lemma_segment_below(rest, m);
    } else {
        let k = streams.len() - 1;
        assert(all_records(streams)[m] == streams[k].records@[m - before.len()]);
    }
}

/// An access that names no memory publishes no version.
pub proof fn an_access_without_memory_publishes_nothing(access: AccessIntent)
    requires
        access.key is Heap || access.key is DomainOnly,
    ensures
        publication_of(access) is None,
{
}

/// A published version covers exactly the region its access named.
pub proof fn a_published_version_covers_its_access(access: AccessIntent)
    requires
        publication_of(access) is Some,
    ensures
        publication_of(access)->0.region == access.key,
        Some(publication_of(access)->0.to) == access.output_content_version,
        access.key.resource_key() is Some && access.key.resource_key()->0.backing
            == publication_of(access)->0.backing,
{
}

/// However often a pipeline is leased, it is held once.
pub proof fn a_pipeline_is_leased_once(b: BuilderModel, pipeline: ResourceId)
    ensures
        b.leased(pipeline).leased(pipeline) == b.leased(pipeline),
{
    let leases = b.leased(pipeline).leases;
    if !b.leases.contains(pipeline) {
        assert(leases[leases.len() - 1] == pipeline);
    }
}

/// Every access that produces a version and names memory publishes it, over
/// exactly what it named.
pub proof fn a_produced_version_is_published(
    accesses: Seq<AccessIntent>,
    k: int,
    to: ContentVersion,
    backing: BackingId,
)
    requires
        0 <= k < accesses.len(),
        accesses[k].output_content_version == Some(to),
        match accesses[k].key {
            AccessKey::Range(r, _) => r.backing == backing,
            AccessKey::Subresource(r, _) => r.backing == backing,
            AccessKey::Whole(r) => r.backing == backing,
            _ => false,
        },
    ensures
        publications(accesses).contains(
            VersionPublication { backing, region: accesses[k].key, to },
        ),
    decreases accesses.len(),
{
    let all = publications(accesses);
    let init = accesses.drop_last();
    let before = publications(init);
    let wanted = VersionPublication { backing, region: accesses[k].key, to };
    if k == accesses.len() - 1 {
        assert(accesses.last() == accesses[k]);
        assert(all[before.len() as int] == wanted);
    } else {
        assert(init[k] == accesses[k]);
        a_produced_version_is_published(init, k, to, backing);
        let x = choose|x: int| 0 <= x < before.len() && before[x] == wanted;
        assert(all[x] == wanted);
    }
}

/// Every published version is the output of one of the accesses, over the
/// memory that access named.
pub proof fn a_published_version_was_produced(accesses: Seq<AccessIntent>, x: int) -> (k: int)
    requires
        0 <= x < publications(accesses).len(),
    ensures
        0 <= k < accesses.len(),
        accesses[k].output_content_version == Some(publications(accesses)[x].to),
        accesses[k].key == publications(accesses)[x].region,
        match accesses[k].key {
            AccessKey::Range(r, _) => r.backing == publications(accesses)[x].backing,
            AccessKey::Subresource(r, _) => r.backing == publications(accesses)[x].backing,
            AccessKey::Whole(r) => r.backing == publications(accesses)[x].backing,
            _ => false,
        },
    decreases accesses.len(),
{
    let init = accesses.drop_last();
    if x < publications(init).len() {
        let k = a_published_version_was_produced(init, x);
        assert(init[k] == accesses[k]);
        k
    } else {
        assert(accesses[accesses.len() - 1] == accesses.last());
        accesses.len() - 1
    }
}

/// Versions are published in the order the accesses were declared: what more
/// accesses publish stands behind what fewer did.
pub proof fn versions_are_published_in_declaration_order(
    some: Seq<AccessIntent>,
    more: Seq<AccessIntent>,
)
    ensures
        publications(some + more) == publications(some) + publications(more),
    decreases more.len(),
{
    if more.len() == 0 {
        assert(some + more =~= some);
        assert(publications(some) + publications(more) =~= publications(some));
    } else {
        versions_are_published_in_declaration_order(some, more.drop_last());
        assert((some + more).drop_last() =~= some + more.drop_last());
        assert((some + more).last() == more.last());
        assert(publications(some + more) =~= publications(some) + publications(more));
    }
}

/// A recorded operation stands last in the open encoder, at the place the stream
/// had reached, behind everything recorded before it; nothing else of the
/// packet moves.
pub proof fn a_record_stands_behind_the_others(b: BuilderModel, op: ResolvedOperation)
    requires
        b.open is Some,
    ensures
        b.recorded(op).open matches Some(s) && {
            &&& s.begin == b.open->0.begin
            &&& s.records.len() == b.open->0.records.len() + 1
            &&& s.records.last().op == op
            &&& s.records.last().at == b.stream.next
            &&& s.records.drop_last() == b.open->0.records
        },
        b.recorded(op).streams == b.streams,
        b.recorded(op).accesses == b.accesses,
        b.recorded(op).leases == b.leases,
        b.recorded(op).prerequisites == b.prerequisites,
        b.recorded(op).stamp == b.stamp,
        b.recorded(op).domain == b.domain && b.recorded(op).session == b.session,
        b.recorded(op).ingress == b.ingress && b.recorded(op).domain_sequence
            == b.domain_sequence,
{
    assert(b.recorded(op).open->0.records.drop_last() =~= b.open->0.records);
}

/// An ended encoder stands last among the streams with everything recorded in
/// it, and nothing is open behind it.
pub proof fn an_ended_encoder_keeps_its_records(b: BuilderModel)
    requires
        b.open is Some,
    ensures
        b.ended().open is None,
        b.ended().streams.len() == b.streams.len() + 1,
        b.ended().streams.last() == b.open->0,
        b.ended().streams.drop_last() == b.streams,
        b.ended().accesses == b.accesses,
        b.ended().leases == b.leases,
        b.ended().prerequisites == b.prerequisites,
        b.ended().stamp == b.stamp,
{
    assert(b.ended().streams.drop_last() =~= b.streams);
}

/// A leased pipeline is held, and every one held before still is.
pub proof fn a_lease_holds_its_pipeline(b: BuilderModel, pipeline: ResourceId, other: ResourceId)
    ensures
        b.leased(pipeline).leases.contains(pipeline),
        b.leased(pipeline).leases.contains(other) == (b.leases.contains(other) || other
            == pipeline),
        b.leased(pipeline).accesses == b.accesses,
        b.leased(pipeline).streams == b.streams,
        b.leased(pipeline).open == b.open,
{
    let after = b.leased(pipeline).leases;
    if !b.leases.contains(pipeline) {
        assert(after[b.leases.len() as int] == pipeline);
        if b.leases.contains(other) {
            let k = choose|k: int| 0 <= k < b.leases.len() && b.leases[k] == other;
            assert(after[k] == other);
        }
        if after.contains(other) && other != pipeline {
            let k = choose|k: int| 0 <= k < after.len() && after[k] == other;
            assert(b.leases[k] == other);
        }
    }
}

/// The records of several streams are all of theirs: each record of each stream
/// is carried, and nothing else is.
pub proof fn every_record_is_carried(streams: Seq<ResolvedStream>, i: int, j: int)
    requires
        0 <= i < streams.len(),
        0 <= j < streams[i].records@.len(),
    ensures
        all_records(streams).contains(streams[i].records@[j]),
    decreases streams.len(),
{
    let init = streams.drop_last();
    let all = all_records(streams);
    let r = streams[i].records@[j];
    if i == streams.len() - 1 {
        assert(all[all_records(init).len() + j] == r);
    } else {
        assert(init[i] == streams[i]);
        every_record_is_carried(init, i, j);
        let x = choose|x: int| 0 <= x < all_records(init).len() && all_records(init)[x] == r;
        assert(all[x] == r);
    }
}

/// A transfer, a content directive and an indirect command touch what they touch
/// by themselves, whatever passes the packet holds; a pass costs what its
/// descriptor names before any draw; and a record of any other class touches no
/// memory by itself.
pub proof fn a_record_touches_what_it_names(op: ResolvedOperation, passes: Seq<PassDescriptor>)
    ensures
        op matches ResolvedOperation::Blit(b) ==> op.footprint(passes) == b.footprint(),
        op matches ResolvedOperation::ResourceState(s) ==> op.footprint(passes) == s.footprint(),
        op matches ResolvedOperation::IndirectCommand(c) ==> op.footprint(passes) == c.footprint(),
        op matches ResolvedOperation::Render(RenderOp::WriteDescriptor { descriptor })
            ==> descriptor.0 < passes.len() ==> op.footprint(passes) == passes[descriptor.0 as int].footprint(),
        op is EncoderBoundary || op is Event || op is Fence || op is Barrier || op is Compute
            ==> op.footprint(passes).len() == 0,
{
}

/// No record is accepted outside an encoder, and inside one exactly the records
/// that encoder has: its own, its boundaries, fences in render and blit,
/// barriers in render and compute, content records in blit and compute, and
/// indirect commands in render and blit.
pub proof fn an_encoder_accepts_its_own_records(op: ResolvedOperation, stream: StreamState)
    ensures
        stream.open is None ==> op.refusal_in(stream) == Some(StreamRefusal::RecordOutsideEncoder),
        stream.open matches Some(kind) ==> (op.refusal_in(stream) is None <==> match op {
            ResolvedOperation::EncoderBoundary(_) => true,
            ResolvedOperation::Render(_) => kind is Render,
            ResolvedOperation::Compute(_) => kind is Compute,
            ResolvedOperation::Blit(_) => kind is Blit,
            ResolvedOperation::Event(_) => kind is Event,
            ResolvedOperation::Fence(_) => kind is Render || kind is Blit,
            ResolvedOperation::Barrier(_) => kind is Render || kind is Compute,
            ResolvedOperation::ResourceState(_) => kind is Blit || kind is Compute,
            ResolvedOperation::IndirectCommand(_) => kind is Render || kind is Blit,
        }),
{
}

/// A frozen transaction carries what its builder gathered: each encoder's
/// records, the accesses, the pipelines, the waits and the word.
pub proof fn a_frozen_transaction_carries_what_was_gathered(
    tx: ExecTransaction,
    b: BuilderModel,
    i: int,
    j: int,
)
    requires
        frozen_from(tx, b),
    ensures
        tx.session == b.session && tx.domain == b.domain && tx.ingress == b.ingress
            && tx.domain_sequence == b.domain_sequence,
        tx.streams@.len() == b.streams.len(),
        0 <= i < b.streams.len() && 0 <= j < b.streams[i].records.len() ==> tx.streams@[i].records@[j]
            == b.streams[i].records[j] && tx.streams@[i].begin == b.streams[i].begin,
        0 <= i < b.streams.len() ==> tx.streams@[i].records@.len() == b.streams[i].records.len(),
        tx.accesses@ == b.accesses,
        tx.pipeline_leases@ == b.leases,
        tx.prerequisites@ == b.prerequisites,
        tx.publication.stamp == b.stamp,
{
    if 0 <= i < b.streams.len() {
        assert(streams_of(tx.streams@)[i] == b.streams[i]);
    }
}

/// A transaction writes something exactly when one of its accesses is no proven
/// read.
pub proof fn a_writer_has_an_access_that_may_write(tx: ExecTransaction, k: int)
    ensures
        0 <= k < tx.accesses@.len() && !(tx.accesses@[k].mode is Read) ==> tx.is_writer(),
        (forall|i: int|
            0 <= i < tx.accesses@.len() ==> (#[trigger] tx.accesses@[i]).mode is Read)
            ==> !tx.is_writer(),
{
    if 0 <= k < tx.accesses@.len() && !(tx.accesses@[k].mode is Read) {
        assert(tx.accesses@[k].mode.is_write());
    }
}

} // verus!
