//! Segments, encoders, and the order a record has inside a command stream.
//!
//! A segment type is parsed before it reaches this module, which takes the
//! parsed role as given. Records inside one encoder are ordered, and every
//! record has a total order within its stream: nothing here can say that two
//! positions are independent, because nothing has proved that they are.
//!
//! [`StreamCursor`] refuses a record with no open encoder, a record whose rail
//! disagrees with its segment, a begin while another encoder is open, and an
//! end with nothing to end. Tolerating any of them would attribute work to the
//! wrong encoder.

use vstd::prelude::*;

verus! {

/// Which family of records an opcode is read in.
#[derive(Clone, Copy, Debug, PartialEq, Eq, PartialOrd, Ord, Hash, Structural)]
pub enum Rail {
    Render,
    Compute,
    Blit,
    Event,
    Info,
}

/// Which encoder a segment is.
#[derive(Clone, Copy, Debug, PartialEq, Eq, PartialOrd, Ord, Hash, Structural)]
pub enum SegmentKind {
    Render,
    Compute,
    Blit,
    Event,
    Info,
}

impl SegmentKind {
    /// The rail a segment's own records are read on.
    pub open spec fn own_rail(self) -> Rail {
        match self {
            SegmentKind::Render => Rail::Render,
            SegmentKind::Compute => Rail::Compute,
            SegmentKind::Blit => Rail::Blit,
            SegmentKind::Event => Rail::Event,
            SegmentKind::Info => Rail::Info,
        }
    }

    #[must_use]
    pub fn rail(self) -> (rail: Rail)
        ensures
            rail == self.own_rail(),
    {
        match self {
            SegmentKind::Render => Rail::Render,
            SegmentKind::Compute => Rail::Compute,
            SegmentKind::Blit => Rail::Blit,
            SegmentKind::Event => Rail::Event,
            SegmentKind::Info => Rail::Info,
        }
    }
}

/// What a segment header's type byte was found to mean.
#[derive(Clone, Copy, Debug, PartialEq, Eq, PartialOrd, Ord, Hash, Structural)]
pub enum SegmentRole {
    /// The header opens an encoder.
    Encoder(SegmentKind),
    /// The header carries protection options for the segment after it.
    ProtectionEnvelope,
}

/// The protection-options value a guest attached to the segment that follows.
///
/// Carried, not honoured: no protection domain is provided here.
#[derive(Clone, Copy, Debug, PartialEq, Eq, PartialOrd, Ord, Hash, Structural)]
pub struct ProtectionOptions(pub u64);

impl ProtectionOptions {
    /// The envelope is emitted only for a non-zero value, so a zero came from
    /// somewhere other than the guest's argument.
    #[must_use]
    pub fn is_none(self) -> (none: bool)
        ensures
            none == (self.0 == 0),
    {
        self.0 == 0
    }
}

/// The resolved form of an encoder opening.
#[derive(Clone, Copy, Debug, PartialEq, Eq, PartialOrd, Ord, Hash, Structural)]
pub struct SegmentBegin {
    pub kind: SegmentKind,
    /// The flag argument of the begin call, verbatim.
    pub flag: bool,
    /// The value from a preceding protection envelope, if one armed this
    /// segment.
    pub protection: Option<ProtectionOptions>,
}

impl SegmentBegin {
    /// Whether the guest asked for a protection domain that is not provided.
    #[must_use]
    pub fn demands_protection(&self) -> (demands: bool)
        ensures
            demands == (self.protection matches Some(p) && p.0 != 0),
    {
        match self.protection {
            Some(p) => !p.is_none(),
            None => false,
        }
    }
}

/// An encoder opening or ending.
#[derive(Clone, Copy, Debug, PartialEq, Eq, PartialOrd, Ord, Hash, Structural)]
pub enum EncoderBoundary {
    /// An encoder opened.
    Begin(SegmentBegin),
    /// An encoder ended, having recorded this many records.
    End { records: u32 },
}

/// Which segment, and which record inside it.
#[derive(Clone, Copy, Debug, PartialEq, Eq, PartialOrd, Ord, Hash, Structural)]
pub struct StreamPosition {
    pub segment: u32,
    pub record: u32,
}

impl StreamPosition {
    /// Execution order: by segment, and inside one by record.
    pub open spec fn before(self, other: StreamPosition) -> bool {
        self.segment < other.segment || (self.segment == other.segment && self.record
            < other.record)
    }
}

/// A total order over the records of one stream.
#[derive(Clone, Copy, Debug)]
pub struct StreamOrder;

impl StreamOrder {
    /// Whether `earlier` must complete its ordering obligations before `later`.
    #[must_use]
    pub fn precedes(self, earlier: StreamPosition, later: StreamPosition) -> (precedes: bool)
        ensures
            precedes == earlier.before(later),
    {
        earlier.segment < later.segment || (earlier.segment == later.segment && earlier.record
            < later.record)
    }

    /// Whether the two may be reordered with respect to each other. Never: no
    /// independence has been established.
    #[must_use]
    pub fn independent(self, _a: StreamPosition, _b: StreamPosition) -> (independent: bool)
        ensures
            !independent,
    {
        false
    }
}

/// Why a stream shape cannot be accepted.
#[derive(Clone, Copy, Debug, PartialEq, Eq, Structural)]
pub enum StreamRefusal {
    /// A segment type with no established contract.
    UnknownSegmentType(u8),
    /// A begin arrived while an encoder was still open.
    EncoderStillOpen(SegmentKind),
    /// A record arrived outside any encoder.
    RecordOutsideEncoder,
    /// A record decoded on one rail was found inside another rail's segment.
    RailMismatch { segment: SegmentKind, record: Rail },
    /// An end arrived with no encoder open.
    EndWithoutBegin,
    /// A protection envelope armed nothing.
    ProtectionEnvelopeUnclaimed,
    /// The stream ended with an encoder still open.
    EncoderNeverEnded(SegmentKind),
}

impl StreamRefusal {
    /// The stable reason string for the failure channel.
    #[must_use]
    pub fn reason(self) -> (reason: &'static str)
        ensures
            reason@ == (match self {
                StreamRefusal::UnknownSegmentType(_) => "stream_segment_type_unknown"@,
                StreamRefusal::EncoderStillOpen(_) => "stream_encoder_begin_while_open"@,
                StreamRefusal::RecordOutsideEncoder => "stream_record_outside_encoder"@,
                StreamRefusal::RailMismatch { .. } => "stream_record_rail_mismatch"@,
                StreamRefusal::EndWithoutBegin => "stream_encoder_end_without_begin"@,
                StreamRefusal::ProtectionEnvelopeUnclaimed =>
                "stream_protection_envelope_unclaimed"@,
                StreamRefusal::EncoderNeverEnded(_) => "stream_encoder_never_ended"@,
            }),
    {
        match self {
            StreamRefusal::UnknownSegmentType(_) => "stream_segment_type_unknown",
            StreamRefusal::EncoderStillOpen(_) => "stream_encoder_begin_while_open",
            StreamRefusal::RecordOutsideEncoder => "stream_record_outside_encoder",
            StreamRefusal::RailMismatch { .. } => "stream_record_rail_mismatch",
            StreamRefusal::EndWithoutBegin => "stream_encoder_end_without_begin",
            StreamRefusal::ProtectionEnvelopeUnclaimed => "stream_protection_envelope_unclaimed",
            StreamRefusal::EncoderNeverEnded(_) => "stream_encoder_never_ended",
        }
    }
}

/// Where a stream is, mathematically.
pub struct StreamState {
    /// The open encoder, if there is one.
    pub open: Option<SegmentKind>,
    /// Where the next record will stand: the encoders ended so far, and the
    /// records in the open one.
    pub next: StreamPosition,
    /// An armed protection envelope.
    pub armed: Option<ProtectionOptions>,
}

impl StreamState {
    /// Between encoders no record has been counted.
    pub open spec fn wf(self) -> bool {
        self.open is None ==> self.next.record == 0
    }

    /// A stream nothing has been read from.
    pub open spec fn start() -> StreamState {
        StreamState {
            open: None,
            next: StreamPosition { segment: 0, record: 0 },
            armed: None,
        }
    }

    /// What opening an encoder is refused for.
    pub open spec fn begin_refusal(self, wire_type: u8, role: Option<SegmentRole>) -> Option<
        StreamRefusal,
    > {
        if !(role matches Some(SegmentRole::Encoder(_))) {
            Some(StreamRefusal::UnknownSegmentType(wire_type))
        } else {
            match self.open {
                Some(kind) => Some(StreamRefusal::EncoderStillOpen(kind)),
                None => None,
            }
        }
    }

    /// An encoder opened. It claims an armed envelope.
    pub open spec fn begun(self, kind: SegmentKind) -> StreamState {
        StreamState {
            open: Some(kind),
            next: StreamPosition { segment: self.next.segment, record: 0 },
            armed: None,
        }
    }

    /// What a record on a rail is refused for.
    pub open spec fn record_refusal(self, rail: Rail) -> Option<StreamRefusal> {
        match self.open {
            None => Some(StreamRefusal::RecordOutsideEncoder),
            Some(kind) => if kind.own_rail() != rail {
                Some(StreamRefusal::RailMismatch { segment: kind, record: rail })
            } else {
                None
            },
        }
    }

    /// A record was read.
    pub open spec fn recorded(self) -> StreamState {
        StreamState {
            next: StreamPosition {
                segment: self.next.segment,
                record: (self.next.record + 1) as u32,
            },
            ..self
        }
    }

    /// The open encoder ended.
    pub open spec fn ended(self) -> StreamState {
        StreamState {
            open: None,
            next: StreamPosition { segment: (self.next.segment + 1) as u32, record: 0 },
            ..self
        }
    }

    /// What an envelope is refused for.
    pub open spec fn envelope_refusal(self) -> Option<StreamRefusal> {
        if self.armed is Some {
            Some(StreamRefusal::ProtectionEnvelopeUnclaimed)
        } else {
            match self.open {
                Some(kind) => Some(StreamRefusal::EncoderStillOpen(kind)),
                None => None,
            }
        }
    }

    /// What the end of the stream is refused for.
    pub open spec fn finish_refusal(self) -> Option<StreamRefusal> {
        match self.open {
            Some(kind) => Some(StreamRefusal::EncoderNeverEnded(kind)),
            None => if self.armed is Some {
                Some(StreamRefusal::ProtectionEnvelopeUnclaimed)
            } else {
                None
            },
        }
    }
}

#[derive(Clone, Copy, Debug, PartialEq, Eq, Structural)]
enum Phase {
    Open { kind: SegmentKind },
    Closed,
}

/// The encoder state machine for one command stream, fed in wire order.
#[derive(Debug)]
pub struct StreamCursor {
    phase: Phase,
    pending_protection: Option<ProtectionOptions>,
    segment: u32,
    record: u32,
}

impl View for StreamCursor {
    type V = StreamState;

    closed spec fn view(&self) -> StreamState {
        StreamState {
            open: match self.phase {
                Phase::Open { kind } => Some(kind),
                Phase::Closed => None,
            },
            next: StreamPosition { segment: self.segment, record: self.record },
            armed: self.pending_protection,
        }
    }
}

impl Default for StreamCursor {
    fn default() -> (c: StreamCursor)
        ensures
            c@ == StreamState::start(),
    {
        StreamCursor::new()
    }
}

impl StreamCursor {
    #[must_use]
    pub fn new() -> (c: Self)
        ensures
            c@ == StreamState::start(),
            c@.wf(),
    {
        StreamCursor { phase: Phase::Closed, pending_protection: None, segment: 0, record: 0 }
    }

    /// A protection envelope was seen. It arms the next encoder begin.
    ///
    /// Two in a row is a refusal: the second would silently replace the first.
    pub fn protection_envelope(&mut self, options: ProtectionOptions) -> (r: Result<
        (),
        StreamRefusal,
    >)
        ensures
            match old(self)@.envelope_refusal() {
                Some(e) => r == Err::<(), StreamRefusal>(e) && final(self)@ == old(self)@,
                None => r is Ok && final(self)@ == (StreamState {
                    armed: Some(options),
                    ..old(self)@
                }),
            },
    {
        if self.pending_protection.is_some() {
            return Err(StreamRefusal::ProtectionEnvelopeUnclaimed);
        }
        match self.phase {
            Phase::Open { kind } => {
                return Err(StreamRefusal::EncoderStillOpen(kind));
            },
            Phase::Closed => {},
        }
        self.pending_protection = Some(options);
        Ok(())
    }

    /// A segment header opened an encoder. `role` is what its type byte was
    /// found to mean; `None` where it has no established contract.
    pub fn begin(&mut self, wire_type: u8, role: Option<SegmentRole>, flag: bool) -> (r: Result<
        (StreamPosition, SegmentBegin),
        StreamRefusal,
    >)
        ensures
            match old(self)@.begin_refusal(wire_type, role) {
                Some(e) => r == Err::<(StreamPosition, SegmentBegin), StreamRefusal>(e) && final(self)@ == old(self)@,
                None => role matches Some(SegmentRole::Encoder(kind)) && r == Ok::<
                    (StreamPosition, SegmentBegin),
                    StreamRefusal,
                >(
                    (
                        StreamPosition { segment: old(self)@.next.segment, record: 0 },
                        SegmentBegin { kind, flag, protection: old(self)@.armed },
                    ),
                ) && final(self)@ == old(self)@.begun(kind),
            },
    {
        let kind = match role {
            Some(SegmentRole::Encoder(kind)) => kind,
            // The envelope has its own entry point; arriving here means it was
            // framed as an encoder, which it is not.
            _ => {
                return Err(StreamRefusal::UnknownSegmentType(wire_type));
            },
        };
        match self.phase {
            Phase::Open { kind } => {
                return Err(StreamRefusal::EncoderStillOpen(kind));
            },
            Phase::Closed => {},
        }
        let at = StreamPosition { segment: self.segment, record: 0 };
        let protection = self.pending_protection;
        self.phase = Phase::Open { kind };
        self.record = 0;
        self.pending_protection = None;
        Ok((at, SegmentBegin { kind, flag, protection }))
    }

    /// A record was decoded on `rail` inside the open encoder. Returns where it
    /// stands.
    pub fn record(&mut self, rail: Rail) -> (r: Result<StreamPosition, StreamRefusal>)
        requires
            old(self)@.next.record < u32::MAX,
        ensures
            match old(self)@.record_refusal(rail) {
                Some(e) => r == Err::<StreamPosition, StreamRefusal>(e) && final(self)@ == old(self)@,
                None => r == Ok::<StreamPosition, StreamRefusal>(old(self)@.next) && final(self)@
                    == old(self)@.recorded(),
            },
    {
        let kind = match self.phase {
            Phase::Open { kind } => kind,
            Phase::Closed => {
                return Err(StreamRefusal::RecordOutsideEncoder);
            },
        };
        if kind.rail() != rail {
            return Err(StreamRefusal::RailMismatch { segment: kind, record: rail });
        }
        let at = StreamPosition { segment: self.segment, record: self.record };
        self.record = self.record + 1;
        Ok(at)
    }

    /// The open encoder ended.
    pub fn end(&mut self) -> (r: Result<EncoderBoundary, StreamRefusal>)
        requires
            old(self)@.next.segment < u32::MAX,
        ensures
            old(self)@.open is None ==> r == Err::<EncoderBoundary, StreamRefusal>(
                StreamRefusal::EndWithoutBegin,
            ) && final(self)@ == old(self)@,
            old(self)@.open is Some ==> r == Ok::<EncoderBoundary, StreamRefusal>(
                EncoderBoundary::End { records: old(self)@.next.record },
            ) && final(self)@ == old(self)@.ended(),
    {
        match self.phase {
            Phase::Open { .. } => {},
            Phase::Closed => {
                return Err(StreamRefusal::EndWithoutBegin);
            },
        }
        let records = self.record;
        self.phase = Phase::Closed;
        self.segment = self.segment + 1;
        self.record = 0;
        Ok(EncoderBoundary::End { records })
    }

    /// The stream is over. Anything still open or still armed is a refusal;
    /// otherwise the number of encoders that ran.
    pub fn finish(self) -> (r: Result<u32, StreamRefusal>)
        ensures
            match self@.finish_refusal() {
                Some(e) => r == Err::<u32, StreamRefusal>(e),
                None => r == Ok::<u32, StreamRefusal>(self@.next.segment),
            },
    {
        match self.phase {
            Phase::Open { kind } => {
                return Err(StreamRefusal::EncoderNeverEnded(kind));
            },
            Phase::Closed => {},
        }
        if self.pending_protection.is_some() {
            return Err(StreamRefusal::ProtectionEnvelopeUnclaimed);
        }
        Ok(self.segment)
    }

    /// The kind of the open encoder, if one is open.
    #[must_use]
    pub fn open_encoder(&self) -> (kind: Option<SegmentKind>)
        ensures
            kind == self@.open,
    {
        match self.phase {
            Phase::Open { kind } => Some(kind),
            Phase::Closed => None,
        }
    }
}

/// Two records of one stream are always ordered, one way.
pub proof fn stream_order_is_total(a: StreamPosition, b: StreamPosition)
    ensures
        a == b || a.before(b) || b.before(a),
        !(a.before(b) && b.before(a)),
        !a.before(a),
{
}

/// Execution order is transitive.
pub proof fn stream_order_is_transitive(a: StreamPosition, b: StreamPosition, c: StreamPosition)
    requires
        a.before(b),
        b.before(c),
    ensures
        a.before(c),
{
}

/// Records are positioned in wire order: what is read next stands after every
/// record read before it, in this encoder and in the ones that ended.
pub proof fn records_are_positioned_in_wire_order(s: StreamState, at: StreamPosition, kind: SegmentKind)
    requires
        s.wf(),
        at.before(s.next),
        s.next.record < u32::MAX,
        s.next.segment < u32::MAX,
    ensures
        s.next.before(s.recorded().next),
        at.before(s.recorded().next),
        at.before(s.ended().next),
        s.open is None ==> at.before(s.begun(kind).next),
{
}

/// An envelope arms the segment after it, exactly once.
pub proof fn an_envelope_is_claimed_once(s: StreamState, kind: SegmentKind)
    ensures
        s.begun(kind).armed is None,
        s.begun(kind).ended().armed is None,
{
}

/// A segment accepts exactly its own rail.
pub proof fn a_segment_accepts_its_own_rail_alone(s: StreamState, kind: SegmentKind, rail: Rail)
    requires
        s.open == Some(kind),
    ensures
        s.record_refusal(rail) is None <==> rail == kind.own_rail(),
{
}

/// A segment's records are read on the rail of its own name.
pub proof fn a_segment_is_read_on_the_rail_of_its_name(kind: SegmentKind)
    ensures
        kind.own_rail() is Render <==> kind is Render,
        kind.own_rail() is Compute <==> kind is Compute,
        kind.own_rail() is Blit <==> kind is Blit,
        kind.own_rail() is Event <==> kind is Event,
        kind.own_rail() is Info <==> kind is Info,
{
}

/// A begin needs an established encoder and none open, and opens it with no
/// record read; a record needs one open; an envelope needs none open and none
/// armed; a stream ends with none open and none armed.
pub proof fn a_stream_opens_and_ends_one_encoder_at_a_time(
    s: StreamState,
    wire_type: u8,
    role: Option<SegmentRole>,
    kind: SegmentKind,
    rail: Rail,
)
    requires
        s.next.segment < u32::MAX,
        s.next.record < u32::MAX,
    ensures
        s.begin_refusal(wire_type, role) is None <==> s.open is None && (role matches Some(
            SegmentRole::Encoder(_),
        )),
        s.open is None ==> s.record_refusal(rail) == Some(StreamRefusal::RecordOutsideEncoder),
        s.envelope_refusal() is None <==> s.open is None && s.armed is None,
        s.finish_refusal() is None <==> s.open is None && s.armed is None,
        s.begun(kind).open == Some(kind) && s.begun(kind).next.record == 0,
        s.begun(kind).next.segment == s.next.segment,
        s.recorded().open == s.open && s.recorded().armed == s.armed,
        s.recorded().next.record == s.next.record + 1 && s.recorded().next.segment
            == s.next.segment,
        s.ended().open is None && s.ended().armed == s.armed,
        s.ended().next.segment == s.next.segment + 1 && s.ended().next.record == 0,
{
}

} // verus!
