//! Ingress: the one place a packet becomes a transaction, or does not become
//! one at all.
//!
//! A packet is refused before it has an ordinal, an ordering position and a
//! completion obligation, or not at all: a refusal leaves no gap in either
//! order. The session owns the ordinal counters, the open channels and their
//! sequences, the hazard graph, the readiness service, each channel's
//! publication order, and the pipelines its work binds.

use vstd::prelude::*;
use crate::control::{ChannelTransition, ControlOp};
use crate::depend::{AccessRow, DependencyGraph};
use crate::identity::{
    ChannelId, ChannelSequence, CompletionStamp, DeviceEpoch, IngressOrdinal, ResourceId,
    SessionGeneration, SessionId, StampWait, TransactionIdentity,
};
use crate::pipeline::{LeaseRefusal, Pipeline, PipelineState, PipelineTable, RefusalReason};
use crate::publish::{Position, Publisher, Release, RetireRefusal};
use crate::ready::{Discharge, Readiness, Scheduler, Waiting};
use crate::retire::Lifetime;
use crate::table::{Table, TableKey};
use crate::transaction::{Channel, CommandContract, DeviceTransaction, Payload, PayloadClass};

verus! {

/// Why a packet did not become a transaction.
///
/// Each variant is one check, never shared.
#[allow(inconsistent_fields)]
#[derive(Clone, Copy, Debug, PartialEq, Eq)]
pub enum Refusal {
    /// The opcode names no command on this channel.
    UnknownCommand { channel: Channel, opcode: u16 },
    /// A command with no established contract.
    UnestablishedContract { channel: Channel, opcode: u16 },
    /// The host device incarnation ended and no replacement exists yet.
    DeviceLost { epoch: DeviceEpoch },
    /// A replacement device was asked for while the current one is live.
    DeviceNotLost { epoch: DeviceEpoch },
    /// The packet named a submission domain no channel definition opened.
    ChannelNotOpen { channel: ChannelId },
    /// A channel definition named a domain that is already open.
    ChannelAlreadyOpen { channel: ChannelId },
    /// The packet arrived after the semantic lifetime it names was closed.
    GenerationClosed { named: SessionGeneration, current: SessionGeneration },
    /// The packet binds a pipeline it can never use.
    PipelineUnusable(LeaseRefusal),
    /// The opcode declares one payload class and the decoded payload is
    /// another.
    PayloadMismatch {
        channel: Channel,
        opcode: u16,
        declared: PayloadClass,
        decoded: PayloadClass,
    },
}

impl Refusal {
    pub open spec fn slug_text(self) -> Seq<char> {
        match self {
            Refusal::UnknownCommand { .. } => "ingress_unknown_command"@,
            Refusal::UnestablishedContract { .. } => "ingress_unestablished_contract"@,
            Refusal::DeviceLost { .. } => "ingress_device_lost"@,
            Refusal::DeviceNotLost { .. } => "ingress_device_not_lost"@,
            Refusal::ChannelNotOpen { .. } => "ingress_channel_not_open"@,
            Refusal::ChannelAlreadyOpen { .. } => "ingress_channel_already_open"@,
            Refusal::PayloadMismatch { .. } => "ingress_payload_mismatch"@,
            Refusal::PipelineUnusable(refusal) => refusal.slug_text(),
            Refusal::GenerationClosed { .. } => "ingress_generation_closed"@,
        }
    }

    pub fn slug(self) -> (slug: &'static str)
        ensures
            slug@ == self.slug_text(),
    {
        match self {
            Refusal::UnknownCommand { .. } => "ingress_unknown_command",
            Refusal::UnestablishedContract { .. } => "ingress_unestablished_contract",
            Refusal::DeviceLost { .. } => "ingress_device_lost",
            Refusal::DeviceNotLost { .. } => "ingress_device_not_lost",
            Refusal::ChannelNotOpen { .. } => "ingress_channel_not_open",
            Refusal::ChannelAlreadyOpen { .. } => "ingress_channel_already_open",
            Refusal::PayloadMismatch { .. } => "ingress_payload_mismatch",
            Refusal::PipelineUnusable(refusal) => refusal.slug(),
            Refusal::GenerationClosed { .. } => "ingress_generation_closed",
        }
    }
}

/// Why a control operation's transition did not happen.
///
/// One variant for each owner: opening is the session's and freeing is the
/// publisher's.
#[derive(Clone, Copy, Debug, PartialEq, Eq)]
pub enum ControlRefusal {
    Open(Refusal),
    Free(RetireRefusal),
}

impl ControlRefusal {
    pub open spec fn slug_text(self) -> Seq<char> {
        match self {
            ControlRefusal::Open(refusal) => refusal.slug_text(),
            ControlRefusal::Free(_) => "publish_live_positions"@,
        }
    }

    /// The forwarded owner's name, unchanged.
    #[must_use]
    pub fn slug(self) -> (slug: &'static str)
        ensures
            slug@ == self.slug_text(),
    {
        match self {
            ControlRefusal::Open(refusal) => refusal.slug(),
            ControlRefusal::Free(refusal) => refusal.slug(),
        }
    }
}

/// Whether this session has a host device incarnation to execute on.
#[derive(Clone, Copy, Debug, PartialEq, Eq, Structural)]
pub enum DeviceState {
    Live,
    Lost,
}

/// A packet as ingress receives it, before it is a transaction.
///
/// It carries no position: accepting it is what assigns one.
#[derive(Clone, Debug, PartialEq, Eq)]
pub struct Packet {
    /// Which dispatch table the opcode belongs to.
    pub channel: Channel,
    /// The ordering domain the packet arrived on.
    pub domain: ChannelId,
    /// The semantic lifetime this packet was read under.
    pub session: SessionGeneration,
    pub opcode: u16,
    /// What the command ledger says of the opcode.
    pub contract: CommandContract,
    pub stamp_waits: Vec<StampWait>,
    pub completion: Option<CompletionStamp>,
    /// The decoded work and everything it touches.
    pub payload: Payload,
}

/// What a device loss ended.
#[derive(Clone, Debug, PartialEq, Eq)]
#[must_use]
pub struct DeviceLoss {
    /// The incarnation that ended.
    pub epoch: DeviceEpoch,
    /// Transactions accepted into it that can never complete, in ingress order.
    pub stranded: Vec<IngressOrdinal>,
    /// Completion words of work that had already completed and was waiting
    /// behind a stranded position.
    pub released: Vec<Release>,
}

/// What accepting a packet produced.
#[derive(Clone, Debug, PartialEq, Eq)]
pub struct Admitted {
    pub transaction: DeviceTransaction,
    /// Earlier transactions this one must not overtake, in arrival order.
    pub hazard_waits: Vec<IngressOrdinal>,
    /// Whether it may begin immediately.
    pub ready: bool,
}

/// One more, stopping at the top of the word.
pub open spec fn one_more(count: usize) -> usize {
    if count == usize::MAX { count } else { (count + 1) as usize }
}

/// What a session holds.
#[verifier::ext_equal]
pub struct SessionState {
    pub id: SessionId,
    pub generation: SessionGeneration,
    pub epoch: DeviceEpoch,
    pub device: DeviceState,
    pub next_ingress: IngressOrdinal,
    /// The open channels, each with the last sequence it gave out.
    pub channels: Map<ChannelId, ChannelSequence>,
    pub accesses: Seq<AccessRow>,
    pub pipelines: Map<ResourceId, Pipeline>,
    pub leases: crate::pipeline::Census,
    pub readiness: Readiness,
    pub queues: Map<ChannelId, Seq<Position>>,
    /// The channel position of each outstanding transaction.
    pub positions: Map<IngressOrdinal, (ChannelId, ChannelSequence)>,
    pub refusals: usize,
}

impl SessionState {
    /// A channel's publication queue; empty for a channel that has none.
    pub open spec fn queue(self, domain: ChannelId) -> Seq<Position> {
        if self.queues.dom().contains(domain) {
            self.queues[domain]
        } else {
            Seq::empty()
        }
    }

    /// The planes agree: a transaction is outstanding in readiness exactly
    /// when it holds a channel position, the position is unfinished in its
    /// channel's queue, and only an outstanding transaction orders anything.
    pub open spec fn consistent(self) -> bool {
        &&& self.next_ingress.0 >= 1
        &&& forall|o: IngressOrdinal| #[trigger]
            self.positions.dom().contains(o) == crate::ready::is_pending(self.readiness.rows, o)
        &&& forall|o: IngressOrdinal| #[trigger]
            self.positions.dom().contains(o) ==> {
                &&& o.0 < self.next_ingress.0
                &&& self.channels.dom().contains(self.positions[o].0)
                &&& crate::publish::is_outstanding(
                    self.queue(self.positions[o].0),
                    self.positions[o].1,
                )
            }
        &&& forall|a: IngressOrdinal, b: IngressOrdinal|
            #![trigger self.positions.dom().contains(a), self.positions.dom().contains(b)]
            self.positions.dom().contains(a) && self.positions.dom().contains(b) && a != b
                ==> self.positions[a] != self.positions[b]
        &&& forall|d: ChannelId| #[trigger]
            self.queues.dom().contains(d) ==> crate::publish::in_channel_order(self.queues[d])
        &&& forall|d: ChannelId, i: int|
            self.queues.dom().contains(d) && 0 <= i < self.queues[d].len()
                ==> self.channels.dom().contains(d) && (
            #[trigger] self.queues[d][i]).sequence.0 <= self.channels[d].0
        &&& forall|i: int|
            0 <= i < self.accesses.len() ==> (#[trigger] self.accesses[i]).ordinal.0
                < self.next_ingress.0 && (self.accesses[i].live ==> self.positions.dom().contains(
                self.accesses[i].ordinal,
            ))
    }

    /// Counters with room for one more packet on a channel.
    pub open spec fn has_room(self, domain: ChannelId) -> bool {
        self.next_ingress.0 < u64::MAX && (self.channels.dom().contains(domain)
            ==> self.channels[domain].0 < u64::MAX)
    }

    /// Why a packet is refused.
    pub open spec fn refusal(self, packet: Packet) -> Option<Refusal> {
        if self.device is Lost {
            Some(Refusal::DeviceLost { epoch: self.epoch })
        } else if packet.session != self.generation {
            Some(Refusal::GenerationClosed { named: packet.session, current: self.generation })
        } else {
            match packet.contract {
                CommandContract::Undeclared => Some(
                    Refusal::UnknownCommand { channel: packet.channel, opcode: packet.opcode },
                ),
                CommandContract::Unestablished => Some(
                    Refusal::UnestablishedContract {
                        channel: packet.channel,
                        opcode: packet.opcode,
                    },
                ),
                CommandContract::Established(class) => if packet.payload.in_class() != class {
                    Some(
                        Refusal::PayloadMismatch {
                            channel: packet.channel,
                            opcode: packet.opcode,
                            declared: class,
                            decoded: packet.payload.in_class(),
                        },
                    )
                } else if !self.channels.dom().contains(packet.domain) {
                    Some(Refusal::ChannelNotOpen { channel: packet.domain })
                } else {
                    match self.pipeline_waits(packet.payload) {
                        Ok(_) => None,
                        Err(e) => Some(Refusal::PipelineUnusable(e)),
                    }
                },
            }
        }
    }

    /// The pipelines a payload has to wait for, or the one it can never use.
    pub open spec fn pipeline_waits(self, payload: Payload) -> Result<
        Seq<ResourceId>,
        LeaseRefusal,
    > {
        crate::pipeline::waits_outcome(self.pipelines, payload.bound(), self.generation)
    }

    /// One more packet was turned away.
    pub open spec fn turned_away(self) -> SessionState {
        SessionState { refusals: one_more(self.refusals), ..self }
    }

    /// Where the next packet on a channel stands.
    pub open spec fn identity_for(self, domain: ChannelId) -> TransactionIdentity {
        TransactionIdentity {
            session: self.generation,
            domain,
            domain_sequence: ChannelSequence((self.channels[domain].0 + 1) as u64),
            ingress: self.next_ingress,
        }
    }

    /// What the next packet waits for.
    pub open spec fn row_for(self, packet: Packet, hazards: Seq<IngressOrdinal>) -> Waiting {
        self.readiness.row_for(
            self.next_ingress,
            hazards,
            packet.stamp_waits@,
            self.pipeline_waits(packet.payload)->Ok_0,
            packet.completion,
        )
    }

    /// The session once a packet has become a transaction.
    pub open spec fn accepted(self, packet: Packet, hazards: Seq<IngressOrdinal>) -> SessionState {
        let identity = self.identity_for(packet.domain);
        SessionState {
            next_ingress: IngressOrdinal((self.next_ingress.0 + 1) as u64),
            channels: self.channels.insert(packet.domain, identity.domain_sequence),
            accesses: crate::depend::rows_with(
                self.accesses,
                self.next_ingress,
                packet.payload.touched(),
            ),
            leases: crate::pipeline::counts_after_leases(
                self.leases,
                self.pipelines,
                packet.payload.bound(),
                self.generation,
            ),
            readiness: self.readiness.with_row(self.row_for(packet, hazards)),
            queues: self.queues.insert(
                packet.domain,
                self.queue(packet.domain).push(
                    Position { sequence: identity.domain_sequence, finished: false, stamp: None },
                ),
            ),
            positions: self.positions.insert(
                self.next_ingress,
                (packet.domain, identity.domain_sequence),
            ),
            ..self
        }
    }

    /// The transaction's queue once its work has completed.
    pub open spec fn finished_queue(self, o: IngressOrdinal) -> Seq<Position> {
        crate::publish::with_finished(
            self.queue(self.positions[o].0),
            self.positions[o].1,
            self.readiness.owed_by(o),
        )
    }

    /// The transaction's queue once it has left it.
    pub open spec fn shortened_queue(self, o: IngressOrdinal) -> Seq<Position> {
        crate::publish::without(self.queue(self.positions[o].0), self.positions[o].1)
    }

    /// The session once a transaction is out of every plane, its channel's
    /// queue having become `queue` before it was drained.
    pub open spec fn departed(self, o: IngressOrdinal, queue: Seq<Position>) -> SessionState {
        SessionState {
            accesses: crate::depend::retired(self.accesses, o),
            readiness: crate::ready::announced(
                self.readiness.completed(o),
                crate::publish::published_by(queue),
            ),
            queues: self.queues.insert(self.positions[o].0, crate::publish::left_by(queue)),
            positions: self.positions.remove(o),
            ..self
        }
    }

    /// The session once a transaction has completed.
    pub open spec fn completed(self, o: IngressOrdinal) -> SessionState {
        self.departed(o, self.finished_queue(o))
    }

    /// What completing a transaction publishes.
    pub open spec fn completion_releases(self, o: IngressOrdinal) -> Seq<Release> {
        crate::publish::published_by(self.finished_queue(o))
    }

    /// The session once a transaction has been withdrawn.
    pub open spec fn withdrawn(self, o: IngressOrdinal) -> SessionState {
        self.departed(o, self.shortened_queue(o))
    }

    /// What withdrawing a transaction publishes.
    pub open spec fn withdrawal_releases(self, o: IngressOrdinal) -> Seq<Release> {
        crate::publish::published_by(self.shortened_queue(o))
    }

    /// The session once these transactions have been withdrawn, in order.
    pub open spec fn all_withdrawn(self, gone: Seq<IngressOrdinal>) -> SessionState
        decreases gone.len(),
    {
        if gone.len() == 0 {
            self
        } else {
            self.all_withdrawn(gone.drop_last()).withdrawn(gone.last())
        }
    }

    /// What withdrawing these transactions publishes.
    pub open spec fn all_withdrawal_releases(self, gone: Seq<IngressOrdinal>) -> Seq<Release>
        decreases gone.len(),
    {
        if gone.len() == 0 {
            Seq::empty()
        } else {
            self.all_withdrawal_releases(gone.drop_last()) + self.all_withdrawn(
                gone.drop_last(),
            ).withdrawal_releases(gone.last())
        }
    }

    /// The session once its device is gone, before anything is withdrawn.
    pub open spec fn without_device(self) -> SessionState {
        SessionState { device: DeviceState::Lost, ..self }
    }

    /// The session once a channel has been opened.
    pub open spec fn opened(self, domain: ChannelId) -> SessionState {
        SessionState { channels: self.channels.insert(domain, ChannelSequence(0)), ..self }
    }

    /// The session once a channel has ended.
    pub open spec fn freed(self, domain: ChannelId) -> SessionState {
        SessionState {
            channels: self.channels.remove(domain),
            queues: self.queues.remove(domain),
            ..self
        }
    }

    /// The session once a pipeline table has taken the place of its own.
    pub open spec fn with_pipelines(self, table: PipelineTable) -> SessionState {
        SessionState { pipelines: table@, leases: table.counts(), ..self }
    }
}

impl TableKey for IngressOrdinal {
    fn same(&self, other: &Self) -> (equal: bool) {
        self.0 == other.0
    }
}

/// The ordering and readiness plane for one semantic lifetime.
#[derive(Debug)]
pub struct SessionModel {
    id: SessionId,
    generation: SessionGeneration,
    epoch: DeviceEpoch,
    device: DeviceState,
    next_ingress: IngressOrdinal,
    /// The domains a channel definition has opened, each with the last
    /// sequence it gave out.
    channels: Table<ChannelId, ChannelSequence>,
    graph: DependencyGraph,
    pipelines: PipelineTable,
    scheduler: Scheduler,
    publisher: Publisher,
    /// Which channel position each outstanding transaction holds, in ingress
    /// order.
    position: Table<IngressOrdinal, (ChannelId, ChannelSequence)>,
    refusals: usize,
}

/// Pairs in ingress order.
spec fn by_ingress(entries: Seq<(IngressOrdinal, (ChannelId, ChannelSequence))>) -> bool {
    forall|i: int, j: int|
        0 <= i < j < entries.len() ==> (#[trigger] entries[i]).0.0 < (#[trigger] entries[j]).0.0
}

/// A transaction leaving takes nothing else out of agreement.
proof fn lemma_departed(s: SessionState, o: IngressOrdinal, queue: Seq<Position>)
    requires
        s.consistent(),
        crate::ready::rows_ascending(s.readiness.rows),
        s.positions.dom().contains(o),
        queue == s.finished_queue(o) || queue == s.shortened_queue(o),
        crate::publish::in_channel_order(crate::publish::left_by(queue)),
    ensures
        s.departed(o, queue).consistent(),
{
    let t = s.departed(o, queue);
    let (d, sequence) = s.positions[o];
    let q = s.queue(d);
    let left = crate::publish::left_by(queue);
    assert forall|x: IngressOrdinal| #[trigger]
        t.positions.dom().contains(x) == crate::ready::is_pending(t.readiness.rows, x) by {
        crate::ready::lemma_announced_pending(
            s.readiness.completed(o),
            crate::publish::published_by(queue),
            x,
        );
        assert(s.positions.dom().contains(o));
        crate::ready::lemma_pending_completed(s.readiness, o, x);
        assert(s.positions.dom().contains(x) == crate::ready::is_pending(s.readiness.rows, x));
    }
    crate::publish::lemma_left(queue);
    crate::publish::lemma_finish(q, sequence, s.readiness.owed_by(o));
    crate::publish::lemma_take_out(q, sequence);
    assert forall|i: int| 0 <= i < queue.len() implies exists|k: int|
        0 <= k < q.len() && (#[trigger] queue[i]).sequence == (#[trigger] q[k]).sequence by {
        if queue == s.finished_queue(o) {
            assert(queue[i].sequence == q[i].sequence);
        } else {
            assert(q.contains(queue[i]));
            let k = choose|k: int| 0 <= k < q.len() && q[k] == queue[i];
            assert(queue[i].sequence == q[k].sequence);
        }
    }
    assert forall|x: IngressOrdinal| #[trigger] t.positions.dom().contains(x) implies {
        &&& x.0 < t.next_ingress.0
        &&& t.channels.dom().contains(t.positions[x].0)
        &&& crate::publish::is_outstanding(t.queue(t.positions[x].0), t.positions[x].1)
    } by {
        assert(s.positions.dom().contains(x));
        if t.positions[x].0 == d {
            assert(s.positions[x] != s.positions[o]);
            assert(crate::publish::is_outstanding(queue, t.positions[x].1));
        }
    }
    assert forall|a: IngressOrdinal, b: IngressOrdinal|
        #![trigger t.positions.dom().contains(a), t.positions.dom().contains(b)]
        t.positions.dom().contains(a) && t.positions.dom().contains(b) && a
            != b implies t.positions[a] != t.positions[b] by {
        assert(s.positions.dom().contains(a) && s.positions.dom().contains(b));
    }
    assert forall|e: ChannelId, i: int|
        t.queues.dom().contains(e) && 0 <= i < t.queues[e].len() implies t.channels.dom().contains(
        e,
    ) && (#[trigger] t.queues[e][i]).sequence.0 <= t.channels[e].0 by {
        if e == d {
            assert(t.queues[e][i] == left[i]);
            assert(queue.contains(left[i]));
            let j = choose|j: int| 0 <= j < queue.len() && queue[j] == left[i];
            let k = choose|k: int| 0 <= k < q.len() && queue[j].sequence == (#[trigger] q[k]).sequence;
            assert(s.queues[d][k].sequence.0 <= s.channels[d].0);
        } else {
            assert(t.queues[e][i] == s.queues[e][i]);
        }
    }
    assert forall|i: int| 0 <= i < t.accesses.len() implies (#[trigger] t.accesses[i]).ordinal.0
        < t.next_ingress.0 && (t.accesses[i].live ==> t.positions.dom().contains(
        t.accesses[i].ordinal,
    )) by {
        assert(s.accesses[i].ordinal.0 < s.next_ingress.0);
    }
}

/// Accepting a packet keeps the planes in agreement.
proof fn lemma_accepted(s: SessionState, packet: Packet, hazards: Seq<IngressOrdinal>)
    requires
        s.consistent(),
        s.has_room(packet.domain),
        s.refusal(packet) is None,
    ensures
        s.accepted(packet, hazards).consistent(),
{
    let t = s.accepted(packet, hazards);
    let o = s.next_ingress;
    let d = packet.domain;
    let sequence = s.identity_for(d).domain_sequence;
    let q = s.queue(d);
    let position = Position { sequence, finished: false, stamp: None };
    assert(!s.positions.dom().contains(o));
    assert(t.queue(d) == q.push(position));
    assert forall|i: int| 0 <= i < q.len() implies (#[trigger] q[i]).sequence.0
        <= s.channels[d].0 by {
        assert(s.queues[d][i].sequence.0 <= s.channels[d].0);
    }
    assert forall|x: IngressOrdinal| #[trigger]
        t.positions.dom().contains(x) == crate::ready::is_pending(t.readiness.rows, x) by {
        crate::ready::lemma_pending_with(s.readiness.rows, s.row_for(packet, hazards), x);
        assert(s.positions.dom().contains(x) == crate::ready::is_pending(s.readiness.rows, x));
    }
    assert forall|x: IngressOrdinal| #[trigger] t.positions.dom().contains(x) implies {
        &&& x.0 < t.next_ingress.0
        &&& t.channels.dom().contains(t.positions[x].0)
        &&& crate::publish::is_outstanding(t.queue(t.positions[x].0), t.positions[x].1)
    } by {
        if x == o {
            assert(crate::publish::unfinished_at(t.queue(d), sequence, q.len() as int));
        } else {
            assert(s.positions.dom().contains(x));
            if s.positions[x].0 == d {
                let i = choose|i: int| crate::publish::unfinished_at(q, s.positions[x].1, i);
                assert(crate::publish::unfinished_at(t.queue(d), s.positions[x].1, i));
            }
        }
    }
    assert forall|a: IngressOrdinal, b: IngressOrdinal|
        #![trigger t.positions.dom().contains(a), t.positions.dom().contains(b)]
        t.positions.dom().contains(a) && t.positions.dom().contains(b) && a
            != b implies t.positions[a] != t.positions[b] by {
        if a != o {
            assert(s.positions.dom().contains(a));
            if s.positions[a].0 == d {
                let i = choose|i: int| crate::publish::unfinished_at(q, s.positions[a].1, i);
                assert(q[i].sequence.0 <= s.channels[d].0);
            }
        }
        if b != o {
            assert(s.positions.dom().contains(b));
            if s.positions[b].0 == d {
                let i = choose|i: int| crate::publish::unfinished_at(q, s.positions[b].1, i);
                assert(q[i].sequence.0 <= s.channels[d].0);
            }
        }
    }
    assert forall|e: ChannelId| #[trigger]
        t.queues.dom().contains(e) implies crate::publish::in_channel_order(t.queues[e]) by {
        if e != d {
            assert(s.queues.dom().contains(e));
        } else if s.queues.dom().contains(d) {
            assert(crate::publish::in_channel_order(q));
        }
    }
    assert forall|e: ChannelId, i: int|
        t.queues.dom().contains(e) && 0 <= i < t.queues[e].len() implies t.channels.dom().contains(
        e,
    ) && (#[trigger] t.queues[e][i]).sequence.0 <= t.channels[e].0 by {
        if e == d {
            if i < q.len() {
                assert(t.queues[d][i] == q[i]);
            }
        } else {
            assert(t.queues[e][i] == s.queues[e][i]);
        }
    }
    assert forall|i: int| 0 <= i < t.accesses.len() implies (#[trigger] t.accesses[i]).ordinal.0
        < t.next_ingress.0 && (t.accesses[i].live ==> t.positions.dom().contains(
        t.accesses[i].ordinal,
    )) by {
        if i < s.accesses.len() {
            assert(t.accesses[i] == s.accesses[i]);
        }
    }
}

/// Work that binds no pipeline waits for none and charges nothing.
proof fn lemma_no_leases(
    counts: crate::pipeline::Census,
    pipelines: Map<ResourceId, Pipeline>,
    generation: SessionGeneration,
)
    ensures
        crate::pipeline::waits_outcome(pipelines, Seq::empty(), generation) == Ok::<
            Seq<ResourceId>,
            LeaseRefusal,
        >(Seq::empty()),
        crate::pipeline::counts_after_leases(counts, pipelines, Seq::empty(), generation)
            == counts,
{
    reveal(Seq::filter);
    let none = Seq::<ResourceId>::empty();
    assert(crate::pipeline::usable_prefix(pipelines, none, generation) == 0);
    assert(none.take(0) =~= none);
    assert(crate::pipeline::still_building(pipelines, none, generation) =~= none);
    assert(crate::pipeline::already_built(pipelines, none, generation) =~= none);
}

/// The next packet on a channel comes after everything in it.
proof fn lemma_room(s: SessionState, domain: ChannelId)
    requires
        s.consistent(),
    ensures
        !crate::ready::is_pending(s.readiness.rows, s.next_ingress),
        s.accesses.len() > 0 ==> s.next_ingress.0 > s.accesses.last().ordinal.0,
        s.queue(domain).len() > 0 ==> s.channels.dom().contains(domain)
            && s.queue(domain).last().sequence.0 <= s.channels[domain].0,
        !s.positions.dom().contains(s.next_ingress),
{
    assert(s.positions.dom().contains(s.next_ingress) == crate::ready::is_pending(
        s.readiness.rows,
        s.next_ingress,
    ));
    if s.accesses.len() > 0 {
        assert(s.accesses[s.accesses.len() - 1].ordinal.0 < s.next_ingress.0);
    }
    if s.queue(domain).len() > 0 {
        assert(s.queues[domain][s.queues[domain].len() - 1].sequence.0 <= s.channels[domain].0);
    }
}

impl SessionModel {
    pub closed spec fn state(&self) -> SessionState {
        SessionState {
            id: self.id,
            generation: self.generation,
            epoch: self.epoch,
            device: self.device,
            next_ingress: self.next_ingress,
            channels: self.channels@,
            accesses: self.graph.rows(),
            pipelines: self.pipelines@,
            leases: self.pipelines.counts(),
            readiness: self.scheduler.state(),
            queues: self.publisher@,
            positions: self.position@,
            refusals: self.refusals,
        }
    }

    /// What the hazard graph has counted.
    pub closed spec fn hazard_census(&self) -> crate::depend::Census {
        self.graph.counts()
    }

    /// How many positions have been released across every channel.
    pub closed spec fn released_so_far(&self) -> usize {
        self.publisher.total()
    }

    pub closed spec fn parts_wf(&self) -> bool {
        &&& self.channels.wf()
        &&& self.graph.wf()
        &&& self.pipelines.wf()
        &&& self.scheduler.wf()
        &&& self.publisher.wf()
        &&& self.position.wf()
        &&& by_ingress(self.position.entries())
        &&& self.graph.newest() matches Some(newest) ==> newest.0 < self.next_ingress.0
        &&& forall|d: ChannelId| #[trigger]
            self.publisher.latest().dom().contains(d) ==> self.channels@.dom().contains(d)
                && self.publisher.latest()[d].0 <= self.channels@[d].0
    }

    pub open spec fn wf(&self) -> bool {
        self.parts_wf() && self.state().consistent()
    }

    #[must_use]
    pub fn new(id: SessionId) -> (session: Self)
        ensures
            session.wf(),
            session.state() == (SessionState {
                id,
                generation: SessionGeneration(1),
                epoch: DeviceEpoch(1),
                device: DeviceState::Live,
                next_ingress: IngressOrdinal(1),
                channels: Map::empty(),
                accesses: Seq::empty(),
                pipelines: Map::empty(),
                leases: crate::pipeline::Census {
                    declared: 0,
                    ready: 0,
                    refused: 0,
                    retired: 0,
                    leases_pending: 0,
                    leases_ready: 0,
                },
                readiness: Readiness::empty(),
                queues: Map::empty(),
                positions: Map::empty(),
                refusals: 0,
            }),
            session.released_so_far() == 0,
            session.hazard_census().accesses == 0,
            session.hazard_census().edges == 0,
            session.hazard_census().by_rung@ == seq![0usize, 0, 0],
            session.hazard_census().domain_only_comparisons == 0,
            session.hazard_census().edges_from_unknown_mode == 0,
    {
        SessionModel {
            id,
            generation: SessionGeneration::first(),
            epoch: DeviceEpoch::first(),
            device: DeviceState::Live,
            next_ingress: IngressOrdinal(1),
            channels: Table::new(),
            graph: DependencyGraph::new(),
            pipelines: PipelineTable::new(),
            scheduler: Scheduler::new(),
            publisher: Publisher::new(),
            position: Table::new(),
            refusals: 0,
        }
    }

    #[must_use]
    pub fn id(&self) -> (id: SessionId)
        ensures
            id == self.state().id,
    {
        self.id
    }

    #[must_use]
    pub fn generation(&self) -> (generation: SessionGeneration)
        ensures
            generation == self.state().generation,
    {
        self.generation
    }

    #[must_use]
    pub fn refusals(&self) -> (n: usize)
        ensures
            n == self.state().refusals,
    {
        self.refusals
    }

    /// The host device incarnation this session's native objects belong to.
    #[must_use]
    pub fn epoch(&self) -> (epoch: DeviceEpoch)
        ensures
            epoch == self.state().epoch,
    {
        self.epoch
    }

    /// The pair every lease this session issues carries.
    #[must_use]
    pub fn lifetime(&self) -> (lifetime: Lifetime)
        ensures
            lifetime == (Lifetime { session: self.state().generation, epoch: self.state().epoch }),
    {
        Lifetime::new(self.generation, self.epoch)
    }

    /// Close this semantic lifetime and open the next.
    ///
    /// New resolution stops; accepted work is not invalidated. The device epoch
    /// does not move: a guest reset says nothing about the host device.
    pub fn reset(&mut self) -> (generation: SessionGeneration)
        requires
            old(self).wf(),
        ensures
            final(self).wf(),
            generation.0 == crate::identity::next_count(old(self).state().generation.0),
            final(self).state() == (SessionState { generation, ..old(self).state() }),
            final(self).hazard_census() == old(self).hazard_census(),
            final(self).released_so_far() == old(self).released_so_far(),
    {
        self.generation = self.generation.next();
        self.generation
    }

    /// Whether this session has a host device at all.
    #[must_use]
    pub fn device_state(&self) -> (device: DeviceState)
        ensures
            device == self.state().device,
    {
        self.device
    }

    /// End the host device incarnation.
    ///
    /// Every transaction accepted into it is stranded: nothing will complete
    /// them, so each is withdrawn here, in ingress order, and named. The
    /// semantic generation does not move, and no replacement is opened.
    pub fn device_lost(&mut self) -> (loss: DeviceLoss)
        requires
            old(self).wf(),
        ensures
            final(self).wf(),
            loss.epoch == old(self).state().epoch,
            crate::ordinal_set::ascending(loss.stranded@),
            forall|o: IngressOrdinal| #[trigger]
                loss.stranded@.contains(o) == old(self).state().positions.dom().contains(o),
            loss.released@ == old(self).state().without_device().all_withdrawal_releases(
                loss.stranded@,
            ),
            final(self).state() == old(self).state().without_device().all_withdrawn(
                loss.stranded@,
            ),
            final(self).state().positions == Map::<
                IngressOrdinal,
                (ChannelId, ChannelSequence),
            >::empty(),
            final(self).hazard_census() == old(self).hazard_census(),
            final(self).released_so_far() == crate::publish::released_total(
                old(self).released_so_far(),
                loss.released@.len(),
            ),
    {
        let epoch = self.epoch;
        self.device = DeviceState::Lost;
        let ghost s = self.state();
        assert(s == old(self).state().without_device());
        let ghost entries = self.position.entries();
        let mut stranded: Vec<IngressOrdinal> = Vec::new();
        let n = self.position.len();
        let mut i: usize = 0;
        while i < n
            invariant
                self.parts_wf(),
                self.state() == s,
                self.hazard_census() == old(self).hazard_census(),
                self.released_so_far() == old(self).released_so_far(),
                entries == self.position.entries(),
                n == entries.len(),
                i <= n,
                stranded@ == entries.take(i as int).map_values(
                    |e: (IngressOrdinal, (ChannelId, ChannelSequence))| e.0,
                ),
            decreases n - i,
        {
            stranded.push(self.position.key(i));
            i += 1;
            assert(stranded@ =~= entries.take(i as int).map_values(
                |e: (IngressOrdinal, (ChannelId, ChannelSequence))| e.0,
            ));
        }
        proof {
            assert forall|a: int, b: int| 0 <= a < b < stranded@.len() implies (
            #[trigger] stranded@[a]).0 < (#[trigger] stranded@[b]).0 by {
                assert(entries[a].0.0 < entries[b].0.0);
            }
            assert forall|o: IngressOrdinal| #[trigger]
                stranded@.contains(o) == s.positions.dom().contains(o) by {
                if stranded@.contains(o) {
                    let k = choose|k: int| 0 <= k < stranded@.len() && stranded@[k] == o;
                    crate::table::lemma_entry_in_map(entries, k);
                    assert(entries[k].0 == o);
                }
                if s.positions.dom().contains(o) {
                    let k = crate::table::lemma_key_has_index(entries, o);
                    assert(stranded@[k] == o);
                }
            }
        }
        let mut released: Vec<Release> = Vec::new();
        let mut k: usize = 0;
        assert(stranded@.take(0) =~= Seq::<IngressOrdinal>::empty());
        while k < stranded.len()
            invariant
                self.wf(),
                k <= stranded@.len(),
                crate::ordinal_set::ascending(stranded@),
                forall|o: IngressOrdinal| #[trigger]
                    stranded@.contains(o) == s.positions.dom().contains(o),
                forall|o: IngressOrdinal| #[trigger]
                    self.state().positions.dom().contains(o) == (s.positions.dom().contains(o)
                        && !stranded@.take(k as int).contains(o)),
                self.state() == s.all_withdrawn(stranded@.take(k as int)),
                released@ == s.all_withdrawal_releases(stranded@.take(k as int)),
                self.hazard_census() == old(self).hazard_census(),
                self.released_so_far() == crate::publish::released_total(
                    old(self).released_so_far(),
                    released@.len(),
                ),
            decreases stranded.len() - k,
        {
            let o = stranded[k];
            let ghost seen = stranded@.take(k as int);
            let ghost before = self.state();
            proof {
                assert(stranded@.contains(o));
                if seen.contains(o) {
                    let j = choose|j: int| 0 <= j < seen.len() && seen[j] == o;
                    assert(stranded@[j].0 < stranded@[k as int].0);
                }
                assert(s.positions.dom().contains(o));
            }
            let mut out = self.withdraw(o);
            released.append(&mut out);
            proof {
                let next = stranded@.take(k + 1);
                assert(next.drop_last() =~= seen);
                assert(next.last() == o);
                assert(next =~= seen.push(o));
                assert forall|x: IngressOrdinal| #[trigger]
                    self.state().positions.dom().contains(x) == (s.positions.dom().contains(x)
                        && !next.contains(x)) by {
                    assert(before.positions.dom().contains(x) == (s.positions.dom().contains(x)
                        && !seen.contains(x)));
                    if seen.contains(x) {
                        let j = choose|j: int| 0 <= j < seen.len() && seen[j] == x;
                        assert(next[j] == x);
                    }
                    assert(next[k as int] == o);
                    if next.contains(x) && x != o {
                        let j = choose|j: int| 0 <= j < next.len() && next[j] == x;
                        assert(seen[j] == x);
                    }
                }
            }
            k += 1;
        }
        proof {
            assert(stranded@.take(k as int) =~= stranded@);
            assert(self.state().positions =~= Map::<
                IngressOrdinal,
                (ChannelId, ChannelSequence),
            >::empty());
        }
        DeviceLoss { epoch, stranded, released }
    }

    /// Open the next host device incarnation after a loss.
    pub fn recreate_device(&mut self) -> (r: Result<DeviceEpoch, Refusal>)
        requires
            old(self).wf(),
        ensures
            final(self).wf(),
            final(self).hazard_census() == old(self).hazard_census(),
            final(self).released_so_far() == old(self).released_so_far(),
            match old(self).state().device {
                DeviceState::Live => r == Err::<DeviceEpoch, Refusal>(
                    Refusal::DeviceNotLost { epoch: old(self).state().epoch },
                ) && final(self).state() == old(self).state(),
                DeviceState::Lost => r matches Ok(epoch) && epoch.0
                    == crate::identity::next_count(old(self).state().epoch.0)
                    && final(self).state() == (SessionState {
                    epoch,
                    device: DeviceState::Live,
                    ..old(self).state()
                }),
            },
    {
        if self.device == DeviceState::Live {
            return Err(Refusal::DeviceNotLost { epoch: self.epoch });
        }
        self.epoch = self.epoch.next();
        self.device = DeviceState::Live;
        Ok(self.epoch)
    }

    /// Turn a packet into a transaction, or refuse it.
    ///
    /// A refusal consumes no ordinal and no sequence, takes no pipeline lease,
    /// and is counted.
    pub fn accept(&mut self, packet: Packet) -> (r: Result<Admitted, Refusal>)
        requires
            old(self).wf(),
            old(self).state().has_room(packet.domain),
        ensures
            final(self).wf(),
            final(self).released_so_far() == old(self).released_so_far(),
            match old(self).state().refusal(packet) {
                Some(refusal) => {
                    &&& r == Err::<Admitted, Refusal>(refusal)
                    &&& final(self).state() == old(self).state().turned_away()
                    &&& final(self).hazard_census() == old(self).hazard_census()
                },
                None => {
                    &&& r matches Ok(admitted)
                    &&& admitted.transaction.identity == old(self).state().identity_for(
                        packet.domain,
                    )
                    &&& admitted.transaction.stamp_waits == packet.stamp_waits
                    &&& admitted.transaction.completion == packet.completion
                    &&& admitted.transaction.payload == packet.payload
                    &&& crate::ordinal_set::ascending(admitted.hazard_waits@)
                    &&& forall|o: IngressOrdinal| #[trigger]
                        admitted.hazard_waits@.contains(o) == crate::depend::must_wait_for(
                            old(self).state().accesses,
                            old(self).state().next_ingress,
                            packet.payload.touched(),
                            o,
                        )
                    &&& admitted.ready == old(self).state().row_for(
                        packet,
                        admitted.hazard_waits@,
                    ).unblocked()
                    &&& final(self).state() == old(self).state().accepted(
                        packet,
                        admitted.hazard_waits@,
                    )
                    &&& crate::depend::charged(
                        old(self).hazard_census(),
                        final(self).hazard_census(),
                        old(self).state().accesses,
                        old(self).state().next_ingress,
                        packet.payload.touched(),
                        admitted.hazard_waits@.len(),
                    )
                },
            },
    {
        match self.judge(&packet) {
            Some(refusal) => {
                self.refusals = self.refusals.saturating_add(1);
                return Err(refusal);
            },
            None => {},
        }
        let ghost s = self.state();
        let generation = self.generation;
        let pipeline_waits = match &packet.payload {
            Payload::Exec(work) => match self.pipelines.waits_for(
                work.pipeline_leases.as_slice(),
                generation,
            ) {
                Ok(waits) => waits,
                Err(refusal) => {
                    return Err(Refusal::PipelineUnusable(refusal));
                },
            },
            _ => {
                proof {
                    lemma_no_leases(s.leases, s.pipelines, generation);
                }
                Vec::new()
            },
        };
        assert(Ok::<Seq<ResourceId>, LeaseRefusal>(pipeline_waits@) == s.pipeline_waits(
            packet.payload,
        ));
        let ingress = self.next_ingress;
        let sequence = match self.channels.get(packet.domain) {
            Some(last) => last.next(),
            None => ChannelSequence(1),
        };
        proof {
            lemma_room(s, packet.domain);
        }
        self.next_ingress = ingress.next();
        self.channels.insert(packet.domain, sequence);
        self.publisher.accept(packet.domain, sequence);
        let ghost held = self.position.entries();
        self.position.insert(ingress, (packet.domain, sequence));
        proof {
            let entries = self.position.entries();
            assert forall|i: int, j: int| 0 <= i < j < entries.len() implies (
            #[trigger] entries[i]).0.0 < (#[trigger] entries[j]).0.0 by {
                crate::table::lemma_entry_in_map(held, i);
                assert(s.positions.dom().contains(held[i].0));
            }
        }
        let hazard_waits = self.graph.accept(ingress, packet.payload.accesses());
        let ready = self.scheduler.accept_building(
            ingress,
            hazard_waits.as_slice(),
            packet.stamp_waits.as_slice(),
            pipeline_waits,
            packet.completion,
        );
        proof {
            assert(self.state() =~= s.accepted(packet, hazard_waits@));
            lemma_accepted(s, packet, hazard_waits@);
        }
        let identity = TransactionIdentity {
            session: self.generation,
            domain: packet.domain,
            domain_sequence: sequence,
            ingress,
        };
        Ok(
            Admitted {
                transaction: DeviceTransaction {
                    identity,
                    stamp_waits: packet.stamp_waits,
                    completion: packet.completion,
                    payload: packet.payload,
                },
                hazard_waits,
                ready,
            },
        )
    }

    /// Why a packet is refused, if it is. Takes nothing.
    fn judge(&self, packet: &Packet) -> (refusal: Option<Refusal>)
        requires
            self.wf(),
        ensures
            refusal == self.state().refusal(*packet),
    {
        if self.device == DeviceState::Lost {
            return Some(Refusal::DeviceLost { epoch: self.epoch });
        }
        if packet.session != self.generation {
            return Some(
                Refusal::GenerationClosed { named: packet.session, current: self.generation },
            );
        }
        let class = match packet.contract {
            CommandContract::Undeclared => {
                return Some(
                    Refusal::UnknownCommand { channel: packet.channel, opcode: packet.opcode },
                );
            },
            CommandContract::Unestablished => {
                return Some(
                    Refusal::UnestablishedContract {
                        channel: packet.channel,
                        opcode: packet.opcode,
                    },
                );
            },
            CommandContract::Established(class) => class,
        };
        let decoded = packet.payload.class();
        if decoded != class {
            return Some(
                Refusal::PayloadMismatch {
                    channel: packet.channel,
                    opcode: packet.opcode,
                    declared: class,
                    decoded,
                },
            );
        }
        if !self.channels.contains(packet.domain) {
            return Some(Refusal::ChannelNotOpen { channel: packet.domain });
        }
        match &packet.payload {
            Payload::Exec(work) => match self.pipelines.check(
                work.pipeline_leases.as_slice(),
                self.generation,
            ) {
                Ok(()) => None,
                Err(refusal) => Some(Refusal::PipelineUnusable(refusal)),
            },
            _ => {
                proof {
                    lemma_no_leases(
                        self.state().leases,
                        self.state().pipelines,
                        self.state().generation,
                    );
                }
                None
            },
        }
    }

    /// Complete a transaction: release its dependents, stop its accesses
    /// creating edges, and hand its channel's publication order whatever it now
    /// owes.
    ///
    /// What comes back is what the channel published: possibly this
    /// transaction's stamp, possibly a queue of them, possibly nothing.
    pub fn complete(&mut self, ingress: IngressOrdinal) -> (released: Vec<Release>)
        requires
            old(self).wf(),
            old(self).state().positions.dom().contains(ingress),
        ensures
            final(self).wf(),
            released@ == old(self).state().completion_releases(ingress),
            final(self).state() == old(self).state().completed(ingress),
            final(self).hazard_census() == old(self).hazard_census(),
            final(self).released_so_far() == crate::publish::released_total(
                old(self).released_so_far(),
                released@.len(),
            ),
    {
        let ghost s = self.state();
        let (domain, sequence) = self.leave(ingress);
        let owed = self.scheduler.complete(ingress);
        let released = self.publisher.complete(domain, sequence, owed);
        self.announce(&released);
        proof {
            assert(self.state() =~= s.completed(ingress));
            assert(crate::publish::in_channel_order(self.publisher@[domain]));
            lemma_departed(s, ingress, s.finished_queue(ingress));
        }
        released
    }

    /// Remove a transaction that will never publish, releasing everything it
    /// was holding in every plane.
    ///
    /// Its own completion word is not published: the work never ran.
    pub fn withdraw(&mut self, ingress: IngressOrdinal) -> (released: Vec<Release>)
        requires
            old(self).wf(),
            old(self).state().positions.dom().contains(ingress),
        ensures
            final(self).wf(),
            released@ == old(self).state().withdrawal_releases(ingress),
            final(self).state() == old(self).state().withdrawn(ingress),
            final(self).hazard_census() == old(self).hazard_census(),
            final(self).released_so_far() == crate::publish::released_total(
                old(self).released_so_far(),
                released@.len(),
            ),
    {
        let ghost s = self.state();
        let (domain, sequence) = self.leave(ingress);
        let _ = self.scheduler.complete(ingress);
        let released = self.publisher.withdraw(domain, sequence);
        self.announce(&released);
        proof {
            assert(self.state() =~= s.withdrawn(ingress));
            assert(crate::publish::in_channel_order(self.publisher@[domain]));
            lemma_departed(s, ingress, s.shortened_queue(ingress));
        }
        released
    }

    /// Give up a transaction's channel position and its accesses.
    fn leave(&mut self, ingress: IngressOrdinal) -> (position: (ChannelId, ChannelSequence))
        requires
            old(self).wf(),
            old(self).state().positions.dom().contains(ingress),
        ensures
            final(self).parts_wf(),
            position == old(self).state().positions[ingress],
            final(self).scheduler == old(self).scheduler,
            final(self).publisher == old(self).publisher,
            final(self).hazard_census() == old(self).hazard_census(),
            final(self).state() == (SessionState {
                accesses: crate::depend::retired(old(self).state().accesses, ingress),
                positions: old(self).state().positions.remove(ingress),
                ..old(self).state()
            }),
    {
        self.graph.retire(ingress);
        let ghost before = self.position.entries();
        match self.position.find(ingress) {
            Some(i) => {
                let pair = self.position.remove_at(i);
                proof {
                    let after = self.position.entries();
                    assert forall|a: int, b: int| 0 <= a < b < after.len() implies (
                    #[trigger] after[a]).0.0 < (#[trigger] after[b]).0.0 by {
                        let x = if a < i { a } else { a + 1 };
                        let y = if b < i { b } else { b + 1 };
                        assert(after[a] == before[x] && after[b] == before[y]);
                    }
                }
                pair.1
            },
            None => (ChannelId(0), ChannelSequence(0)),
        }
    }

    /// Tell the readiness service what the guest can now read.
    fn announce(&mut self, released: &Vec<Release>)
        requires
            old(self).parts_wf(),
        ensures
            final(self).parts_wf(),
            final(self).publisher == old(self).publisher,
            final(self).hazard_census() == old(self).hazard_census(),
            final(self).released_so_far() == old(self).released_so_far(),
            final(self).state() == (SessionState {
                readiness: crate::ready::announced(old(self).state().readiness, released@),
                ..old(self).state()
            }),
    {
        let ghost r = self.state().readiness;
        let mut i: usize = 0;
        assert(released@.take(0) =~= Seq::<Release>::empty());
        while i < released.len()
            invariant
                self.parts_wf(),
                self.publisher == old(self).publisher,
                self.hazard_census() == old(self).hazard_census(),
                i <= released@.len(),
                r == old(self).state().readiness,
                self.state() =~= (SessionState {
                    readiness: crate::ready::announced(r, released@.take(i as int)),
                    ..old(self).state()
                }),
            decreases released.len() - i,
        {
            proof {
                assert(released@.take(i + 1).drop_last() =~= released@.take(i as int));
            }
            if let Some(stamp) = released[i].stamp {
                self.scheduler.publish(stamp);
            }
            i += 1;
        }
        assert(released@.take(i as int) =~= released@);
    }

    #[must_use]
    pub fn publisher(&self) -> (publisher: &Publisher)
        requires
            self.wf(),
        ensures
            publisher.wf(),
            publisher@ == self.state().queues,
            publisher.total() == self.released_so_far(),
    {
        &self.publisher
    }

    /// Open a submission domain that no guest command asked for.
    ///
    /// The root ring exists before the guest can name anything, so whoever
    /// opened it opens its domain like any other.
    pub fn open_channel(&mut self, domain: ChannelId) -> (r: Result<(), Refusal>)
        requires
            old(self).wf(),
        ensures
            final(self).wf(),
            final(self).hazard_census() == old(self).hazard_census(),
            final(self).released_so_far() == old(self).released_so_far(),
            if old(self).state().channels.dom().contains(domain) {
                r == Err::<(), Refusal>(Refusal::ChannelAlreadyOpen { channel: domain })
                    && final(self).state() == old(self).state().turned_away()
            } else {
                r is Ok && final(self).state() == old(self).state().opened(domain)
            },
    {
        if self.channels.contains(domain) {
            self.refusals = self.refusals.saturating_add(1);
            return Err(Refusal::ChannelAlreadyOpen { channel: domain });
        }
        let ghost s = self.state();
        self.channels.insert(domain, ChannelSequence(0));
        proof {
            let t = self.state();
            assert(t =~= s.opened(domain));
            assert forall|o: IngressOrdinal| #[trigger] t.positions.dom().contains(o) implies {
                &&& o.0 < t.next_ingress.0
                &&& t.channels.dom().contains(t.positions[o].0)
                &&& crate::publish::is_outstanding(t.queue(t.positions[o].0), t.positions[o].1)
            } by {
                assert(s.positions.dom().contains(o));
                assert(t.queue(t.positions[o].0) == s.queue(s.positions[o].0));
            }
            assert forall|e: ChannelId, i: int|
                t.queues.dom().contains(e) && 0 <= i
                    < t.queues[e].len() implies t.channels.dom().contains(e) && (
            #[trigger] t.queues[e][i]).sequence.0 <= t.channels[e].0 by {
                assert(s.queues[e][i].sequence.0 <= s.channels[e].0);
            }
        }
        Ok(())
    }

    /// Whether a domain is open.
    #[must_use]
    pub fn channel_open(&self, domain: ChannelId) -> (open: bool)
        requires
            self.wf(),
        ensures
            open == self.state().channels.dom().contains(domain),
    {
        self.channels.contains(domain)
    }

    /// End a channel's publication lifetime.
    ///
    /// Refused while the channel holds unreleased positions: the guest is
    /// waiting on their completion words.
    pub fn retire_channel(&mut self, domain: ChannelId) -> (r: Result<(), RetireRefusal>)
        requires
            old(self).wf(),
        ensures
            final(self).wf(),
            final(self).hazard_census() == old(self).hazard_census(),
            final(self).released_so_far() == old(self).released_so_far(),
            if old(self).state().queue(domain).len() > 0 {
                r == Err::<(), RetireRefusal>(
                    RetireRefusal::LivePositions {
                        outstanding: old(self).state().queue(domain).len() as usize,
                    },
                ) && final(self).state() == old(self).state()
            } else {
                r is Ok && final(self).state() == old(self).state().freed(domain)
            },
    {
        let ghost s = self.state();
        match self.publisher.retire(domain) {
            Ok(()) => {},
            Err(refusal) => {
                return Err(refusal);
            },
        }
        let _ = self.channels.remove(domain);
        proof {
            let t = self.state();
            assert(t =~= s.freed(domain));
            assert forall|o: IngressOrdinal| #[trigger] t.positions.dom().contains(o) implies {
                &&& o.0 < t.next_ingress.0
                &&& t.channels.dom().contains(t.positions[o].0)
                &&& crate::publish::is_outstanding(t.queue(t.positions[o].0), t.positions[o].1)
            } by {
                assert(s.positions.dom().contains(o));
                let d = s.positions[o].0;
                let i = choose|i: int|
                    crate::publish::unfinished_at(s.queue(d), s.positions[o].1, i);
                assert(d != domain);
                assert(t.queue(d) == s.queue(d));
            }
            assert forall|e: ChannelId, i: int|
                t.queues.dom().contains(e) && 0 <= i
                    < t.queues[e].len() implies t.channels.dom().contains(e) && (
            #[trigger] t.queues[e][i]).sequence.0 <= t.channels[e].0 by {
                assert(s.queues[e][i].sequence.0 <= s.channels[e].0);
            }
        }
        Ok(())
    }

    /// Perform a control operation's effect on this session.
    ///
    /// Only the two channel transitions have one: a display's content belongs
    /// to the layer that has a display, and an inert payload does nothing.
    pub fn apply_control(&mut self, op: ControlOp) -> (r: Result<(), ControlRefusal>)
        requires
            old(self).wf(),
        ensures
            final(self).wf(),
            final(self).hazard_census() == old(self).hazard_census(),
            final(self).released_so_far() == old(self).released_so_far(),
            match op {
                ControlOp::Channel { transition: ChannelTransition::Open, domain } => if old(
                    self,
                ).state().channels.dom().contains(domain) {
                    r == Err::<(), ControlRefusal>(
                        ControlRefusal::Open(Refusal::ChannelAlreadyOpen { channel: domain }),
                    ) && final(self).state() == old(self).state().turned_away()
                } else {
                    r is Ok && final(self).state() == old(self).state().opened(domain)
                },
                ControlOp::Channel { transition: ChannelTransition::Free, domain } => if old(
                    self,
                ).state().queue(domain).len() > 0 {
                    r == Err::<(), ControlRefusal>(
                        ControlRefusal::Free(
                            RetireRefusal::LivePositions {
                                outstanding: old(self).state().queue(domain).len() as usize,
                            },
                        ),
                    ) && final(self).state() == old(self).state()
                } else {
                    r is Ok && final(self).state() == old(self).state().freed(domain)
                },
                _ => r is Ok && final(self).state() == old(self).state(),
            },
    {
        match op {
            ControlOp::Channel { transition: ChannelTransition::Open, domain } => {
                match self.open_channel(domain) {
                    Ok(()) => Ok(()),
                    Err(refusal) => Err(ControlRefusal::Open(refusal)),
                }
            },
            ControlOp::Channel { transition: ChannelTransition::Free, domain } => {
                match self.retire_channel(domain) {
                    Ok(()) => Ok(()),
                    Err(refusal) => Err(ControlRefusal::Free(refusal)),
                }
            },
            ControlOp::Display { .. } => Ok(()),
            ControlOp::Inert { .. } => Ok(()),
        }
    }

    /// The pipeline objects this session's work binds, for the layer that
    /// declares them and advances their compilation.
    pub fn pipelines(&mut self) -> (table: &mut PipelineTable)
        requires
            old(self).wf(),
        ensures
            table.wf(),
            table@ == old(self).state().pipelines,
            table.counts() == old(self).state().leases,
            final(table).wf() ==> final(self).wf(),
            final(self).state() == old(self).state().with_pipelines(*final(table)),
            final(self).hazard_census() == old(self).hazard_census(),
            final(self).released_so_far() == old(self).released_so_far(),
    {
        &mut self.pipelines
    }

    /// A pipeline finished building: record it, and release what was held for
    /// it.
    ///
    /// Returns whether the step was legal and taken; a step that was not
    /// releases nothing.
    pub fn pipeline_ready(&mut self, pipeline: ResourceId) -> (taken: bool)
        requires
            old(self).wf(),
        ensures
            final(self).wf(),
            taken == (old(self).state().pipelines.dom().contains(pipeline)
                && old(self).state().pipelines[pipeline].state is Compiling),
            !taken ==> final(self).state() == old(self).state(),
            taken ==> final(self).state() == (SessionState {
                pipelines: old(self).state().pipelines.insert(
                    pipeline,
                    Pipeline {
                        state: PipelineState::Ready,
                        ..old(self).state().pipelines[pipeline]
                    },
                ),
                leases: crate::pipeline::Census {
                    ready: crate::pipeline::tally(old(self).state().leases.ready, 1),
                    ..old(self).state().leases
                },
                readiness: old(self).state().readiness.after(Discharge::Built(pipeline)),
                ..old(self).state()
            }),
            final(self).hazard_census() == old(self).hazard_census(),
            final(self).released_so_far() == old(self).released_so_far(),
    {
        let ghost s = self.state();
        if !self.pipelines.advance(pipeline, PipelineState::Ready) {
            return false;
        }
        self.scheduler.pipeline_ready(pipeline);
        proof {
            let t = self.state();
            assert forall|o: IngressOrdinal| #[trigger]
                t.positions.dom().contains(o) == crate::ready::is_pending(
                    t.readiness.rows,
                    o,
                ) by {
                crate::ready::lemma_pending_after(
                    s.readiness.rows,
                    Discharge::Built(pipeline),
                    o,
                );
                assert(s.positions.dom().contains(o) == crate::ready::is_pending(
                    s.readiness.rows,
                    o,
                ));
            }
            assert forall|o: IngressOrdinal| #[trigger] t.positions.dom().contains(o) implies {
                &&& o.0 < t.next_ingress.0
                &&& t.channels.dom().contains(t.positions[o].0)
                &&& crate::publish::is_outstanding(t.queue(t.positions[o].0), t.positions[o].1)
            } by {
                assert(s.positions.dom().contains(o));
                assert(t.queue(t.positions[o].0) == s.queue(s.positions[o].0));
            }
        }
        true
    }

    /// A pipeline will never build: record the reason, and name the
    /// transactions that can therefore never be ready, in arrival order.
    ///
    /// They are neither made ready nor dropped; the caller withdraws each one.
    pub fn pipeline_refused(&mut self, pipeline: ResourceId, reason: RefusalReason) -> (stranded:
        Vec<IngressOrdinal>)
        requires
            old(self).wf(),
        ensures
            final(self).wf(),
            final(self).hazard_census() == old(self).hazard_census(),
            final(self).released_so_far() == old(self).released_so_far(),
            crate::ordinal_set::ascending(stranded@),
            if old(self).state().pipelines.dom().contains(pipeline) && old(
                self,
            ).state().pipelines[pipeline].state.steps_to(PipelineState::Refused) {
                &&& forall|o: IngressOrdinal| #[trigger]
                    stranded@.contains(o) == (exists|i: int|
                        0 <= i < old(self).state().readiness.rows.len() && (#[trigger] old(
                            self,
                        ).state().readiness.rows[i]).ordinal == o && old(
                            self,
                        ).state().readiness.rows[i].pipelines.contains(pipeline))
                &&& final(self).state() == (SessionState {
                    pipelines: old(self).state().pipelines.insert(
                        pipeline,
                        Pipeline {
                            state: PipelineState::Refused,
                            refusal: Some(reason),
                            ..old(self).state().pipelines[pipeline]
                        },
                    ),
                    leases: crate::pipeline::Census {
                        refused: crate::pipeline::tally(old(self).state().leases.refused, 1),
                        ..old(self).state().leases
                    },
                    ..old(self).state()
                })
            } else {
                stranded@.len() == 0 && final(self).state() == old(self).state()
            },
    {
        if !self.pipelines.refuse(pipeline, reason) {
            return Vec::new();
        }
        self.scheduler.pipeline_refused(pipeline)
    }

    /// Transactions that have become ready since the last call, in arrival
    /// order.
    pub fn take_ready(&mut self) -> (taken: Vec<IngressOrdinal>)
        requires
            old(self).wf(),
        ensures
            final(self).wf(),
            crate::ordinal_set::ascending(taken@),
            taken@.to_set() == old(self).state().readiness.ready,
            final(self).state() == (SessionState {
                readiness: old(self).state().readiness.taken(),
                ..old(self).state()
            }),
            final(self).hazard_census() == old(self).hazard_census(),
            final(self).released_so_far() == old(self).released_so_far(),
    {
        self.scheduler.take_ready()
    }

    #[must_use]
    pub fn scheduler(&self) -> (scheduler: &Scheduler)
        requires
            self.wf(),
        ensures
            scheduler.wf(),
            scheduler.state() == self.state().readiness,
    {
        &self.scheduler
    }

    #[must_use]
    pub fn graph(&self) -> (graph: &DependencyGraph)
        requires
            self.wf(),
        ensures
            graph.wf(),
            graph.rows() == self.state().accesses,
            graph.counts() == self.hazard_census(),
    {
        &self.graph
    }

    /// Reclaim the space retired transactions were holding.
    pub fn compact(&mut self)
        requires
            old(self).wf(),
        ensures
            final(self).wf(),
            final(self).state() == (SessionState {
                accesses: crate::depend::live_rows(old(self).state().accesses),
                ..old(self).state()
            }),
            final(self).hazard_census() == old(self).hazard_census(),
            final(self).released_so_far() == old(self).released_so_far(),
    {
        let ghost s = self.state();
        self.graph.compact();
        proof {
            let t = self.state();
            assert forall|i: int| 0 <= i < t.accesses.len() implies (
            #[trigger] t.accesses[i]).ordinal.0 < t.next_ingress.0 && (t.accesses[i].live
                ==> t.positions.dom().contains(t.accesses[i].ordinal)) by {
                crate::depend::lemma_live_row(s.accesses, i);
                let k = choose|k: int| 0 <= k < s.accesses.len() && s.accesses[k] == t.accesses[i];
                assert(s.accesses[k].ordinal.0 < s.next_ingress.0);
            }
        }
    }

    /// Whether a payload class reaches an executor.
    #[must_use]
    pub fn executes(payload: PayloadClass) -> (reaches: bool)
        ensures
            reaches == (payload is Exec),
    {
        crate::transaction::reaches_an_executor(payload)
    }
}

/// Losing a device ends the device's lifetime and no other: the semantic
/// generation, the epoch's name, the open channels and the ordinals given out
/// all stay.
pub proof fn a_device_loss_keeps_the_semantic_lifetime(s: SessionState, gone: Seq<IngressOrdinal>)
    ensures
        ({
            let t = s.without_device().all_withdrawn(gone);
            &&& t.device is Lost
            &&& t.generation == s.generation
            &&& t.epoch == s.epoch
            &&& t.channels == s.channels
            &&& t.next_ingress == s.next_ingress
            &&& t.pipelines == s.pipelines
            &&& t.refusals == s.refusals
        }),
    decreases gone.len(),
{
    if gone.len() > 0 {
        a_device_loss_keeps_the_semantic_lifetime(s, gone.drop_last());
    }
}

/// Withdrawing a transaction publishes what was queued behind it and never its
/// own word: no release carries its sequence.
pub proof fn a_withdrawal_never_publishes_its_own_word(s: SessionState, o: IngressOrdinal)
    requires
        s.consistent(),
        s.positions.dom().contains(o),
    ensures
        forall|i: int|
            0 <= i < s.withdrawal_releases(o).len() ==> (
            #[trigger] s.withdrawal_releases(o)[i]).sequence != s.positions[o].1,
{
    let (d, sequence) = s.positions[o];
    assert(s.queues.dom().contains(d)) by {
        let i = choose|i: int| crate::publish::unfinished_at(s.queue(d), sequence, i);
        assert(crate::publish::unfinished_at(s.queue(d), sequence, i));
    }
    crate::publish::lemma_take_out(s.queue(d), sequence);
    let short = s.shortened_queue(o);
    crate::publish::draining_splits_the_queue(short);
    assert forall|i: int| 0 <= i < s.withdrawal_releases(o).len() implies (
    #[trigger] s.withdrawal_releases(o)[i]).sequence != sequence by {
        assert(s.withdrawal_releases(o)[i].sequence == short[i].sequence);
    }
}

/// A session with nothing outstanding starts clean: nothing waits in the
/// readiness service, and no access accepted before orders anything accepted
/// later.
pub proof fn nothing_outstanding_orders_nothing(
    s: SessionState,
    accesses: Seq<crate::access::AccessIntent>,
    o: IngressOrdinal,
)
    requires
        s.consistent(),
        forall|x: IngressOrdinal| !#[trigger] s.positions.dom().contains(x),
    ensures
        s.readiness.rows.len() == 0,
        !crate::depend::must_wait_for(s.accesses, s.next_ingress, accesses, o),
{
    if s.readiness.rows.len() > 0 {
        let first = s.readiness.rows[0].ordinal;
        assert(crate::ready::is_pending(s.readiness.rows, first));
        assert(s.positions.dom().contains(first));
    }
    if crate::depend::must_wait_for(s.accesses, s.next_ingress, accesses, o) {
        let (i, k) = choose|i: int, k: int|
            0 <= i < s.accesses.len() && 0 <= k < accesses.len() && (
            #[trigger] s.accesses[i]).ordinal == o && crate::depend::conflicts(
                s.accesses,
                s.next_ingress,
                #[trigger] accesses[k],
                i,
            );
        assert(s.accesses[i].live);
        assert(s.positions.dom().contains(s.accesses[i].ordinal));
    }
}

/// Leaving ends a transaction's place in all three planes at once: it holds no
/// position, it is not outstanding, and it orders nothing accepted later.
pub proof fn a_departed_transaction_holds_nothing(
    s: SessionState,
    o: IngressOrdinal,
    queue: Seq<Position>,
    accesses: Seq<crate::access::AccessIntent>,
)
    requires
        s.consistent(),
        crate::ready::rows_ascending(s.readiness.rows),
        s.positions.dom().contains(o),
    ensures
        !s.departed(o, queue).positions.dom().contains(o),
        !crate::ready::is_pending(s.departed(o, queue).readiness.rows, o),
        !crate::depend::must_wait_for(
            s.departed(o, queue).accesses,
            s.next_ingress,
            accesses,
            o,
        ),
{
    crate::ready::lemma_announced_pending(
        s.readiness.completed(o),
        crate::publish::published_by(queue),
        o,
    );
    crate::ready::lemma_pending_completed(s.readiness, o, o);
    crate::depend::retirement_ends_exactly_its_own_edges(
        s.accesses,
        o,
        s.next_ingress,
        accesses,
        o,
    );
}

/// Ingress ordinals are one arrival order over every channel, and channel
/// sequences are one order per channel: a packet accepted on one channel moves
/// no other channel's sequence.
pub proof fn channels_keep_separate_sequences(
    s: SessionState,
    packet: Packet,
    hazards: Seq<IngressOrdinal>,
    other: ChannelId,
)
    requires
        s.has_room(packet.domain),
        s.refusal(packet) is None,
        other != packet.domain,
        s.channels.dom().contains(other),
    ensures
        s.accepted(packet, hazards).identity_for(packet.domain).domain_sequence.0
            == s.identity_for(packet.domain).domain_sequence.0 + 1 || s.channels[packet.domain].0
            + 2 > u64::MAX,
        s.accepted(packet, hazards).identity_for(other).domain_sequence == s.identity_for(
            other,
        ).domain_sequence,
        s.accepted(packet, hazards).next_ingress.0 == s.next_ingress.0 + 1,
{
}

/// A packet that touches memory an outstanding transaction of its domain
/// touches, where one of the two may write it, waits for that transaction and
/// may not begin, whatever class of work either is.
///
/// The first packet was accepted as `s.next_ingress`; the second is judged by
/// what its own list and the first one's hold.
pub proof fn a_packet_waits_for_outstanding_work_it_conflicts_with(
    s: SessionState,
    first: Packet,
    before: Seq<IngressOrdinal>,
    second: Packet,
    hazards: Seq<IngressOrdinal>,
    a: crate::access::AccessIntent,
    b: crate::access::AccessIntent,
)
    requires
        s.has_room(first.domain),
        s.next_ingress.0 + 1 < u64::MAX,
        s.consistent(),
        crate::transaction::lists(first.payload, a),
        crate::transaction::lists(second.payload, b),
        a.domain == b.domain,
        a.key.meets(b.key),
        !(a.mode is Read) || !(b.mode is Read),
        hazards.contains(s.next_ingress) == crate::depend::must_wait_for(
            s.accepted(first, before).accesses,
            s.accepted(first, before).next_ingress,
            second.payload.touched(),
            s.next_ingress,
        ),
    ensures
        hazards.contains(s.next_ingress),
        s.accepted(first, before).row_for(second, hazards).hazards.contains(s.next_ingress),
        !s.accepted(first, before).row_for(second, hazards).unblocked(),
{
    let next = s.accepted(first, before);
    let touched = first.payload.touched();
    let touching = second.payload.touched();
    crate::transaction::an_access_is_touched_when_listed(first.payload, a);
    crate::transaction::an_access_is_touched_when_listed(second.payload, b);
    let x = choose|x: int| 0 <= x < touched.len() && touched[x] == a;
    let y = choose|y: int| 0 <= y < touching.len() && touching[y] == b;
    crate::depend::a_later_conflict_waits_for_the_earlier(
        s.accesses,
        s.next_ingress,
        touched,
        next.next_ingress,
        touching,
        x,
        y,
    );
    crate::ready::lemma_pending_with(
        s.readiness.rows,
        s.row_for(first, before),
        s.next_ingress,
    );
    crate::ready::one_thing_left_holds_a_transaction(
        next.row_for(second, hazards),
        s.next_ingress,
    );
}

/// A packet waits for an outstanding transaction only where the two lists hold
/// such a conflict.
pub proof fn a_packet_waits_for_nothing_it_does_not_conflict_with(
    s: SessionState,
    first: Packet,
    before: Seq<IngressOrdinal>,
    second: Packet,
) -> (at: (crate::access::AccessIntent, crate::access::AccessIntent))
    requires
        s.has_room(first.domain),
        s.next_ingress.0 + 1 < u64::MAX,
        s.consistent(),
        crate::depend::must_wait_for(
            s.accepted(first, before).accesses,
            s.accepted(first, before).next_ingress,
            second.payload.touched(),
            s.next_ingress,
        ),
    ensures
        crate::transaction::lists(first.payload, at.0),
        crate::transaction::lists(second.payload, at.1),
        at.0.domain == at.1.domain,
        at.0.key.meets(at.1.key),
        !(at.0.mode is Read) || !(at.1.mode is Read),
{
    let touched = first.payload.touched();
    let touching = second.payload.touched();
    assert forall|i: int| 0 <= i < s.accesses.len() implies (#[trigger] s.accesses[i]).ordinal
        != s.next_ingress by {}
    let at = crate::depend::a_wait_is_for_a_conflict(
        s.accesses,
        s.next_ingress,
        touched,
        s.accepted(first, before).next_ingress,
        touching,
    );
    crate::transaction::an_access_is_touched_when_listed(first.payload, touched[at.0]);
    crate::transaction::an_access_is_touched_when_listed(second.payload, touching[at.1]);
    assert(touched.contains(touched[at.0]) && touching.contains(touching[at.1]));
    (touched[at.0], touching[at.1])
}

/// A packet becomes a transaction exactly when the device is live, it names the
/// current lifetime, its command is established as work of its payload's class,
/// its channel is open, and it binds no pipeline it can never use.
pub proof fn a_packet_is_accepted_exactly_when_nothing_speaks_against_it(
    s: SessionState,
    packet: Packet,
)
    ensures
        s.refusal(packet) is None <==> {
            &&& s.device is Live
            &&& packet.session == s.generation
            &&& packet.contract matches CommandContract::Established(class) && match packet.payload {
                Payload::Exec(_) => class is Exec,
                Payload::ResourceLifecycle(_) => class is ResourceLifecycle,
                Payload::Query(_) => class is Query,
                Payload::Present(_) => class is Present,
                Payload::Control(_) => class is Control,
            }
            &&& s.channels.dom().contains(packet.domain)
            &&& s.pipeline_waits(packet.payload) is Ok
        },
        s.device is Lost ==> s.refusal(packet) == Some(Refusal::DeviceLost { epoch: s.epoch }),
        s.refusal(packet) matches Some(Refusal::ChannelNotOpen { channel }) ==> channel
            == packet.domain && !s.channels.dom().contains(packet.domain),
        s.refusal(packet) matches Some(Refusal::GenerationClosed { named, current }) ==> named
            == packet.session && current == s.generation && named != current,
{
}

/// A refused packet is counted and changes nothing else.
pub proof fn a_refusal_leaves_everything_in_place(s: SessionState)
    ensures
        s.refusals < usize::MAX ==> s.turned_away().refusals == s.refusals + 1,
        s.turned_away().next_ingress == s.next_ingress,
        s.turned_away().channels == s.channels,
        s.turned_away().accesses == s.accesses,
        s.turned_away().pipelines == s.pipelines,
        s.turned_away().leases == s.leases,
        s.turned_away().readiness == s.readiness,
        s.turned_away().queues == s.queues,
        s.turned_away().positions == s.positions,
        s.turned_away().device == s.device && s.turned_away().generation == s.generation,
{
}

/// An accepted packet takes the next ordinal and the next place of its channel,
/// is outstanding there, and owes on completion the stamp it was accepted with.
pub proof fn an_accepted_packet_takes_the_next_place(
    s: SessionState,
    packet: Packet,
    hazards: Seq<IngressOrdinal>,
)
    requires
        s.consistent(),
        crate::ready::rows_ascending(s.readiness.rows),
        s.has_room(packet.domain),
        s.channels.dom().contains(packet.domain),
    ensures
        ({
            let identity = s.identity_for(packet.domain);
            let next = s.accepted(packet, hazards);
            &&& identity.ingress == s.next_ingress
            &&& identity.domain == packet.domain
            &&& identity.session == s.generation
            &&& identity.domain_sequence.0 == s.channels[packet.domain].0 + 1
            &&& next.next_ingress.0 == s.next_ingress.0 + 1
            &&& next.channels[packet.domain] == identity.domain_sequence
            &&& next.positions.dom().contains(s.next_ingress)
            &&& next.positions[s.next_ingress] == (packet.domain, identity.domain_sequence)
            &&& next.queue(packet.domain).last().sequence == identity.domain_sequence
            &&& !next.queue(packet.domain).last().finished
            &&& next.queue(packet.domain).drop_last() == s.queue(packet.domain)
            &&& crate::ready::is_pending(next.readiness.rows, s.next_ingress)
            &&& next.readiness.owed_by(s.next_ingress) == packet.completion
            &&& next.pipelines == s.pipelines
            &&& next.refusals == s.refusals
            &&& next.generation == s.generation && next.epoch == s.epoch
            &&& next.device == s.device
        }),
{
    let next = s.accepted(packet, hazards);
    let row = s.row_for(packet, hazards);
    let rows = s.readiness.rows;
    assert(next.queue(packet.domain).drop_last() =~= s.queue(packet.domain));
    if rows.len() > 0 {
        let last = rows.last().ordinal;
        assert(rows[rows.len() - 1].ordinal == last);
        assert(crate::ready::is_pending(rows, last));
        assert(s.positions.dom().contains(last));
    }
    assert(next.readiness.rows == rows.push(row));
    let after = next.readiness.rows;
    assert(after[rows.len() as int].ordinal == s.next_ingress);
    let at = choose|i: int| crate::ready::row_at(after, s.next_ingress, i);
    assert(crate::ready::row_at(after, s.next_ingress, rows.len() as int));
    if at < rows.len() {
        assert(rows[at].ordinal == s.next_ingress);
        assert(crate::ready::is_pending(rows, s.next_ingress));
        assert(s.positions.dom().contains(s.next_ingress));
    }
}

/// Completing a transaction publishes its own word exactly when nothing ahead of
/// it in its channel is unfinished, and the word is the one it owes.
pub proof fn a_completed_word_is_published_in_its_turn(s: SessionState, o: IngressOrdinal, i: int)
    requires
        s.consistent(),
        s.positions.dom().contains(o),
        crate::publish::unfinished_at(s.queue(s.positions[o].0), s.positions[o].1, i),
    ensures
        (i < s.completion_releases(o).len()) <==> (forall|k: int|
            0 <= k < i ==> (#[trigger] s.queue(s.positions[o].0)[k]).finished),
        i < s.completion_releases(o).len() ==> s.completion_releases(o)[i].sequence
            == s.positions[o].1 && s.completion_releases(o)[i].stamp == s.readiness.owed_by(o),
{
    let q = s.queue(s.positions[o].0);
    let sequence = s.positions[o].1;
    let done = s.finished_queue(o);
    crate::publish::a_position_publishes_when_nothing_ahead_is_unfinished(done, i);
    crate::publish::finishing_touches_one_position(q, sequence, s.readiness.owed_by(o), i);
    assert forall|k: int| 0 <= k < i implies done[k] == (#[trigger] q[k]) by {
        assert(q[k].sequence.0 < q[i].sequence.0);
        crate::publish::finishing_touches_one_position(q, sequence, s.readiness.owed_by(o), k);
    }
    if forall|k: int| 0 <= k <= i ==> (#[trigger] done[k]).finished {
        assert forall|k: int| 0 <= k < i implies (#[trigger] q[k]).finished by {
            assert(done[k].finished);
        }
    }
    if forall|k: int| 0 <= k < i ==> (#[trigger] q[k]).finished {
        assert forall|k: int| 0 <= k <= i implies (#[trigger] done[k]).finished by {
            if k < i {
                assert(q[k].finished);
            }
        }
    }
}

/// Leaving touches no other channel's queue and no other transaction's place.
pub proof fn leaving_touches_one_channel(
    s: SessionState,
    o: IngressOrdinal,
    queue: Seq<Position>,
    other: ChannelId,
    p: IngressOrdinal,
)
    requires
        s.positions.dom().contains(o),
        other != s.positions[o].0,
        p != o,
    ensures
        s.departed(o, queue).queue(other) == s.queue(other),
        s.departed(o, queue).positions.dom().contains(p) == s.positions.dom().contains(p),
        s.positions.dom().contains(p) ==> s.departed(o, queue).positions[p] == s.positions[p],
        s.departed(o, queue).channels == s.channels,
        s.departed(o, queue).next_ingress == s.next_ingress,
        s.departed(o, queue).pipelines == s.pipelines,
        s.departed(o, queue).refusals == s.refusals,
{
}

/// An opened channel starts its own order, and an ended one leaves the others.
pub proof fn a_channel_opens_and_ends_alone(s: SessionState, domain: ChannelId, other: ChannelId)
    requires
        other != domain,
    ensures
        s.opened(domain).channels.dom().contains(domain),
        s.opened(domain).identity_for(domain).domain_sequence.0 == 1,
        s.opened(domain).channels.dom().contains(other) == s.channels.dom().contains(other),
        s.channels.dom().contains(other) ==> s.opened(domain).channels[other]
            == s.channels[other],
        !s.freed(domain).channels.dom().contains(domain),
        s.freed(domain).queue(domain).len() == 0,
        s.freed(domain).channels.dom().contains(other) == s.channels.dom().contains(other),
        s.freed(domain).queue(other) == s.queue(other),
{
}

/// A packet that is accepted waits for each word it names that has not been
/// reached, and for each pipeline it binds that is still being built; either
/// holds it back.
pub proof fn an_accepted_packet_waits_for_its_words_and_its_pipelines(
    s: SessionState,
    packet: Packet,
    hazards: Seq<IngressOrdinal>,
    wait: StampWait,
    pipeline: ResourceId,
)
    requires
        s.refusal(packet) is None,
    ensures
        ({
            let row = s.row_for(packet, hazards);
            let reached = s.readiness.stamps.dom().contains(wait.slot)
                && s.readiness.stamps[wait.slot].has_reached(wait.value);
            let building = crate::pipeline::lease_of(s.pipelines, pipeline, s.generation)
                is Pending;
            &&& row.stamps.contains(wait) <==> packet.stamp_waits@.contains(wait) && !reached
            &&& row.pipelines.contains(pipeline) <==> packet.payload.bound().contains(pipeline)
                && building
            &&& row.stamps.contains(wait) || row.pipelines.contains(pipeline) ==> !row.unblocked()
            &&& row.ordinal == s.next_ingress
        }),
{
    let row = s.row_for(packet, hazards);
    crate::pipeline::waits_are_the_unbuilt_bindings(
        s.pipelines,
        packet.payload.bound(),
        s.generation,
        pipeline,
    );
    crate::ready::lemma_kept_by(
        packet.stamp_waits@,
        |w: StampWait| !w.met_by(crate::ready::standing(s.readiness.stamps, w.slot)),
        wait,
    );
}

/// Whatever a departure publishes reaches the slots it is published into.
pub proof fn a_departure_publishes_into_its_slots(
    s: SessionState,
    o: IngressOrdinal,
    queue: Seq<Position>,
    k: int,
)
    requires
        0 <= k < crate::publish::published_by(queue).len(),
        crate::publish::published_by(queue)[k].stamp is Some,
    ensures
        s.departed(o, queue).readiness.stamps.dom().contains(
            crate::publish::published_by(queue)[k].stamp->0.slot,
        ),
{
    crate::ready::an_announced_word_reaches_its_slot(
        s.readiness.completed(o),
        crate::publish::published_by(queue),
        k,
    );
}

/// What withdrawing two groups of transactions publishes is what the first
/// publishes and then what the second does once the first is gone.
pub proof fn withdrawals_publish_in_order(
    s: SessionState,
    first: Seq<IngressOrdinal>,
    second: Seq<IngressOrdinal>,
)
    ensures
        s.all_withdrawn(first + second) == s.all_withdrawn(first).all_withdrawn(second),
        s.all_withdrawal_releases(first + second) == s.all_withdrawal_releases(first)
            + s.all_withdrawn(first).all_withdrawal_releases(second),
    decreases second.len(),
{
    let both = first + second;
    if second.len() == 0 {
        assert(both =~= first);
        assert(s.all_withdrawal_releases(first) + s.all_withdrawn(first).all_withdrawal_releases(
            second,
        ) =~= s.all_withdrawal_releases(first));
    } else {
        withdrawals_publish_in_order(s, first, second.drop_last());
        assert(both.drop_last() =~= first + second.drop_last());
        assert(both.last() == second.last());
        assert(s.all_withdrawal_releases(both) =~= s.all_withdrawal_releases(first)
            + s.all_withdrawn(first).all_withdrawal_releases(second));
    }
}

/// A session without a device refuses every packet for that, whoever sent it,
/// and losing the device moves no lifetime, no channel and no pipeline, however
/// much is withdrawn.
pub proof fn a_lost_device_refuses_everything_and_keeps_the_rest(
    s: SessionState,
    gone: Seq<IngressOrdinal>,
    packet: Packet,
)
    ensures
        ({
            let after = s.without_device().all_withdrawn(gone);
            &&& after.refusal(packet) matches Some(Refusal::DeviceLost { epoch }) && epoch
                == s.epoch
            &&& after.generation == s.generation && after.epoch == s.epoch && after.id == s.id
            &&& after.next_ingress == s.next_ingress && after.channels == s.channels
            &&& after.pipelines == s.pipelines && after.refusals == s.refusals
        }),
    decreases gone.len(),
{
    if gone.len() > 0 {
        a_lost_device_refuses_everything_and_keeps_the_rest(s, gone.drop_last(), packet);
    }
}

/// Once every outstanding transaction of a group is withdrawn, none of them
/// holds a position, and no other loses its own.
pub proof fn withdrawing_ends_exactly_the_group(
    s: SessionState,
    gone: Seq<IngressOrdinal>,
    o: IngressOrdinal,
)
    ensures
        ({
            let after = s.all_withdrawn(gone);
            &&& after.positions.dom().contains(o) == (s.positions.dom().contains(o)
                && !gone.contains(o))
            &&& after.positions.dom().contains(o) ==> after.positions[o] == s.positions[o]
        }),
    decreases gone.len(),
{
    if gone.len() > 0 {
        let rest = gone.drop_last();
        withdrawing_ends_exactly_the_group(s, rest, o);
        assert(gone[gone.len() - 1] == gone.last());
        if rest.contains(o) {
            let k = choose|k: int| 0 <= k < rest.len() && rest[k] == o;
            assert(gone[k] == o);
        }
        if gone.contains(o) {
            let k = choose|k: int| 0 <= k < gone.len() && gone[k] == o;
            if k < rest.len() {
                assert(rest[k] == o);
            }
        }
    }
}

/// A packet read under another generation than the session's is refused by
/// name, with both.
pub proof fn a_packet_of_another_generation_is_refused(
    s: SessionState,
    generation: SessionGeneration,
    packet: Packet,
)
    requires
        s.device is Live,
        packet.session.0 != generation.0,
    ensures
        (SessionState { generation, ..s }).refusal(packet) matches Some(
            Refusal::GenerationClosed { named, current },
        ) && named == packet.session && current == generation,
{
}

} // verus!
