//! The query transaction: a question the guest blocks on.
//!
//! A query's reply must be visible before its completion word, and the
//! completion word must be published even when there is no answer. A pending
//! query holds its stamp and cannot give it up; the only ways to the stamp go
//! through an answer or a named reason that there is none.

use vstd::prelude::*;
use crate::access::{BackingId, ByteRange};
use crate::identity::CompletionStamp;
use crate::transaction::Channel;

verus! {

/// Which question a query packet asks.
#[derive(Clone, Copy, Debug, PartialEq, Eq, PartialOrd, Ord, Hash, Structural)]
pub enum QueryKind {
    /// The first device-info query, still answered for a guest old enough to
    /// ask.
    DeviceInfoLegacy,
    /// The current device-info query.
    DeviceInfo,
    /// A compute pipeline's threadgroup limits.
    ComputeInfo,
    /// A heap texture's size and alignment.
    HeapTextureSizeAndAlign,
}

/// The question a command asks, if it is a query.
pub open spec fn question_of(channel: Channel, opcode: u16) -> Option<QueryKind> {
    match channel {
        Channel::Root => if opcode == 0x2d {
            Some(QueryKind::DeviceInfoLegacy)
        } else if opcode == 0x3a {
            Some(QueryKind::DeviceInfo)
        } else {
            None
        },
        Channel::Child => if opcode == 0x3b {
            Some(QueryKind::ComputeInfo)
        } else if opcode == 0x40 {
            Some(QueryKind::HeapTextureSizeAndAlign)
        } else {
            None
        },
    }
}

impl QueryKind {
    /// The question a packet asks, or `None` if it is not a query packet.
    #[must_use]
    pub fn of(channel: Channel, opcode: u16) -> (kind: Option<Self>)
        ensures
            kind == question_of(channel, opcode),
    {
        match channel {
            Channel::Root => if opcode == 0x2d {
                Some(QueryKind::DeviceInfoLegacy)
            } else if opcode == 0x3a {
                Some(QueryKind::DeviceInfo)
            } else {
                None
            },
            Channel::Child => if opcode == 0x3b {
                Some(QueryKind::ComputeInfo)
            } else if opcode == 0x40 {
                Some(QueryKind::HeapTextureSizeAndAlign)
            } else {
                None
            },
        }
    }

    #[must_use]
    pub fn name(self) -> (name: &'static str)
        ensures
            name@ == (match self {
                QueryKind::DeviceInfoLegacy => "device_info_legacy"@,
                QueryKind::DeviceInfo => "device_info"@,
                QueryKind::ComputeInfo => "compute_info"@,
                QueryKind::HeapTextureSizeAndAlign => "heap_texture_size_and_align"@,
            }),
    {
        match self {
            QueryKind::DeviceInfoLegacy => "device_info_legacy",
            QueryKind::DeviceInfo => "device_info",
            QueryKind::ComputeInfo => "compute_info",
            QueryKind::HeapTextureSizeAndAlign => "heap_texture_size_and_align",
        }
    }
}

/// Where the answer goes, already resolved: a backing and a window of it.
#[derive(Clone, Copy, Debug, PartialEq, Eq, Structural)]
pub struct ReplyDestination {
    pub backing: BackingId,
    pub bytes: ByteRange,
}

/// The question a query packet asks, and where its answer goes.
#[derive(Clone, Copy, Debug, PartialEq, Eq, Structural)]
pub struct QueryRequest {
    pub kind: QueryKind,
    pub destination: ReplyDestination,
}

/// The exact window the answer occupies.
///
/// The caller records it as a write in the guest's replica: the answer is
/// content the guest is about to read.
#[derive(Clone, Copy, Debug, PartialEq, Eq, Structural)]
#[must_use]
pub struct ReplyWrite {
    pub backing: BackingId,
    pub bytes: ByteRange,
}

/// Why a query was completed without an answer.
#[derive(Clone, Copy, Debug, PartialEq, Eq, Structural)]
pub enum Stall {
    /// The answer does not fit in the destination the request named. Not
    /// clamped: the guest cannot tell a partial reply from a complete one.
    ReplyTooLarge { needed: u64, available: u64 },
    /// This device has no answer for the question.
    NoAnswer,
}

impl Stall {
    pub open spec fn slug_text(self) -> Seq<char> {
        match self {
            Stall::ReplyTooLarge { .. } => "query_reply_too_large"@,
            Stall::NoAnswer => "query_no_answer"@,
        }
    }

    #[must_use]
    pub fn slug(self) -> (slug: &'static str)
        ensures
            slug@ == self.slug_text(),
    {
        match self {
            Stall::ReplyTooLarge { .. } => "query_reply_too_large",
            Stall::NoAnswer => "query_no_answer",
        }
    }
}

/// Where an answer of `len` bytes goes, or why it goes nowhere.
pub open spec fn answer_of(destination: ReplyDestination, len: u64) -> Result<ReplyWrite, Stall> {
    if len > destination.bytes.length {
        Err(Stall::ReplyTooLarge { needed: len, available: destination.bytes.length })
    } else {
        Ok(
            ReplyWrite {
                backing: destination.backing,
                bytes: ByteRange { offset: destination.bytes.offset, length: len },
            },
        )
    }
}

/// A query that has been accepted and not yet answered.
#[derive(Debug, PartialEq, Eq, Structural)]
#[must_use]
pub struct PendingQuery {
    kind: QueryKind,
    destination: ReplyDestination,
    stamp: Option<CompletionStamp>,
}

/// How a query ended.
#[derive(Clone, Copy, Debug, PartialEq, Eq, Structural)]
pub enum Answer {
    /// The reply was written to exactly this window.
    Written(ReplyWrite),
    /// There is no reply, and this is why.
    Unwritten(Stall),
}

/// A query whose answer, or lack of one, is settled, and whose completion word
/// may therefore be published.
#[derive(Debug, PartialEq, Eq, Structural)]
pub struct CompletedQuery {
    kind: QueryKind,
    answer: Answer,
    stamp: Option<CompletionStamp>,
}

impl PendingQuery {
    pub closed spec fn asks(&self) -> QueryRequest {
        QueryRequest { kind: self.kind, destination: self.destination }
    }

    pub closed spec fn owes(&self) -> Option<CompletionStamp> {
        self.stamp
    }

    pub fn new(request: QueryRequest, stamp: Option<CompletionStamp>) -> (query: Self)
        ensures
            query.asks() == request,
            query.owes() == stamp,
    {
        PendingQuery { kind: request.kind, destination: request.destination, stamp }
    }

    #[must_use]
    pub fn kind(&self) -> (kind: QueryKind)
        ensures
            kind == self.asks().kind,
    {
        self.kind
    }

    #[must_use]
    pub fn destination(&self) -> (destination: ReplyDestination)
        ensures
            destination == self.asks().destination,
    {
        self.destination
    }

    /// How many bytes the destination holds.
    #[must_use]
    pub fn capacity(&self) -> (bytes: u64)
        ensures
            bytes == self.asks().destination.bytes.length,
    {
        self.destination.bytes.length
    }

    /// Record that an answer of `len` bytes was written at the destination.
    ///
    /// An answer that does not fit is refused with the query still pending, so
    /// that the caller can complete it as unanswerable.
    pub fn answer(self, len: u64) -> (r: Result<CompletedQuery, (Self, Stall)>)
        ensures
            match answer_of(self.asks().destination, len) {
                Err(stall) => r == Err::<CompletedQuery, (Self, Stall)>((self, stall)),
                Ok(write) => r matches Ok(done) && done.question() == self.asks().kind
                    && done.owes() == self.owes() && done.outcome() == Answer::Written(write),
            },
    {
        let available = self.destination.bytes.length;
        if len > available {
            return Err((self, Stall::ReplyTooLarge { needed: len, available }));
        }
        Ok(
            CompletedQuery {
                kind: self.kind,
                answer: Answer::Written(
                    ReplyWrite {
                        backing: self.destination.backing,
                        bytes: ByteRange {
                            offset: self.destination.bytes.offset,
                            length: len,
                        },
                    },
                ),
                stamp: self.stamp,
            },
        )
    }

    /// Complete the query with no answer, for a named reason. Its stamp is
    /// published either way.
    pub fn unanswerable(self, reason: Stall) -> (done: CompletedQuery)
        ensures
            done.question() == self.asks().kind,
            done.outcome() == Answer::Unwritten(reason),
            done.owes() == self.owes(),
    {
        CompletedQuery { kind: self.kind, answer: Answer::Unwritten(reason), stamp: self.stamp }
    }
}

impl CompletedQuery {
    pub closed spec fn question(&self) -> QueryKind {
        self.kind
    }

    pub closed spec fn outcome(&self) -> Answer {
        self.answer
    }

    pub closed spec fn owes(&self) -> Option<CompletionStamp> {
        self.stamp
    }

    #[must_use]
    pub fn kind(&self) -> (kind: QueryKind)
        ensures
            kind == self.question(),
    {
        self.kind
    }

    #[must_use]
    pub fn answer(&self) -> (answer: Answer)
        ensures
            answer == self.outcome(),
    {
        self.answer
    }

    /// The reply's window, if there was a reply.
    #[must_use]
    pub fn write(&self) -> (write: Option<ReplyWrite>)
        ensures
            write == (match self.outcome() {
                Answer::Written(w) => Some(w),
                Answer::Unwritten(_) => None,
            }),
    {
        match self.answer {
            Answer::Written(w) => Some(w),
            Answer::Unwritten(_) => None,
        }
    }

    /// Why there is no reply, if there is none.
    #[must_use]
    pub fn stall(&self) -> (stall: Option<Stall>)
        ensures
            stall == (match self.outcome() {
                Answer::Unwritten(s) => Some(s),
                Answer::Written(_) => None,
            }),
    {
        match self.answer {
            Answer::Unwritten(s) => Some(s),
            Answer::Written(_) => None,
        }
    }

    /// The completion word this query owes, now that its answer is settled.
    #[must_use]
    pub fn publication(&self) -> (stamp: Option<CompletionStamp>)
        ensures
            stamp == self.owes(),
    {
        self.stamp
    }
}

/// Each question is asked by one command of one channel.
pub proof fn a_question_has_one_command(
    channel: Channel,
    opcode: u16,
    other_channel: Channel,
    other: u16,
)
    ensures
        question_of(channel, opcode) is Some && question_of(channel, opcode) == question_of(
            other_channel,
            other,
        ) ==> channel == other_channel && opcode == other,
        question_of(channel, opcode) matches Some(kind) ==> (channel is Root <==> kind
            is DeviceInfoLegacy || kind is DeviceInfo),
{
}

/// An answer is written exactly when it fits, from the destination's first byte
/// on, and never past its last. One that does not fit is refused with what it
/// needed and what there was.
pub proof fn an_answer_is_written_inside_its_destination(
    destination: ReplyDestination,
    len: u64,
    at: u64,
)
    requires
        at < u64::MAX,
    ensures
        answer_of(destination, len) is Ok <==> len <= destination.bytes.length,
        answer_of(destination, len) matches Ok(write) ==> {
            &&& write.backing == destination.backing
            &&& write.bytes.has(at as int) <==> destination.bytes.has(at as int) && at
                - destination.bytes.offset < len
        },
        answer_of(destination, len) matches Err(stall) ==> (stall matches Stall::ReplyTooLarge {
            needed,
            available,
        } && needed == len && available == destination.bytes.length),
{
}

} // verus!
