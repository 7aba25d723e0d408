//! The envelope every accepted packet gets, and the payload it carries.
//!
//! A payload owns its one list of accesses. The ordering plane reads that list
//! and no other, so there is no second list for anybody to have filled
//! differently.

use vstd::prelude::*;
use crate::access::{AccessIntent, AccessKey, AccessMode, ResourceKey};
use crate::control::ControlOp;
use crate::identity::{
    ChannelId, ChannelSequence, CompletionStamp, IngressOrdinal, ResourceId, StampWait,
    TransactionIdentity,
};
use crate::lifecycle::LifecycleOp;
use crate::present::PresentPacket;
use crate::query::QueryRequest;

verus! {

/// Which of the two command channels a packet arrived on.
#[derive(Clone, Copy, Debug, PartialEq, Eq, PartialOrd, Ord, Hash, Structural)]
pub enum Channel {
    Root,
    Child,
}

/// What kind of work a packet is.
#[derive(Clone, Copy, Debug, PartialEq, Eq, PartialOrd, Ord, Hash, Structural)]
pub enum PayloadClass {
    /// GPU work.
    Exec,
    /// A change of what the guest's names mean.
    ResourceLifecycle,
    /// A question the guest blocks on.
    Query,
    /// A frame to show.
    Present,
    /// Everything that touches no guest resource.
    Control,
}

/// Whether a class of work is handed to an executor.
#[must_use]
pub fn reaches_an_executor(class: PayloadClass) -> (reaches: bool)
    ensures
        reaches == (class is Exec),
{
    match class {
        PayloadClass::Exec => true,
        _ => false,
    }
}

/// What the command ledger says of a command.
#[derive(Clone, Copy, Debug, PartialEq, Eq, Structural)]
pub enum CommandContract {
    /// No dispatch table declares it.
    Undeclared,
    /// Declared, and its contract is not established.
    Unestablished,
    /// Established as work of this class.
    Established(PayloadClass),
}

/// What the ordering plane reads of GPU work.
#[derive(Clone, Debug, PartialEq, Eq)]
pub struct ExecWork {
    pub accesses: Vec<AccessIntent>,
    /// The pipelines the work binds.
    pub pipeline_leases: Vec<ResourceId>,
}

impl Default for ExecWork {
    fn default() -> (work: ExecWork)
        ensures
            work.accesses@.len() == 0,
            work.pipeline_leases@.len() == 0,
    {
        ExecWork { accesses: Vec::new(), pipeline_leases: Vec::new() }
    }
}

/// A lifecycle operation and what it touches.
#[derive(Clone, Debug, PartialEq, Eq)]
pub struct LifecyclePayload {
    pub op: LifecycleOp,
    pub accesses: Vec<AccessIntent>,
}

/// A present and the reads of its target.
#[derive(Clone, Debug, PartialEq, Eq)]
pub struct PresentPayload {
    pub packet: PresentPacket,
    pub accesses: Vec<AccessIntent>,
}

/// The one access a query makes: it writes its reply window.
pub open spec fn reply_access(request: QueryRequest, domain: ChannelId) -> AccessIntent {
    AccessIntent {
        domain,
        key: AccessKey::Range(
            ResourceKey { backing: request.destination.backing, heap: None },
            request.destination.bytes,
        ),
        mode: AccessMode::Write,
        api_stages: 0,
        input_content_version: None,
        output_content_version: None,
    }
}

/// A query and its reply window.
#[derive(Clone, Debug, PartialEq, Eq)]
pub struct QueryPayload {
    request: QueryRequest,
    accesses: Vec<AccessIntent>,
}

impl QueryPayload {
    pub closed spec fn asks(&self) -> QueryRequest {
        self.request
    }

    pub closed spec fn touched(&self) -> Seq<AccessIntent> {
        self.accesses@
    }

    #[must_use]
    pub fn new(request: QueryRequest, domain: ChannelId) -> (payload: Self)
        ensures
            payload.asks() == request,
            payload.touched() == seq![reply_access(request, domain)],
    {
        let access = AccessIntent {
            domain,
            key: AccessKey::Range(
                ResourceKey { backing: request.destination.backing, heap: None },
                request.destination.bytes,
            ),
            mode: AccessMode::Write,
            api_stages: 0,
            input_content_version: None,
            output_content_version: None,
        };
        let mut accesses: Vec<AccessIntent> = Vec::new();
        accesses.push(access);
        assert(accesses@ =~= seq![reply_access(request, domain)]);
        QueryPayload { request, accesses }
    }

    #[must_use]
    pub fn request(&self) -> (request: QueryRequest)
        ensures
            request == self.asks(),
    {
        self.request
    }
}

/// The decoded work of a packet.
#[derive(Clone, Debug, PartialEq, Eq)]
pub enum Payload {
    Exec(ExecWork),
    ResourceLifecycle(LifecyclePayload),
    Query(QueryPayload),
    Present(PresentPayload),
    Control(ControlOp),
}

impl Payload {
    pub open spec fn in_class(self) -> PayloadClass {
        match self {
            Payload::Exec(_) => PayloadClass::Exec,
            Payload::ResourceLifecycle(_) => PayloadClass::ResourceLifecycle,
            Payload::Query(_) => PayloadClass::Query,
            Payload::Present(_) => PayloadClass::Present,
            Payload::Control(_) => PayloadClass::Control,
        }
    }

    /// Everything the work touches. A control packet touches nothing.
    pub open spec fn touched(self) -> Seq<AccessIntent> {
        match self {
            Payload::Exec(work) => work.accesses@,
            Payload::ResourceLifecycle(lifecycle) => lifecycle.accesses@,
            Payload::Query(query) => query.touched(),
            Payload::Present(present) => present.accesses@,
            Payload::Control(_) => Seq::empty(),
        }
    }

    /// The pipelines the work binds. Only GPU work binds one.
    pub open spec fn bound(self) -> Seq<ResourceId> {
        match self {
            Payload::Exec(work) => work.pipeline_leases@,
            _ => Seq::empty(),
        }
    }

    #[must_use]
    pub fn class(&self) -> (class: PayloadClass)
        ensures
            class == self.in_class(),
    {
        match self {
            Payload::Exec(_) => PayloadClass::Exec,
            Payload::ResourceLifecycle(_) => PayloadClass::ResourceLifecycle,
            Payload::Query(_) => PayloadClass::Query,
            Payload::Present(_) => PayloadClass::Present,
            Payload::Control(_) => PayloadClass::Control,
        }
    }

    #[must_use]
    pub fn accesses(&self) -> (accesses: &[AccessIntent])
        ensures
            accesses@ == self.touched(),
    {
        match self {
            Payload::Exec(work) => work.accesses.as_slice(),
            Payload::ResourceLifecycle(lifecycle) => lifecycle.accesses.as_slice(),
            Payload::Query(query) => query.accesses.as_slice(),
            Payload::Present(present) => present.accesses.as_slice(),
            Payload::Control(_) => {
                let none: &[AccessIntent; 0] = &[];
                assert(none@ =~= Seq::<AccessIntent>::empty());
                none
            },
        }
    }

    /// The GPU work, if that is what this is.
    #[must_use]
    pub fn exec(&self) -> (work: Option<&ExecWork>)
        ensures
            work == (match *self {
                Payload::Exec(work) => Some(&work),
                _ => None,
            }),
    {
        match self {
            Payload::Exec(work) => Some(work),
            _ => None,
        }
    }
}

/// An accepted packet: where it stands, what it waits for, what it publishes,
/// and what it carries.
#[derive(Clone, Debug, PartialEq, Eq)]
pub struct DeviceTransaction {
    pub identity: TransactionIdentity,
    pub stamp_waits: Vec<StampWait>,
    pub completion: Option<CompletionStamp>,
    pub payload: Payload,
}

/// An executor's view of accepted GPU work: the work it was given, under the
/// identity the envelope carries.
#[derive(Clone, Copy, Debug)]
pub struct ExecView<'a> {
    pub identity: TransactionIdentity,
    pub work: &'a ExecWork,
}

impl<'a> ExecView<'a> {
    #[must_use]
    pub fn ingress(&self) -> (ingress: IngressOrdinal)
        ensures
            ingress == self.identity.ingress,
    {
        self.identity.ingress
    }

    #[must_use]
    pub fn domain(&self) -> (domain: ChannelId)
        ensures
            domain == self.identity.domain,
    {
        self.identity.domain
    }

    #[must_use]
    pub fn domain_sequence(&self) -> (sequence: ChannelSequence)
        ensures
            sequence == self.identity.domain_sequence,
    {
        self.identity.domain_sequence
    }
}

impl DeviceTransaction {
    #[must_use]
    pub fn class(&self) -> (class: PayloadClass)
        ensures
            class == self.payload.in_class(),
    {
        self.payload.class()
    }

    #[must_use]
    pub fn accesses(&self) -> (accesses: &[AccessIntent])
        ensures
            accesses@ == self.payload.touched(),
    {
        self.payload.accesses()
    }

    /// The executor's view, if the packet is GPU work.
    #[must_use]
    pub fn exec(&self) -> (view: Option<ExecView<'_>>)
        ensures
            match self.payload {
                Payload::Exec(work) => view matches Some(v) && v.identity == self.identity
                    && *v.work == work,
                _ => view is None,
            },
    {
        match &self.payload {
            Payload::Exec(work) => Some(ExecView { identity: self.identity, work }),
            _ => None,
        }
    }
}

/// The payload carries the access in its own list.
pub open spec fn lists(payload: Payload, access: AccessIntent) -> bool {
    match payload {
        Payload::Exec(work) => work.accesses@.contains(access),
        Payload::ResourceLifecycle(lifecycle) => lifecycle.accesses@.contains(access),
        Payload::Present(present) => present.accesses@.contains(access),
        Payload::Query(query) => query.touched().contains(access),
        Payload::Control(_) => false,
    }
}

/// What orders a packet is its payload's own list, for every class that carries
/// one: nothing on the list is left out, and nothing off it comes in.
pub proof fn a_payload_touches_exactly_its_list(
    exec: ExecWork,
    lifecycle: LifecyclePayload,
    present: PresentPayload,
    control: ControlOp,
)
    ensures
        Payload::Exec(exec).touched() == exec.accesses@,
        Payload::ResourceLifecycle(lifecycle).touched() == lifecycle.accesses@,
        Payload::Present(present).touched() == present.accesses@,
        Payload::Control(control).touched().len() == 0,
{
}

/// An access is touched exactly when the payload lists it.
pub proof fn an_access_is_touched_when_listed(payload: Payload, access: AccessIntent)
    ensures
        payload.touched().contains(access) == lists(payload, access),
{
}

/// A query writes its reply window and touches nothing else: it conflicts with
/// exactly the work of its domain that could share a byte of the window.
pub proof fn a_query_conflicts_over_its_reply_window(
    request: QueryRequest,
    domain: ChannelId,
    other: AccessIntent,
)
    ensures
        crate::access::edge_required(reply_access(request, domain), other) == (other.domain
            == domain && other.key.meets(
            AccessKey::Range(
                ResourceKey { backing: request.destination.backing, heap: None },
                request.destination.bytes,
            ),
        )),
        reply_access(request, domain).output_content_version is None,
{
    crate::access::aliasing_is_symmetric(reply_access(request, domain).key, other.key);
}

/// Only GPU work binds pipelines, and it binds all it holds.
pub proof fn only_gpu_work_binds_pipelines(payload: Payload, pipeline: ResourceId)
    ensures
        payload.bound().contains(pipeline) == (payload matches Payload::Exec(work)
            && work.pipeline_leases@.contains(pipeline)),
{
}

/// A payload is of the class of the work it carries, and of no other.
pub proof fn a_payload_is_of_its_own_class(payload: Payload)
    ensures
        (payload.in_class() is Exec) == (payload is Exec),
        (payload.in_class() is ResourceLifecycle) == (payload is ResourceLifecycle),
        (payload.in_class() is Query) == (payload is Query),
        (payload.in_class() is Present) == (payload is Present),
        (payload.in_class() is Control) == (payload is Control),
{
}

} // verus!
