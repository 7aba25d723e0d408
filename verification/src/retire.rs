//! The two lifetimes a lease belongs to, judged separately.
//!
//! A guest reset ends the semantic lifetime: nothing new may name the object,
//! and the submission the host is still executing finishes. A device loss ends
//! the native one: no handle made in it can be used again.

use vstd::prelude::*;
use crate::identity::{DeviceEpoch, SessionGeneration};

verus! {

/// The pair of lifetimes a lease was issued in.
#[derive(Clone, Copy, Debug, PartialEq, Eq, Structural)]
pub struct Lifetime {
    pub session: SessionGeneration,
    pub epoch: DeviceEpoch,
}

/// What is left of a lease.
#[derive(Clone, Copy, Debug, PartialEq, Eq, Structural)]
pub enum Validity {
    /// Both lifetimes are current.
    Live,
    /// The semantic lifetime closed; the device is the same one.
    Draining,
    /// The device was lost; the semantic lifetime is the same one.
    Stranded,
    /// Neither lifetime is current.
    Gone,
}

impl Validity {
    /// Whether new work may name what the lease covers.
    #[must_use]
    pub fn admits_new_work(self) -> (admits: bool)
        ensures
            admits == (self is Live),
    {
        match self {
            Validity::Live => true,
            _ => false,
        }
    }

    /// Whether the native handles under the lease may still be used.
    #[must_use]
    pub fn handles_usable(self) -> (usable: bool)
        ensures
            usable == (self is Live || self is Draining),
    {
        match self {
            Validity::Live | Validity::Draining => true,
            _ => false,
        }
    }
}

impl Lifetime {
    #[must_use]
    pub fn new(session: SessionGeneration, epoch: DeviceEpoch) -> (lifetime: Self)
        ensures
            lifetime == (Lifetime { session, epoch }),
    {
        Lifetime { session, epoch }
    }

    /// What is left of a lease once these are the current lifetimes.
    pub open spec fn judged(self, session: SessionGeneration, epoch: DeviceEpoch) -> Validity {
        if self.session == session {
            if self.epoch == epoch { Validity::Live } else { Validity::Stranded }
        } else {
            if self.epoch == epoch { Validity::Draining } else { Validity::Gone }
        }
    }

    #[must_use]
    pub fn against(self, session: SessionGeneration, epoch: DeviceEpoch) -> (validity: Validity)
        ensures
            validity == self.judged(session, epoch),
    {
        if self.session == session {
            if self.epoch == epoch { Validity::Live } else { Validity::Stranded }
        } else {
            if self.epoch == epoch { Validity::Draining } else { Validity::Gone }
        }
    }
}

/// Each of the two lifetimes is judged by itself: whether the session still
/// matches does not depend on the device, nor the device on the session.
pub proof fn each_lifetime_is_judged_by_itself(
    lease: Lifetime,
    session: SessionGeneration,
    epoch: DeviceEpoch,
)
    ensures
        ({
            let left = lease.judged(session, epoch);
            &&& left is Live || left is Stranded <==> lease.session.0 == session.0
            &&& left is Live || left is Draining <==> lease.epoch.0 == epoch.0
        }),
{
}

} // verus!
