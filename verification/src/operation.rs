//! The classes a resolved stream operation belongs to, and the encoders each
//! class appears in.

use vstd::prelude::*;
use crate::stream::{Rail, SegmentKind};

verus! {

/// What kind of thing one stream operation is.
#[derive(Clone, Copy, Debug, PartialEq, Eq, PartialOrd, Ord, Hash, Structural)]
pub enum OperationClass {
    EncoderBoundary,
    Render,
    Compute,
    Blit,
    Event,
    Fence,
    Barrier,
    ResourceState,
    IndirectCommand,
    InfoQuery,
    CompletionEffect,
}

impl OperationClass {
    /// The rail a class is read on, when it belongs to exactly one.
    pub open spec fn sole_rail(self) -> Option<Rail> {
        match self {
            OperationClass::Render => Some(Rail::Render),
            OperationClass::Compute => Some(Rail::Compute),
            OperationClass::Blit => Some(Rail::Blit),
            OperationClass::Event => Some(Rail::Event),
            OperationClass::InfoQuery => Some(Rail::Info),
            _ => None,
        }
    }

    /// Which rail this class's records are read on, or `None` for a class that
    /// exists on more than one encoder, or on none.
    #[must_use]
    pub fn rail(self) -> (rail: Option<Rail>)
        ensures
            rail == self.sole_rail(),
    {
        match self {
            OperationClass::Render => Some(Rail::Render),
            OperationClass::Compute => Some(Rail::Compute),
            OperationClass::Blit => Some(Rail::Blit),
            OperationClass::Event => Some(Rail::Event),
            OperationClass::InfoQuery => Some(Rail::Info),
            _ => None,
        }
    }

    /// The encoders a class that belongs to no single rail may appear in.
    ///
    /// A fence exists on the render and blit encoders and not on the compute
    /// one; a barrier on render and compute and not on blit.
    pub open spec fn carried_by(self, kind: SegmentKind) -> bool {
        match self {
            OperationClass::EncoderBoundary => true,
            OperationClass::Fence => kind is Render || kind is Blit,
            OperationClass::Barrier => kind is Render || kind is Compute,
            OperationClass::ResourceState => kind is Blit || kind is Compute,
            OperationClass::IndirectCommand => kind is Render || kind is Blit,
            _ => false,
        }
    }

    /// Whether a record of this class may appear inside a `kind` segment, for a
    /// class that belongs to no single rail.
    #[must_use]
    pub fn admissible_on(self, kind: SegmentKind) -> (carried: bool)
        ensures
            carried == self.carried_by(kind),
    {
        match self {
            OperationClass::EncoderBoundary => true,
            OperationClass::Fence => matches!(kind, SegmentKind::Render | SegmentKind::Blit),
            OperationClass::Barrier => matches!(kind, SegmentKind::Render | SegmentKind::Compute),
            OperationClass::ResourceState => matches!(kind, SegmentKind::Blit | SegmentKind::Compute),
            OperationClass::IndirectCommand => matches!(kind, SegmentKind::Render | SegmentKind::Blit),
            _ => false,
        }
    }
}

/// A class read on a rail of its own shares it with no other class, and is
/// carried inside no encoder through a record of its own.
pub proof fn a_rail_belongs_to_one_class(a: OperationClass, b: OperationClass, kind: SegmentKind)
    ensures
        a.sole_rail() is Some && a.sole_rail() == b.sole_rail() ==> a == b,
        a.sole_rail() is Some ==> !a.carried_by(kind),
        a is EncoderBoundary ==> a.carried_by(kind) && a.sole_rail() is None,
        a is CompletionEffect ==> !a.carried_by(kind) && a.sole_rail() is None,
{
}

/// Which records each encoder carries beside its own: a render encoder no
/// content records, a compute encoder no fences and no indirect commands, a
/// blit encoder no barriers, and any other encoder nothing but its boundary.
pub proof fn each_encoder_carries_its_own_records(class: OperationClass, kind: SegmentKind)
    requires
        class.sole_rail() is None,
        !(class is EncoderBoundary),
        !(class is CompletionEffect),
    ensures
        kind is Render ==> class.carried_by(kind) == !(class is ResourceState),
        kind is Compute ==> class.carried_by(kind) == !(class is Fence || class is IndirectCommand),
        kind is Blit ==> class.carried_by(kind) == !(class is Barrier),
        !(kind is Render || kind is Compute || kind is Blit) ==> !class.carried_by(kind),
{
}

} // verus!
