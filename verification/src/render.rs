//! The render encoder's operations that the transaction model reads.

use vstd::prelude::*;
use crate::identity::ResourceId;

verus! {

/// A programmable stage of a render pipeline.
#[derive(Clone, Copy, Debug, PartialEq, Eq, PartialOrd, Ord, Hash, Structural)]
pub enum ShaderStage {
    Vertex,
    Fragment,
}

/// Where in the transaction's arena a pass descriptor stands.
#[derive(Clone, Copy, Debug, PartialEq, Eq, Structural)]
pub struct PassDescriptorSlot(pub u32);

/// One render operation. Binding a pipeline touches no memory; writing a pass
/// descriptor touches what the descriptor names.
#[derive(Clone, Copy, Debug, PartialEq, Eq, Structural)]
pub enum RenderOp {
    SetPipeline { pipeline: ResourceId },
    WriteDescriptor { descriptor: PassDescriptorSlot },
}

} // verus!
