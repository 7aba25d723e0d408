//! The compute encoder's operations that the transaction model reads.

use vstd::prelude::*;
use crate::identity::ResourceId;

verus! {

/// One compute operation. Binding a pipeline touches no memory.
#[derive(Clone, Copy, Debug, PartialEq, Eq, Structural)]
pub enum ComputeOp {
    SetPipeline { pipeline: ResourceId },
}

} // verus!
