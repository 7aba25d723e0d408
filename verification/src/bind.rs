//! What a bind record puts in a slot.

use vstd::prelude::*;
use crate::identity::ResourceId;

verus! {

/// The slots a stage's buffer table usually needs.
pub const BUFFER_TABLE_HINT: u32 = 31;

/// The slots a stage's texture table usually needs.
pub const TEXTURE_TABLE_HINT: u32 = 128;

/// The slots a stage's sampler table usually needs.
pub const SAMPLER_TABLE_HINT: u32 = 16;

/// A buffer bound at an offset. The bind names no length.
#[derive(Clone, Copy, Debug, PartialEq, Eq, Structural)]
pub struct BufferBinding {
    pub buffer: Option<ResourceId>,
    pub offset: u64,
    pub stride: Option<u64>,
}

/// The level-of-detail clamps of a sampler bind, as the guest's bit patterns.
#[derive(Clone, Copy, Debug, PartialEq, Eq, Structural)]
pub struct LodClamps {
    pub min_bits: u32,
    pub max_bits: u32,
}

/// A texture or a sampler bound to a slot.
#[derive(Clone, Copy, Debug, PartialEq, Eq, Structural)]
pub struct ObjectBinding {
    pub object: Option<ResourceId>,
    pub lod_clamps: Option<LodClamps>,
}

/// A buffer an operation reads its arguments from.
#[derive(Clone, Copy, Debug, PartialEq, Eq, Structural)]
pub struct IndirectSource {
    pub buffer: ResourceId,
    pub offset: u64,
}

} // verus!
