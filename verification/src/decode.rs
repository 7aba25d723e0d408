//! The records a command stream's bytes decode to, with the guest's own object
//! refs still on them.

use vstd::prelude::*;
use crate::resource_state::ContentDirective;
use crate::stream::Rail;
use crate::sync::{BarrierScope, EventKind, FenceKind, RenderStages};

verus! {

/// Why bytes did not become a record.
#[derive(Clone, Copy, Debug, PartialEq, Eq, Structural)]
pub enum DecodeRefusal {
    /// The rail has no record with this opcode.
    UnknownOpcode { rail: Rail, opcode: u32 },
}

impl DecodeRefusal {
    /// The reason string's text.
    pub open spec fn reason_text(self) -> Seq<char> {
        match self {
            DecodeRefusal::UnknownOpcode { .. } => "decode_unknown_opcode"@,
        }
    }

    #[must_use]
    pub fn reason(self) -> (reason: &'static str)
        ensures
            reason@ == self.reason_text(),
    {
        match self {
            DecodeRefusal::UnknownOpcode { .. } => "decode_unknown_opcode",
        }
    }
}

#[derive(Clone, Copy, Debug, PartialEq, Eq, Structural)]
pub struct Origin {
    pub x: u32,
    pub y: u32,
    pub z: u32,
}

#[derive(Clone, Copy, Debug, PartialEq, Eq, Structural)]
pub struct Size {
    pub width: u32,
    pub height: u32,
    pub depth: u32,
}

/// One end of a texture copy, as the guest named it.
#[derive(Clone, Copy, Debug, PartialEq, Eq, Structural)]
pub struct TextureEndpoint {
    pub texture_ref: u32,
    pub slice: u32,
    pub level: u32,
    pub origin: Origin,
}

#[derive(Clone, Copy, Debug, PartialEq, Eq, Structural)]
pub enum FillPattern {
    Byte(u8),
    Pattern4(u32),
}

/// A transfer record.
#[allow(inconsistent_fields)]
#[derive(Clone, Copy, Debug, PartialEq, Eq, Structural)]
pub enum BlitRecord {
    BufferToBuffer {
        source_ref: u32,
        source_offset: u64,
        dest_ref: u32,
        dest_offset: u64,
        size: u64,
    },
    BufferToTexture {
        source_ref: u32,
        source_offset: u64,
        bytes_per_row: u64,
        bytes_per_image: u64,
        size: Size,
        dest: TextureEndpoint,
        options: u32,
    },
    TextureToBuffer {
        source: TextureEndpoint,
        size: Size,
        dest_ref: u32,
        dest_offset: u64,
        bytes_per_row: u64,
        bytes_per_image: u64,
        options: u32,
    },
    TextureRegion { source: TextureEndpoint, dest: TextureEndpoint, size: Size, options: u32 },
    TextureSlices {
        source_ref: u32,
        source_slice: u32,
        source_level: u32,
        dest_ref: u32,
        dest_slice: u32,
        dest_level: u32,
        slice_count: u32,
        level_count: u32,
    },
    FillBuffer { buffer_ref: u32, location: u64, length: u64, pattern: FillPattern },
    GenerateMipmaps { texture_ref: u32 },
}

/// What a content record is about, as the guest named it.
#[derive(Clone, Copy, Debug, PartialEq, Eq, Structural)]
pub enum RecordTarget {
    WholeResource { object_ref: u32 },
    SliceLevel { texture_ref: u32, slice: u16, level: u16 },
    Encoder,
}

/// A content-representation record.
#[derive(Clone, Copy, Debug, PartialEq, Eq, Structural)]
pub struct ResourceStateRecord {
    pub directive: ContentDirective,
    pub target: RecordTarget,
}

#[derive(Clone, Copy, Debug, PartialEq, Eq, Structural)]
pub struct RecordCommands {
    pub location: u64,
    pub length: u64,
}

#[derive(Clone, Copy, Debug, PartialEq, Eq, Structural)]
pub struct RecordArguments {
    pub buffer_ref: u32,
    pub offset: u64,
}

/// An indirect-command record.
#[derive(Clone, Copy, Debug, PartialEq, Eq, Structural)]
pub enum IcbRecord {
    ExecuteRange { icb_ref: u32, commands: RecordCommands },
    ExecuteIndirect { icb_ref: u32, arguments: RecordArguments },
    Optimize { icb_ref: u32, commands: RecordCommands },
}

#[derive(Clone, Copy, Debug, PartialEq, Eq, Structural)]
pub struct FenceRecord {
    pub kind: FenceKind,
    pub fence_ref: u32,
    pub stages: Option<RenderStages>,
}

#[derive(Clone, Copy, Debug, PartialEq, Eq, Structural)]
pub struct EventRecord {
    pub kind: EventKind,
    pub event_ref: u32,
    pub value: u64,
}

/// A barrier record. A resource barrier carries a counted list of refs.
#[derive(Clone, Copy, Debug)]
pub enum BarrierRecord<'a> {
    Resources {
        refs: &'a [u32],
        after_stages: Option<RenderStages>,
        before_stages: Option<RenderStages>,
    },
    Scope {
        scope: BarrierScope,
        after_stages: Option<RenderStages>,
        before_stages: Option<RenderStages>,
        /// A byte with no established meaning, carried as read.
        unidentified_u8: Option<u8>,
    },
    Texture,
}

/// Any ordering record.
#[derive(Clone, Copy, Debug)]
pub enum SyncRecord<'a> {
    Fence(FenceRecord),
    Event(EventRecord),
    Barrier(BarrierRecord<'a>),
}

/// A residency declaration's counted list.
#[derive(Clone, Copy, Debug)]
pub struct ResidencyRecord<'a> {
    pub refs: &'a [u32],
}

} // verus!
