//! The transfer operations, and what each of them touches.

use vstd::prelude::*;
use crate::access::{AccessMode, ByteRange, Participation, ParticipationExtent, SubresourceRange};
use crate::identity::ResourceId;

verus! {

#[derive(Clone, Copy, Debug, PartialEq, Eq, Structural)]
pub struct Origin3 {
    pub x: u32,
    pub y: u32,
    pub z: u32,
}

#[derive(Clone, Copy, Debug, PartialEq, Eq, Structural)]
pub struct Size3 {
    pub width: u32,
    pub height: u32,
    pub depth: u32,
}

/// How a buffer's bytes are laid out as an image.
#[derive(Clone, Copy, Debug, PartialEq, Eq, Structural)]
pub struct ImagePitch {
    pub bytes_per_row: u64,
    pub bytes_per_image: u64,
}

/// The options word of a copy, as the guest wrote it.
#[derive(Clone, Copy, Debug, PartialEq, Eq, Structural)]
pub struct BlitOptions(pub u32);

/// One end of a texture copy.
#[derive(Clone, Copy, Debug, PartialEq, Eq, Structural)]
pub struct TexturePoint {
    pub texture: ResourceId,
    pub slice: u32,
    pub level: u32,
    pub origin: Origin3,
}

impl TexturePoint {
    /// The level of the slice the point is in.
    pub open spec fn window(self) -> SubresourceRange {
        SubresourceRange {
            base_level: self.level,
            level_count: 1,
            base_slice: self.slice,
            slice_count: 1,
            plane: 0,
        }
    }

    fn subresource(self) -> (window: SubresourceRange)
        ensures
            window == self.window(),
    {
        SubresourceRange {
            base_level: self.level,
            level_count: 1,
            base_slice: self.slice,
            slice_count: 1,
            plane: 0,
        }
    }
}

/// A run of slices and levels of one texture.
#[derive(Clone, Copy, Debug, PartialEq, Eq, Structural)]
pub struct TextureSpan {
    pub texture: ResourceId,
    pub base_slice: u32,
    pub base_level: u32,
    pub slice_count: u32,
    pub level_count: u32,
}

impl TextureSpan {
    /// The levels and slices of the run.
    pub open spec fn window(self) -> SubresourceRange {
        SubresourceRange {
            base_level: self.base_level,
            level_count: self.level_count,
            base_slice: self.base_slice,
            slice_count: self.slice_count,
            plane: 0,
        }
    }

    fn subresource(self) -> (window: SubresourceRange)
        ensures
            window == self.window(),
    {
        SubresourceRange {
            base_level: self.base_level,
            level_count: self.level_count,
            base_slice: self.base_slice,
            slice_count: self.slice_count,
            plane: 0,
        }
    }
}

/// A window of a buffer.
#[derive(Clone, Copy, Debug, PartialEq, Eq, Structural)]
pub struct BufferSpan {
    pub buffer: ResourceId,
    pub offset: u64,
    pub length: u64,
}

/// What a fill writes.
#[derive(Clone, Copy, Debug, PartialEq, Eq, Structural)]
pub enum FillPattern {
    Byte(u8),
    Pattern4(u32),
}

/// One transfer.
#[allow(inconsistent_fields)]
#[derive(Clone, Copy, Debug, PartialEq, Eq, Structural)]
pub enum BlitOp {
    BufferToBuffer {
        source: ResourceId,
        source_offset: u64,
        dest: ResourceId,
        dest_offset: u64,
        size: u64,
    },
    BufferToTexture {
        source: ResourceId,
        source_offset: u64,
        source_pitch: ImagePitch,
        size: Size3,
        dest: TexturePoint,
        options: BlitOptions,
    },
    TextureToBuffer {
        source: TexturePoint,
        size: Size3,
        dest: ResourceId,
        dest_offset: u64,
        dest_pitch: ImagePitch,
        options: BlitOptions,
    },
    TextureRegion { source: TexturePoint, dest: TexturePoint, size: Size3, options: BlitOptions },
    TextureSlices { source: TextureSpan, dest: TextureSpan },
    FillBuffer { dest: BufferSpan, pattern: FillPattern },
    GenerateMipmaps { texture: ResourceId },
}

/// A read of a resource.
pub open spec fn reads(resource: ResourceId, extent: ParticipationExtent) -> Participation {
    Participation { resource, extent, mode: AccessMode::Read, api_stages: 0 }
}

/// A write of a resource.
pub open spec fn writes(resource: ResourceId, extent: ParticipationExtent) -> Participation {
    Participation { resource, extent, mode: AccessMode::Write, api_stages: 0 }
}

impl BlitOp {
    /// What a transfer touches: it reads its source and writes its destination,
    /// at the precision the record supplied. The bytes an image copy covers in
    /// a buffer depend on the image's layout, so the buffer's end is whole.
    pub open spec fn footprint(self) -> Seq<Participation> {
        match self {
            BlitOp::BufferToBuffer { source, source_offset, dest, dest_offset, size } => seq![
                reads(
                    source,
                    ParticipationExtent::Range(ByteRange { offset: source_offset, length: size }),
                ),
                writes(
                    dest,
                    ParticipationExtent::Range(ByteRange { offset: dest_offset, length: size }),
                ),
            ],
            BlitOp::BufferToTexture { source, dest, .. } => seq![
                reads(source, ParticipationExtent::Whole),
                writes(dest.texture, ParticipationExtent::Subresource(dest.window())),
            ],
            BlitOp::TextureToBuffer { source, dest, .. } => seq![
                reads(source.texture, ParticipationExtent::Subresource(source.window())),
                writes(dest, ParticipationExtent::Whole),
            ],
            BlitOp::TextureRegion { source, dest, .. } => seq![
                reads(source.texture, ParticipationExtent::Subresource(source.window())),
                writes(dest.texture, ParticipationExtent::Subresource(dest.window())),
            ],
            BlitOp::TextureSlices { source, dest } => seq![
                reads(source.texture, ParticipationExtent::Subresource(source.window())),
                writes(dest.texture, ParticipationExtent::Subresource(dest.window())),
            ],
            BlitOp::FillBuffer { dest, .. } => seq![
                writes(
                    dest.buffer,
                    ParticipationExtent::Range(
                        ByteRange { offset: dest.offset, length: dest.length },
                    ),
                ),
            ],
            BlitOp::GenerateMipmaps { texture } => seq![
                Participation {
                    resource: texture,
                    extent: ParticipationExtent::Whole,
                    mode: AccessMode::ReadWrite,
                    api_stages: 0,
                },
            ],
        }
    }

    pub fn participations(&self, out: &mut Vec<Participation>)
        ensures
            final(out)@ == old(out)@ + self.footprint(),
    {
        match *self {
            BlitOp::BufferToBuffer { source, source_offset, dest, dest_offset, size } => {
                let from = ByteRange { offset: source_offset, length: size };
                let to = ByteRange { offset: dest_offset, length: size };
                push(out, source, ParticipationExtent::Range(from), AccessMode::Read);
                push(out, dest, ParticipationExtent::Range(to), AccessMode::Write);
            },
            BlitOp::BufferToTexture { source, dest, .. } => {
                let to = ParticipationExtent::Subresource(dest.subresource());
                push(out, source, ParticipationExtent::Whole, AccessMode::Read);
                push(out, dest.texture, to, AccessMode::Write);
            },
            BlitOp::TextureToBuffer { source, dest, .. } => {
                let from = ParticipationExtent::Subresource(source.subresource());
                push(out, source.texture, from, AccessMode::Read);
                push(out, dest, ParticipationExtent::Whole, AccessMode::Write);
            },
            BlitOp::TextureRegion { source, dest, .. } => {
                let from = ParticipationExtent::Subresource(source.subresource());
                let to = ParticipationExtent::Subresource(dest.subresource());
                push(out, source.texture, from, AccessMode::Read);
                push(out, dest.texture, to, AccessMode::Write);
            },
            BlitOp::TextureSlices { source, dest } => {
                let from = ParticipationExtent::Subresource(source.subresource());
                let to = ParticipationExtent::Subresource(dest.subresource());
                push(out, source.texture, from, AccessMode::Read);
                push(out, dest.texture, to, AccessMode::Write);
            },
            BlitOp::FillBuffer { dest, .. } => {
                let to = ByteRange { offset: dest.offset, length: dest.length };
                push(out, dest.buffer, ParticipationExtent::Range(to), AccessMode::Write);
            },
            BlitOp::GenerateMipmaps { texture } => {
                push(out, texture, ParticipationExtent::Whole, AccessMode::ReadWrite);
            },
        }
        assert(out@ =~= old(out)@ + self.footprint());
    }
}

/// Append one participation.
fn push(
    out: &mut Vec<Participation>,
    resource: ResourceId,
    extent: ParticipationExtent,
    mode: AccessMode,
)
    ensures
        final(out)@ == old(out)@.push(
            Participation { resource, extent, mode, api_stages: 0 },
        ),
{
    out.push(Participation { resource, extent, mode, api_stages: 0 });
}

} // verus!
