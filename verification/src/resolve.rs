//! Turning a decoded record into a resolved operation: which object each of
//! the guest's refs names right now.
//!
//! A ref that names nothing is a refusal with the guest's own number and never
//! a null id: an operation naming something that does not exist would be
//! ordered against by everything downstream. A counted list resolves whole
//! before anything of it is filed in the arena.

use vstd::prelude::*;
use crate::access::{AccessMode, ByteRange, Participation, ParticipationExtent, SubresourceRange};
use crate::bind::IndirectSource;
use crate::blit::{
    BlitOp, BlitOptions, BufferSpan, FillPattern, ImagePitch, Origin3, Size3, TexturePoint,
    TextureSpan,
};
use crate::decode::{
    BarrierRecord, BlitRecord, DecodeRefusal, EventRecord, FenceRecord, IcbRecord, Origin,
    RecordTarget, ResidencyRecord, ResourceStateRecord, Size, SyncRecord, TextureEndpoint,
};
use crate::exec::ExecArenas;
use crate::icb::{CommandRange, IcbOp};
use crate::identity::ResourceId;
use crate::resource_state::{ResourceStateOp, ResourceStateTarget, SliceLevel};
use crate::sync::{BarrierOp, BarrierTarget, EventOp, FenceOp, ResourceSpan};

verus! {

/// What a guest ref names right now.
///
/// One question, because that is the whole of what resolution may ask device
/// state.
pub trait RefResolver {
    /// The live resource a ref names; `None` when the slot holds nothing.
    spec fn names(&self, object_ref: u32) -> Option<ResourceId>;

    /// The live resource a ref names, or `None` when the slot holds nothing.
    fn resource(&self, object_ref: u32) -> (id: Option<ResourceId>)
        ensures
            id == self.names(object_ref),
    ;
}

/// Why a record could not become an operation.
#[derive(Clone, Copy, Debug, PartialEq, Eq, Structural)]
pub enum ResolveRefusal {
    /// The bytes never became a record.
    Decode(DecodeRefusal),
    /// A ref names no live object.
    UnknownRef { object_ref: u32 },
    /// A counted list is longer than an arena window can name.
    ArenaOverflow { wanted: usize },
}

impl ResolveRefusal {
    /// The stable reason string for the failure channel.
    #[must_use]
    pub fn reason(self) -> (reason: &'static str)
        ensures
            reason@ == (match self {
                ResolveRefusal::Decode(inner) => inner.reason_text(),
                ResolveRefusal::UnknownRef { .. } => "resolve_ref_names_no_object"@,
                ResolveRefusal::ArenaOverflow { .. } => "resolve_list_exceeds_arena_window"@,
            }),
    {
        match self {
            ResolveRefusal::Decode(inner) => inner.reason(),
            ResolveRefusal::UnknownRef { .. } => "resolve_ref_names_no_object",
            ResolveRefusal::ArenaOverflow { .. } => "resolve_list_exceeds_arena_window",
        }
    }
}

impl From<DecodeRefusal> for ResolveRefusal {
    fn from(inner: DecodeRefusal) -> (r: ResolveRefusal) {
        ResolveRefusal::Decode(inner)
    }
}

impl vstd::std_specs::convert::FromSpecImpl<DecodeRefusal> for ResolveRefusal {
    open spec fn obeys_from_spec() -> bool {
        true
    }

    open spec fn from_spec(inner: DecodeRefusal) -> ResolveRefusal {
        ResolveRefusal::Decode(inner)
    }
}

/// What one ref resolves to.
pub open spec fn named<R: RefResolver>(resolver: &R, object_ref: u32) -> Result<
    ResourceId,
    ResolveRefusal,
> {
    match resolver.names(object_ref) {
        Some(id) => Ok(id),
        None => Err(ResolveRefusal::UnknownRef { object_ref }),
    }
}

/// Resolve one ref, refusing by name when it holds nothing.
fn one<R: RefResolver>(resolver: &R, object_ref: u32) -> (r: Result<ResourceId, ResolveRefusal>)
    ensures
        r == named(resolver, object_ref),
{
    match resolver.resource(object_ref) {
        Some(id) => Ok(id),
        None => Err(ResolveRefusal::UnknownRef { object_ref }),
    }
}

/// What two refs resolve to; the first refusal decides.
pub open spec fn named_pair<R: RefResolver>(resolver: &R, first: u32, second: u32) -> Result<
    (ResourceId, ResourceId),
    ResolveRefusal,
> {
    match (named(resolver, first), named(resolver, second)) {
        (Err(e), _) => Err(e),
        (_, Err(e)) => Err(e),
        (Ok(a), Ok(b)) => Ok((a, b)),
    }
}

fn pair<R: RefResolver>(resolver: &R, first: u32, second: u32) -> (r: Result<
    (ResourceId, ResourceId),
    ResolveRefusal,
>)
    ensures
        r == named_pair(resolver, first, second),
{
    match one(resolver, first) {
        Err(e) => Err(e),
        Ok(a) => match one(resolver, second) {
            Err(e) => Err(e),
            Ok(b) => Ok((a, b)),
        },
    }
}

/// The first ref that names nothing, if any.
pub open spec fn first_unknown<R: RefResolver>(resolver: &R, refs: Seq<u32>) -> Option<u32>
    decreases refs.len(),
{
    if refs.len() == 0 {
        None
    } else {
        match first_unknown(resolver, refs.drop_last()) {
            Some(r) => Some(r),
            None => if resolver.names(refs.last()) is None {
                Some(refs.last())
            } else {
                None
            },
        }
    }
}

/// What each ref names.
pub open spec fn named_by<R: RefResolver>(resolver: &R, refs: Seq<u32>) -> Seq<ResourceId> {
    Seq::new(refs.len(), |i: int| resolver.names(refs[i])->Some_0)
}

pub proof fn lemma_first_unknown_extends<R: RefResolver>(
    resolver: &R,
    refs: Seq<u32>,
    n: int,
    object_ref: u32,
)
    requires
        0 <= n <= refs.len(),
        first_unknown(resolver, refs.take(n)) == Some(object_ref),
    ensures
        first_unknown(resolver, refs) == Some(object_ref),
    decreases refs.len(),
{
    if n == refs.len() {
        assert(refs.take(n) =~= refs);
    } else {
        assert(refs.drop_last().take(n) =~= refs.take(n));
        lemma_first_unknown_extends(resolver, refs.drop_last(), n, object_ref);
    }
}

/// What filing a list in an arena of `filed` entries is refused for.
///
/// A window is two 32-bit words, so a transaction cannot hold more entries than
/// one of them counts.
pub open spec fn list_refusal<R: RefResolver>(resolver: &R, filed: nat, refs: Seq<u32>) -> Option<
    ResolveRefusal,
> {
    if filed + refs.len() > u32::MAX {
        Some(ResolveRefusal::ArenaOverflow { wanted: refs.len() as usize })
    } else {
        match first_unknown(resolver, refs) {
            Some(object_ref) => Some(ResolveRefusal::UnknownRef { object_ref }),
            None => None,
        }
    }
}

/// Only the resource arena differs, and by exactly these entries at its end.
pub open spec fn filed_after(before: ExecArenas, after: ExecArenas, added: Seq<ResourceId>) -> bool {
    &&& after.resources@ == before.resources@ + added
    &&& after.buffer_bindings == before.buffer_bindings
    &&& after.object_bindings == before.object_bindings
    &&& after.pass_descriptors == before.pass_descriptors
}

/// Append a resolved list to the arena and name the window.
///
/// The whole list resolves before anything is appended, so a refused list
/// leaves the arena as it was.
fn append_refs<R: RefResolver>(arenas: &mut ExecArenas, resolver: &R, refs: &[u32]) -> (r: Result<
    ResourceSpan,
    ResolveRefusal,
>)
    ensures
        match list_refusal(resolver, old(arenas).resources@.len(), refs@) {
            Some(e) => r == Err::<ResourceSpan, ResolveRefusal>(e) && *final(arenas) == *old(arenas),
            None => r == Ok::<ResourceSpan, ResolveRefusal>(
                ResourceSpan {
                    start: old(arenas).resources@.len() as u32,
                    len: refs@.len() as u32,
                },
            ) && filed_after(*old(arenas), *final(arenas), named_by(resolver, refs@)),
        },
{
    let filed = arenas.resources.len();
    let wanted = refs.len();
    let top = u32::MAX as usize;
    if filed > top || wanted > top - filed {
        return Err(ResolveRefusal::ArenaOverflow { wanted });
    }
    let mut resolved: Vec<ResourceId> = Vec::new();
    let mut i: usize = 0;
    while i < refs.len()
        invariant
            *arenas == *old(arenas),
            filed == arenas.resources@.len(),
            filed + refs@.len() <= u32::MAX,
            i <= refs@.len(),
            first_unknown(resolver, refs@.take(i as int)) is None,
            resolved@ == named_by(resolver, refs@.take(i as int)),
        decreases refs.len() - i,
    {
        let object_ref = refs[i];
        proof {
            assert(refs@.take(i + 1).drop_last() =~= refs@.take(i as int));
            assert(refs@.take(i + 1).last() == object_ref);
        }
        match one(resolver, object_ref) {
            Ok(id) => {
                resolved.push(id);
                assert(resolved@ =~= named_by(resolver, refs@.take(i + 1)));
            },
            Err(e) => {
                proof {
                    lemma_first_unknown_extends(resolver, refs@, i + 1, object_ref);
                }
                return Err(e);
            },
        }
        i = i + 1;
    }
    assert(refs@.take(i as int) =~= refs@);
    arenas.resources.append(&mut resolved);
    Ok(ResourceSpan { start: filed as u32, len: wanted as u32 })
}

/// The model's form of an origin.
pub open spec fn origin_of(o: Origin) -> Origin3 {
    Origin3 { x: o.x, y: o.y, z: o.z }
}

fn origin(o: Origin) -> (r: Origin3)
    ensures
        r == origin_of(o),
{
    Origin3 { x: o.x, y: o.y, z: o.z }
}

/// The model's form of a size.
pub open spec fn size_of_record(s: Size) -> Size3 {
    Size3 { width: s.width, height: s.height, depth: s.depth }
}

fn size(s: Size) -> (r: Size3)
    ensures
        r == size_of_record(s),
{
    Size3 { width: s.width, height: s.height, depth: s.depth }
}

/// A texture endpoint whose texture is known.
pub open spec fn point_of(e: TextureEndpoint, texture: ResourceId) -> TexturePoint {
    TexturePoint { texture, slice: e.slice, level: e.level, origin: origin_of(e.origin) }
}

fn endpoint(e: TextureEndpoint, texture: ResourceId) -> (r: TexturePoint)
    ensures
        r == point_of(e, texture),
{
    TexturePoint { texture, slice: e.slice, level: e.level, origin: origin(e.origin) }
}

/// The object a transfer reads, as the guest named it; a fill and a mipmap
/// generation read no other.
pub open spec fn source_ref_of(record: BlitRecord) -> Option<u32> {
    match record {
        BlitRecord::BufferToBuffer { source_ref, .. } => Some(source_ref),
        BlitRecord::BufferToTexture { source_ref, .. } => Some(source_ref),
        BlitRecord::TextureToBuffer { source, .. } => Some(source.texture_ref),
        BlitRecord::TextureRegion { source, .. } => Some(source.texture_ref),
        BlitRecord::TextureSlices { source_ref, .. } => Some(source_ref),
        BlitRecord::FillBuffer { .. } => None,
        BlitRecord::GenerateMipmaps { .. } => None,
    }
}

/// The object a transfer writes, as the guest named it.
pub open spec fn dest_ref_of(record: BlitRecord) -> u32 {
    match record {
        BlitRecord::BufferToBuffer { dest_ref, .. } => dest_ref,
        BlitRecord::BufferToTexture { dest, .. } => dest.texture_ref,
        BlitRecord::TextureToBuffer { dest_ref, .. } => dest_ref,
        BlitRecord::TextureRegion { dest, .. } => dest.texture_ref,
        BlitRecord::TextureSlices { dest_ref, .. } => dest_ref,
        BlitRecord::FillBuffer { buffer_ref, .. } => buffer_ref,
        BlitRecord::GenerateMipmaps { texture_ref } => texture_ref,
    }
}

/// The transfer a record is, between known objects.
pub open spec fn transfer_between(record: BlitRecord, from: ResourceId, to: ResourceId) -> BlitOp {
    match record {
        BlitRecord::BufferToBuffer { source_offset, dest_offset, size, .. } =>
        BlitOp::BufferToBuffer { source: from, source_offset, dest: to, dest_offset, size },
        BlitRecord::BufferToTexture {
            source_offset,
            bytes_per_row,
            bytes_per_image,
            size,
            dest,
            options,
            ..
        } => BlitOp::BufferToTexture {
            source: from,
            source_offset,
            source_pitch: ImagePitch { bytes_per_row, bytes_per_image },
            size: size_of_record(size),
            dest: point_of(dest, to),
            options: BlitOptions(options),
        },
        BlitRecord::TextureToBuffer {
            source,
            size,
            dest_offset,
            bytes_per_row,
            bytes_per_image,
            options,
            ..
        } => BlitOp::TextureToBuffer {
            source: point_of(source, from),
            size: size_of_record(size),
            dest: to,
            dest_offset,
            dest_pitch: ImagePitch { bytes_per_row, bytes_per_image },
            options: BlitOptions(options),
        },
        BlitRecord::TextureRegion { source, dest, size, options } => BlitOp::TextureRegion {
            source: point_of(source, from),
            dest: point_of(dest, to),
            size: size_of_record(size),
            options: BlitOptions(options),
        },
        BlitRecord::TextureSlices {
            source_slice,
            source_level,
            dest_slice,
            dest_level,
            slice_count,
            level_count,
            ..
        } => BlitOp::TextureSlices {
            source: TextureSpan {
                texture: from,
                base_slice: source_slice,
                base_level: source_level,
                slice_count,
                level_count,
            },
            dest: TextureSpan {
                texture: to,
                base_slice: dest_slice,
                base_level: dest_level,
                slice_count,
                level_count,
            },
        },
        BlitRecord::FillBuffer { location, length, pattern, .. } => BlitOp::FillBuffer {
            dest: BufferSpan { buffer: to, offset: location, length },
            pattern: match pattern {
                crate::decode::FillPattern::Byte(b) => FillPattern::Byte(b),
                crate::decode::FillPattern::Pattern4(w) => FillPattern::Pattern4(w),
            },
        },
        BlitRecord::GenerateMipmaps { .. } => BlitOp::GenerateMipmaps { texture: to },
    }
}

/// What a transfer record resolves to: its source is asked for first.
pub open spec fn blit_of<R: RefResolver>(record: BlitRecord, resolver: &R) -> Result<
    BlitOp,
    ResolveRefusal,
> {
    match source_ref_of(record) {
        Some(source_ref) => match named_pair(resolver, source_ref, dest_ref_of(record)) {
            Ok((from, to)) => Ok(transfer_between(record, from, to)),
            Err(e) => Err(e),
        },
        None => match named(resolver, dest_ref_of(record)) {
            Ok(to) => Ok(transfer_between(record, to, to)),
            Err(e) => Err(e),
        },
    }
}

/// Resolve a transfer record.
pub fn blit<R: RefResolver>(record: &BlitRecord, resolver: &R) -> (r: Result<
    BlitOp,
    ResolveRefusal,
>)
    ensures
        r == blit_of(*record, resolver),
{
    match *record {
        BlitRecord::BufferToBuffer { source_ref, source_offset, dest_ref, dest_offset, size } =>
        match pair(resolver, source_ref, dest_ref) {
            Ok((source, dest)) => Ok(
                BlitOp::BufferToBuffer { source, source_offset, dest, dest_offset, size },
            ),
            Err(e) => Err(e),
        },
        BlitRecord::BufferToTexture {
            source_ref,
            source_offset,
            bytes_per_row,
            bytes_per_image,
            size: extent,
            dest,
            options,
        } => match pair(resolver, source_ref, dest.texture_ref) {
            Ok((source, texture)) => Ok(
                BlitOp::BufferToTexture {
                    source,
                    source_offset,
                    source_pitch: ImagePitch { bytes_per_row, bytes_per_image },
                    size: size(extent),
                    dest: endpoint(dest, texture),
                    options: BlitOptions(options),
                },
            ),
            Err(e) => Err(e),
        },
        BlitRecord::TextureToBuffer {
            source,
            size: extent,
            dest_ref,
            dest_offset,
            bytes_per_row,
            bytes_per_image,
            options,
        } => match pair(resolver, source.texture_ref, dest_ref) {
            Ok((texture, dest)) => Ok(
                BlitOp::TextureToBuffer {
                    source: endpoint(source, texture),
                    size: size(extent),
                    dest,
                    dest_offset,
                    dest_pitch: ImagePitch { bytes_per_row, bytes_per_image },
                    options: BlitOptions(options),
                },
            ),
            Err(e) => Err(e),
        },
        BlitRecord::TextureRegion { source, dest, size: extent, options } => match pair(
            resolver,
            source.texture_ref,
            dest.texture_ref,
        ) {
            Ok((from, to)) => Ok(
                BlitOp::TextureRegion {
                    source: endpoint(source, from),
                    dest: endpoint(dest, to),
                    size: size(extent),
                    options: BlitOptions(options),
                },
            ),
            Err(e) => Err(e),
        },
        BlitRecord::TextureSlices {
            source_ref,
            source_slice,
            source_level,
            dest_ref,
            dest_slice,
            dest_level,
            slice_count,
            level_count,
        } => match pair(resolver, source_ref, dest_ref) {
            Ok((from, to)) => Ok(
                BlitOp::TextureSlices {
                    source: TextureSpan {
                        texture: from,
                        base_slice: source_slice,
                        base_level: source_level,
                        slice_count,
                        level_count,
                    },
                    dest: TextureSpan {
                        texture: to,
                        base_slice: dest_slice,
                        base_level: dest_level,
                        slice_count,
                        level_count,
                    },
                },
            ),
            Err(e) => Err(e),
        },
        BlitRecord::FillBuffer { buffer_ref, location, length, pattern } => match one(
            resolver,
            buffer_ref,
        ) {
            Ok(buffer) => Ok(
                BlitOp::FillBuffer {
                    dest: BufferSpan { buffer, offset: location, length },
                    pattern: match pattern {
                        crate::decode::FillPattern::Byte(b) => FillPattern::Byte(b),
                        crate::decode::FillPattern::Pattern4(w) => FillPattern::Pattern4(w),
                    },
                },
            ),
            Err(e) => Err(e),
        },
        BlitRecord::GenerateMipmaps { texture_ref } => match one(resolver, texture_ref) {
            Ok(texture) => Ok(BlitOp::GenerateMipmaps { texture }),
            Err(e) => Err(e),
        },
    }
}

/// What a content-representation record resolves to.
pub open spec fn resource_state_of<R: RefResolver>(
    record: ResourceStateRecord,
    resolver: &R,
) -> Result<ResourceStateOp, ResolveRefusal> {
    match record.target {
        RecordTarget::WholeResource { object_ref } => match named(resolver, object_ref) {
            Ok(resource) => Ok(
                ResourceStateOp {
                    directive: record.directive,
                    target: ResourceStateTarget::Resource { resource, subresource: None },
                },
            ),
            Err(e) => Err(e),
        },
        RecordTarget::SliceLevel { texture_ref, slice, level } => match named(
            resolver,
            texture_ref,
        ) {
            Ok(resource) => Ok(
                ResourceStateOp {
                    directive: record.directive,
                    target: ResourceStateTarget::Resource {
                        resource,
                        subresource: Some(SliceLevel { slice, level }),
                    },
                },
            ),
            Err(e) => Err(e),
        },
        RecordTarget::Encoder => Ok(
            ResourceStateOp { directive: record.directive, target: ResourceStateTarget::Encoder },
        ),
    }
}

/// Resolve a content-representation record. A whole-resource record resolves to
/// no subresource, which is not level zero.
pub fn resource_state<R: RefResolver>(record: &ResourceStateRecord, resolver: &R) -> (r: Result<
    ResourceStateOp,
    ResolveRefusal,
>)
    ensures
        r == resource_state_of(*record, resolver),
{
    let target = match record.target {
        RecordTarget::WholeResource { object_ref } => match one(resolver, object_ref) {
            Ok(resource) => ResourceStateTarget::Resource { resource, subresource: None },
            Err(e) => {
                return Err(e);
            },
        },
        RecordTarget::SliceLevel { texture_ref, slice, level } => match one(
            resolver,
            texture_ref,
        ) {
            Ok(resource) => ResourceStateTarget::Resource {
                resource,
                subresource: Some(SliceLevel { slice, level }),
            },
            Err(e) => {
                return Err(e);
            },
        },
        RecordTarget::Encoder => ResourceStateTarget::Encoder,
    };
    Ok(ResourceStateOp { directive: record.directive, target })
}

/// What an indirect-command record resolves to.
pub open spec fn icb_of<R: RefResolver>(record: IcbRecord, resolver: &R) -> Result<
    IcbOp,
    ResolveRefusal,
> {
    match record {
        IcbRecord::ExecuteRange { icb_ref, commands } => match named(resolver, icb_ref) {
            Ok(icb) => Ok(
                IcbOp::ExecuteRange {
                    icb,
                    commands: CommandRange {
                        location: commands.location,
                        length: commands.length,
                    },
                },
            ),
            Err(e) => Err(e),
        },
        IcbRecord::ExecuteIndirect { icb_ref, arguments } => match named_pair(
            resolver,
            icb_ref,
            arguments.buffer_ref,
        ) {
            Ok((icb, buffer)) => Ok(
                IcbOp::ExecuteIndirect {
                    icb,
                    arguments: IndirectSource { buffer, offset: arguments.offset },
                },
            ),
            Err(e) => Err(e),
        },
        IcbRecord::Optimize { icb_ref, commands } => match named(resolver, icb_ref) {
            Ok(icb) => Ok(
                IcbOp::Optimize {
                    icb,
                    commands: CommandRange {
                        location: commands.location,
                        length: commands.length,
                    },
                },
            ),
            Err(e) => Err(e),
        },
    }
}

/// Resolve an indirect-command record.
pub fn icb<R: RefResolver>(record: &IcbRecord, resolver: &R) -> (r: Result<IcbOp, ResolveRefusal>)
    ensures
        r == icb_of(*record, resolver),
{
    match *record {
        IcbRecord::ExecuteRange { icb_ref, commands } => match one(resolver, icb_ref) {
            Ok(icb) => Ok(
                IcbOp::ExecuteRange {
                    icb,
                    commands: CommandRange {
                        location: commands.location,
                        length: commands.length,
                    },
                },
            ),
            Err(e) => Err(e),
        },
        IcbRecord::ExecuteIndirect { icb_ref, arguments } => match pair(
            resolver,
            icb_ref,
            arguments.buffer_ref,
        ) {
            Ok((icb, buffer)) => Ok(
                IcbOp::ExecuteIndirect {
                    icb,
                    arguments: IndirectSource { buffer, offset: arguments.offset },
                },
            ),
            Err(e) => Err(e),
        },
        IcbRecord::Optimize { icb_ref, commands } => match one(resolver, icb_ref) {
            Ok(icb) => Ok(
                IcbOp::Optimize {
                    icb,
                    commands: CommandRange {
                        location: commands.location,
                        length: commands.length,
                    },
                },
            ),
            Err(e) => Err(e),
        },
    }
}

/// What a fence record resolves to.
pub open spec fn fence_of<R: RefResolver>(record: FenceRecord, resolver: &R) -> Result<
    FenceOp,
    ResolveRefusal,
> {
    match named(resolver, record.fence_ref) {
        Ok(fence) => Ok(FenceOp { kind: record.kind, fence, stages: record.stages }),
        Err(e) => Err(e),
    }
}

/// Resolve a fence record.
pub fn fence<R: RefResolver>(record: &FenceRecord, resolver: &R) -> (r: Result<
    FenceOp,
    ResolveRefusal,
>)
    ensures
        r == fence_of(*record, resolver),
{
    match one(resolver, record.fence_ref) {
        Ok(fence) => Ok(FenceOp { kind: record.kind, fence, stages: record.stages }),
        Err(e) => Err(e),
    }
}

/// What an event record resolves to.
pub open spec fn event_of<R: RefResolver>(record: EventRecord, resolver: &R) -> Result<
    EventOp,
    ResolveRefusal,
> {
    match named(resolver, record.event_ref) {
        Ok(event) => Ok(EventOp { kind: record.kind, event, value: record.value }),
        Err(e) => Err(e),
    }
}

/// Resolve an event record.
pub fn event<R: RefResolver>(record: &EventRecord, resolver: &R) -> (r: Result<
    EventOp,
    ResolveRefusal,
>)
    ensures
        r == event_of(*record, resolver),
{
    match one(resolver, record.event_ref) {
        Ok(event) => Ok(EventOp { kind: record.kind, event, value: record.value }),
        Err(e) => Err(e),
    }
}

/// The refs a barrier record lists; none for a scope or a texture barrier.
pub open spec fn barrier_refs(record: BarrierRecord<'_>) -> Seq<u32> {
    match record {
        BarrierRecord::Resources { refs, .. } => refs@,
        _ => Seq::empty(),
    }
}

/// The barrier a record is, over a filed window.
pub open spec fn barrier_over(record: BarrierRecord<'_>, span: ResourceSpan) -> BarrierOp {
    match record {
        BarrierRecord::Resources { after_stages, before_stages, .. } => BarrierOp {
            target: BarrierTarget::Resources(span),
            after_stages,
            before_stages,
        },
        BarrierRecord::Scope { scope, after_stages, before_stages, .. } => BarrierOp {
            target: BarrierTarget::Scope(scope),
            after_stages,
            before_stages,
        },
        BarrierRecord::Texture => BarrierOp {
            target: BarrierTarget::Texture,
            after_stages: None,
            before_stages: None,
        },
    }
}

/// What resolving a barrier does to the arena and answers.
pub open spec fn barrier_resolved<R: RefResolver>(
    record: BarrierRecord<'_>,
    resolver: &R,
    before: ExecArenas,
    after: ExecArenas,
    r: Result<BarrierOp, ResolveRefusal>,
) -> bool {
    let refs = barrier_refs(record);
    let span = ResourceSpan {
        start: before.resources@.len() as u32,
        len: refs.len() as u32,
    };
    if record is Resources {
        match list_refusal(resolver, before.resources@.len(), refs) {
            Some(e) => r == Err::<BarrierOp, ResolveRefusal>(e) && after == before,
            None => r == Ok::<BarrierOp, ResolveRefusal>(barrier_over(record, span))
                && filed_after(before, after, named_by(resolver, refs)),
        }
    } else {
        r == Ok::<BarrierOp, ResolveRefusal>(barrier_over(record, span)) && after == before
    }
}

/// Resolve a barrier record, appending any list it names to the arena.
pub fn barrier<R: RefResolver>(
    record: &BarrierRecord<'_>,
    resolver: &R,
    arenas: &mut ExecArenas,
) -> (r: Result<BarrierOp, ResolveRefusal>)
    ensures
        barrier_resolved(*record, resolver, *old(arenas), *final(arenas), r),
{
    match *record {
        BarrierRecord::Resources { refs, after_stages, before_stages } => match append_refs(
            arenas,
            resolver,
            refs,
        ) {
            Ok(span) => Ok(
                BarrierOp {
                    target: BarrierTarget::Resources(span),
                    after_stages,
                    before_stages,
                },
            ),
            Err(e) => Err(e),
        },
        BarrierRecord::Scope { scope, after_stages, before_stages, .. } => Ok(
            BarrierOp { target: BarrierTarget::Scope(scope), after_stages, before_stages },
        ),
        BarrierRecord::Texture => Ok(
            BarrierOp {
                target: BarrierTarget::Texture,
                after_stages: None,
                before_stages: None,
            },
        ),
    }
}

/// The three ordering operations, which are three classes: they order different
/// things over different scopes.
#[derive(Clone, Copy, Debug, PartialEq, Eq, Structural)]
pub enum SyncResolved {
    Fence(FenceOp),
    Event(EventOp),
    Barrier(BarrierOp),
}

/// Resolve any ordering record.
pub fn sync<R: RefResolver>(
    record: &SyncRecord<'_>,
    resolver: &R,
    arenas: &mut ExecArenas,
) -> (r: Result<SyncResolved, ResolveRefusal>)
    ensures
        match *record {
            SyncRecord::Fence(f) => *final(arenas) == *old(arenas) && r == (match named(
                resolver,
                f.fence_ref,
            ) {
                Ok(fence) => Ok::<SyncResolved, ResolveRefusal>(
                    SyncResolved::Fence(FenceOp { kind: f.kind, fence, stages: f.stages }),
                ),
                Err(e) => Err(e),
            }),
            SyncRecord::Event(e) => *final(arenas) == *old(arenas) && r == (match named(
                resolver,
                e.event_ref,
            ) {
                Ok(event) => Ok::<SyncResolved, ResolveRefusal>(
                    SyncResolved::Event(EventOp { kind: e.kind, event, value: e.value }),
                ),
                Err(x) => Err(x),
            }),
            SyncRecord::Barrier(b) => match r {
                Ok(SyncResolved::Barrier(op)) => barrier_resolved(
                    b,
                    resolver,
                    *old(arenas),
                    *final(arenas),
                    Ok(op),
                ),
                Ok(_) => false,
                Err(e) => barrier_resolved(b, resolver, *old(arenas), *final(arenas), Err(e)),
            },
        },
{
    match record {
        SyncRecord::Fence(f) => match fence(f, resolver) {
            Ok(op) => Ok(SyncResolved::Fence(op)),
            Err(e) => Err(e),
        },
        SyncRecord::Event(e) => match event(e, resolver) {
            Ok(op) => Ok(SyncResolved::Event(op)),
            Err(x) => Err(x),
        },
        SyncRecord::Barrier(b) => match barrier(b, resolver, arenas) {
            Ok(op) => Ok(SyncResolved::Barrier(op)),
            Err(e) => Err(e),
        },
    }
}

/// Resolve a residency declaration into the window of objects it asserts.
pub fn residency<R: RefResolver>(
    record: &ResidencyRecord<'_>,
    resolver: &R,
    arenas: &mut ExecArenas,
) -> (r: Result<ResourceSpan, ResolveRefusal>)
    ensures
        match list_refusal(resolver, old(arenas).resources@.len(), record.refs@) {
            Some(e) => r == Err::<ResourceSpan, ResolveRefusal>(e) && *final(arenas) == *old(arenas),
            None => r == Ok::<ResourceSpan, ResolveRefusal>(
                ResourceSpan {
                    start: old(arenas).resources@.len() as u32,
                    len: record.refs@.len() as u32,
                },
            ) && filed_after(*old(arenas), *final(arenas), named_by(resolver, record.refs@)),
        },
{
    append_refs(arenas, resolver, record.refs)
}

/// One dead ref refuses a whole list, whatever else the list names.
pub proof fn one_dead_ref_refuses_the_list<R: RefResolver>(
    resolver: &R,
    filed: nat,
    refs: Seq<u32>,
    k: int,
)
    requires
        0 <= k < refs.len(),
        resolver.names(refs[k]) is None,
    ensures
        list_refusal(resolver, filed, refs) is Some,
{
    if first_unknown(resolver, refs) is None {
        lemma_all_known(resolver, refs, k);
    }
}

proof fn lemma_all_known<R: RefResolver>(resolver: &R, refs: Seq<u32>, k: int)
    requires
        0 <= k < refs.len(),
        first_unknown(resolver, refs) is None,
    ensures
        resolver.names(refs[k]) is Some,
    decreases refs.len(),
{
    if k < refs.len() - 1 {
        assert(refs.drop_last()[k] == refs[k]);
        lemma_all_known(resolver, refs.drop_last(), k);
    }
}

/// Lists filed one after the other stand one after the other: the window of the
/// second begins where the first's ends, and the first still holds its list.
pub proof fn windows_follow_one_another(
    before: ExecArenas,
    between: ExecArenas,
    after: ExecArenas,
    first: Seq<ResourceId>,
    second: Seq<ResourceId>,
)
    requires
        filed_after(before, between, first),
        filed_after(between, after, second),
    ensures
        between.resources@.len() == before.resources@.len() + first.len(),
        after.resources@.subrange(
            before.resources@.len() as int,
            between.resources@.len() as int,
        ) == first,
        after.resources@.subrange(
            between.resources@.len() as int,
            after.resources@.len() as int,
        ) == second,
{
    assert(after.resources@.subrange(
        before.resources@.len() as int,
        between.resources@.len() as int,
    ) =~= first);
    assert(after.resources@.subrange(
        between.resources@.len() as int,
        after.resources@.len() as int,
    ) =~= second);
}

/// A ref names what the resolver says it does, and one that names nothing is
/// refused by its own number; of two the first decides.
pub proof fn a_ref_resolves_to_what_it_names<R: RefResolver>(
    resolver: &R,
    first: u32,
    second: u32,
)
    ensures
        resolver.names(first) matches Some(id) ==> named(resolver, first) == Ok::<
            ResourceId,
            ResolveRefusal,
        >(id),
        resolver.names(first) is None ==> named(resolver, first) == Err::<
            ResourceId,
            ResolveRefusal,
        >(ResolveRefusal::UnknownRef { object_ref: first }),
        resolver.names(first) is None ==> named_pair(resolver, first, second) == Err::<
            (ResourceId, ResourceId),
            ResolveRefusal,
        >(ResolveRefusal::UnknownRef { object_ref: first }),
        resolver.names(first) is Some && resolver.names(second) is None ==> named_pair(
            resolver,
            first,
            second,
        ) == Err::<(ResourceId, ResourceId), ResolveRefusal>(
            ResolveRefusal::UnknownRef { object_ref: second },
        ),
        resolver.names(first) is Some && resolver.names(second) is Some ==> named_pair(
            resolver,
            first,
            second,
        ) == Ok::<(ResourceId, ResourceId), ResolveRefusal>(
            (resolver.names(first)->0, resolver.names(second)->0),
        ),
{
}

/// A copy between buffers reads the bytes of the source ref's object at the
/// source offset, and writes as many of the dest ref's object at the dest
/// offset.
pub proof fn a_buffer_copy_reads_its_source_and_writes_its_dest<R: RefResolver>(
    resolver: &R,
    source_ref: u32,
    source_offset: u64,
    dest_ref: u32,
    dest_offset: u64,
    size: u64,
    from: ResourceId,
    to: ResourceId,
)
    requires
        resolver.names(source_ref) == Some(from),
        resolver.names(dest_ref) == Some(to),
    ensures
        blit_of(
            BlitRecord::BufferToBuffer { source_ref, source_offset, dest_ref, dest_offset, size },
            resolver,
        ) matches Ok(op) && op.footprint() == seq![
            Participation {
                resource: from,
                extent: ParticipationExtent::Range(
                    ByteRange { offset: source_offset, length: size },
                ),
                mode: AccessMode::Read,
                api_stages: 0,
            },
            Participation {
                resource: to,
                extent: ParticipationExtent::Range(ByteRange { offset: dest_offset, length: size }),
                mode: AccessMode::Write,
                api_stages: 0,
            },
        ],
{
}

/// A copy from a buffer into a texture reads the source ref's buffer and writes
/// the level and slice of the dest ref's texture that the record names, at the
/// record's offset, pitch, origin and size.
pub proof fn an_upload_reads_its_buffer_and_writes_its_texture<R: RefResolver>(
    resolver: &R,
    record: BlitRecord,
    from: ResourceId,
    to: ResourceId,
)
    requires
        record matches BlitRecord::BufferToTexture { source_ref, dest, .. } && resolver.names(
            source_ref,
        ) == Some(from) && resolver.names(dest.texture_ref) == Some(to),
    ensures
        blit_of(record, resolver) matches Ok(op) && op.footprint() == seq![
            Participation {
                resource: from,
                extent: ParticipationExtent::Whole,
                mode: AccessMode::Read,
                api_stages: 0,
            },
            level_of(to, record->BufferToTexture_dest, AccessMode::Write),
        ] && (op matches BlitOp::BufferToTexture {
            source,
            source_offset,
            source_pitch,
            size,
            dest,
            options,
        } && source == from && source_offset == record->BufferToTexture_source_offset
            && source_pitch.bytes_per_row == record->BufferToTexture_bytes_per_row
            && source_pitch.bytes_per_image == record->BufferToTexture_bytes_per_image
            && same_size(size, record->BufferToTexture_size) && options.0
            == record->BufferToTexture_options && is_endpoint(
            dest,
            record->BufferToTexture_dest,
            to,
        )),
{
}

/// A copy from a texture into a buffer reads the level and slice of the source
/// ref's texture that the record names and writes the dest ref's buffer, at the
/// record's origin, size, offset and pitch.
pub proof fn a_readback_reads_its_texture_and_writes_its_buffer<R: RefResolver>(
    resolver: &R,
    record: BlitRecord,
    from: ResourceId,
    to: ResourceId,
)
    requires
        record matches BlitRecord::TextureToBuffer { source, dest_ref, .. } && resolver.names(
            source.texture_ref,
        ) == Some(from) && resolver.names(dest_ref) == Some(to),
    ensures
        blit_of(record, resolver) matches Ok(op) && op.footprint() == seq![
            level_of(from, record->TextureToBuffer_source, AccessMode::Read),
            Participation {
                resource: to,
                extent: ParticipationExtent::Whole,
                mode: AccessMode::Write,
                api_stages: 0,
            },
        ] && (op matches BlitOp::TextureToBuffer {
            source,
            size,
            dest,
            dest_offset,
            dest_pitch,
            options,
        } && dest == to && dest_offset == record->TextureToBuffer_dest_offset
            && dest_pitch.bytes_per_row == record->TextureToBuffer_bytes_per_row
            && dest_pitch.bytes_per_image == record->TextureToBuffer_bytes_per_image
            && same_size(size, record->TextureToBuffer_size) && options.0
            == record->TextureToBuffer_options && is_endpoint(
            source,
            record->TextureToBuffer_source,
            from,
        )),
{
}

/// A copy between textures reads the level and slice of the source ref's texture
/// and writes those of the dest ref's, each at the record's own coordinates for
/// that end.
pub proof fn a_texture_copy_reads_its_source_and_writes_its_dest<R: RefResolver>(
    resolver: &R,
    source: TextureEndpoint,
    dest: TextureEndpoint,
    size: Size,
    options: u32,
    from: ResourceId,
    to: ResourceId,
)
    requires
        resolver.names(source.texture_ref) == Some(from),
        resolver.names(dest.texture_ref) == Some(to),
    ensures
        blit_of(BlitRecord::TextureRegion { source, dest, size, options }, resolver) matches Ok(op)
            && op.footprint() == seq![
            level_of(from, source, AccessMode::Read),
            level_of(to, dest, AccessMode::Write),
        ] && (op matches BlitOp::TextureRegion { source: s, dest: d, size: z, options: o }
            && is_endpoint(s, source, from) && is_endpoint(d, dest, to) && same_size(z, size)
            && o.0 == options),
{
}

/// A copy of runs of slices and levels reads the run of the source ref's texture
/// and writes the run of as many of the dest ref's, each from its own start.
pub proof fn a_slice_copy_reads_its_source_and_writes_its_dest<R: RefResolver>(
    resolver: &R,
    source_ref: u32,
    source_slice: u32,
    source_level: u32,
    dest_ref: u32,
    dest_slice: u32,
    dest_level: u32,
    slice_count: u32,
    level_count: u32,
    from: ResourceId,
    to: ResourceId,
)
    requires
        resolver.names(source_ref) == Some(from),
        resolver.names(dest_ref) == Some(to),
    ensures
        blit_of(
            BlitRecord::TextureSlices {
                source_ref,
                source_slice,
                source_level,
                dest_ref,
                dest_slice,
                dest_level,
                slice_count,
                level_count,
            },
            resolver,
        ) matches Ok(op) && op.footprint() == seq![
            Participation {
                resource: from,
                extent: ParticipationExtent::Subresource(
                    SubresourceRange {
                        base_level: source_level,
                        level_count,
                        base_slice: source_slice,
                        slice_count,
                        plane: 0,
                    },
                ),
                mode: AccessMode::Read,
                api_stages: 0,
            },
            Participation {
                resource: to,
                extent: ParticipationExtent::Subresource(
                    SubresourceRange {
                        base_level: dest_level,
                        level_count,
                        base_slice: dest_slice,
                        slice_count,
                        plane: 0,
                    },
                ),
                mode: AccessMode::Write,
                api_stages: 0,
            },
        ],
{
}

/// A fill writes exactly its window of its buffer with its pattern, and a mipmap
/// generation rewrites its texture; neither reads another object.
pub proof fn a_fill_writes_its_window_and_mipmaps_rewrite_their_texture<R: RefResolver>(
    resolver: &R,
    object_ref: u32,
    location: u64,
    length: u64,
    pattern: crate::decode::FillPattern,
    to: ResourceId,
)
    requires
        resolver.names(object_ref) == Some(to),
    ensures
        blit_of(
            BlitRecord::FillBuffer { buffer_ref: object_ref, location, length, pattern },
            resolver,
        ) matches Ok(op) && op.footprint() == seq![
            Participation {
                resource: to,
                extent: ParticipationExtent::Range(ByteRange { offset: location, length }),
                mode: AccessMode::Write,
                api_stages: 0,
            },
        ] && (op matches BlitOp::FillBuffer { pattern: p, .. } && (pattern matches crate::decode::FillPattern::Byte(
        b) ==> p == FillPattern::Byte(b)) && (pattern
            matches crate::decode::FillPattern::Pattern4(w) ==> p == FillPattern::Pattern4(w))),
        blit_of(BlitRecord::GenerateMipmaps { texture_ref: object_ref }, resolver) matches Ok(op)
            && op.footprint() == seq![
            Participation {
                resource: to,
                extent: ParticipationExtent::Whole,
                mode: AccessMode::ReadWrite,
                api_stages: 0,
            },
        ],
{
}

/// A transfer that names something that is not there is refused by that ref: the
/// source's before the destination's.
pub proof fn a_transfer_between_missing_objects_is_refused<R: RefResolver>(
    resolver: &R,
    source: TextureEndpoint,
    dest: TextureEndpoint,
    size: Size,
    options: u32,
    other_ref: u32,
    offset: u64,
    pitch: u64,
)
    requires
        resolver.names(other_ref) is Some,
    ensures
        resolver.names(source.texture_ref) is None ==> blit_of(
            BlitRecord::TextureRegion { source, dest, size, options },
            resolver,
        ) == Err::<BlitOp, ResolveRefusal>(
            ResolveRefusal::UnknownRef { object_ref: source.texture_ref },
        ),
        resolver.names(source.texture_ref) is Some && resolver.names(dest.texture_ref) is None
            ==> blit_of(
            BlitRecord::TextureRegion { source, dest, size, options },
            resolver,
        ) == Err::<BlitOp, ResolveRefusal>(
            ResolveRefusal::UnknownRef { object_ref: dest.texture_ref },
        ),
        resolver.names(dest.texture_ref) is None ==> blit_of(
            BlitRecord::BufferToTexture {
                source_ref: other_ref,
                source_offset: offset,
                bytes_per_row: pitch,
                bytes_per_image: pitch,
                size,
                dest,
                options,
            },
            resolver,
        ) == Err::<BlitOp, ResolveRefusal>(
            ResolveRefusal::UnknownRef { object_ref: dest.texture_ref },
        ),
{
}

/// A touch of the one level and slice an endpoint names.
pub open spec fn level_of(
    texture: ResourceId,
    e: TextureEndpoint,
    mode: AccessMode,
) -> Participation {
    Participation {
        resource: texture,
        extent: ParticipationExtent::Subresource(
            SubresourceRange {
                base_level: e.level,
                level_count: 1,
                base_slice: e.slice,
                slice_count: 1,
                plane: 0,
            },
        ),
        mode,
        api_stages: 0,
    }
}

/// The point is the endpoint, of a known texture.
pub open spec fn is_endpoint(p: TexturePoint, e: TextureEndpoint, texture: ResourceId) -> bool {
    p.texture == texture && p.slice == e.slice && p.level == e.level && p.origin.x == e.origin.x
        && p.origin.y == e.origin.y && p.origin.z == e.origin.z
}

/// The two sizes are one.
pub open spec fn same_size(a: Size3, b: Size) -> bool {
    a.width == b.width && a.height == b.height && a.depth == b.depth
}

/// Running recorded commands reads their buffer, running an indirect range reads
/// its arguments too, and optimizing rewrites the commands; each names the
/// objects of its own refs.
pub proof fn indirect_commands_touch_what_their_refs_name<R: RefResolver>(
    resolver: &R,
    icb_ref: u32,
    commands: crate::decode::RecordCommands,
    arguments: crate::decode::RecordArguments,
    icb: ResourceId,
    buffer: ResourceId,
)
    requires
        resolver.names(icb_ref) == Some(icb),
        resolver.names(arguments.buffer_ref) == Some(buffer),
    ensures
        icb_of(IcbRecord::ExecuteRange { icb_ref, commands }, resolver) matches Ok(op)
            && op.footprint() == seq![crate::encoder::whole_of(icb, AccessMode::Read)] && (op
            matches IcbOp::ExecuteRange { commands: c, .. } && c.location == commands.location
            && c.length == commands.length),
        icb_of(IcbRecord::ExecuteIndirect { icb_ref, arguments }, resolver) matches Ok(op)
            && op.footprint() == seq![
            crate::encoder::whole_of(icb, AccessMode::Read),
            crate::encoder::whole_of(buffer, AccessMode::Read),
        ] && (op matches IcbOp::ExecuteIndirect { arguments: a, .. } && a.offset
            == arguments.offset),
        icb_of(IcbRecord::Optimize { icb_ref, commands }, resolver) matches Ok(op)
            && op.footprint() == seq![crate::encoder::whole_of(icb, AccessMode::ReadWrite)] && (op
            matches IcbOp::Optimize { commands: c, .. } && c.location == commands.location
            && c.length == commands.length),
{
}

/// A content record keeps its directive and names the object of its ref, the
/// whole of it or the one level and slice it says; a synchronise reads that.
pub proof fn a_content_record_keeps_what_it_names<R: RefResolver>(
    resolver: &R,
    directive: crate::resource_state::ContentDirective,
    object_ref: u32,
    slice: u16,
    level: u16,
    resource: ResourceId,
)
    requires
        resolver.names(object_ref) == Some(resource),
    ensures
        resource_state_of(
            ResourceStateRecord { directive, target: RecordTarget::WholeResource { object_ref } },
            resolver,
        ) matches Ok(op) && op.directive == directive && (directive is Synchronize
            ==> op.footprint() == seq![crate::encoder::whole_of(resource, AccessMode::Read)]),
        resource_state_of(
            ResourceStateRecord {
                directive,
                target: RecordTarget::SliceLevel { texture_ref: object_ref, slice, level },
            },
            resolver,
        ) matches Ok(op) && op.directive == directive && (directive is Synchronize
            ==> op.footprint() == seq![
            Participation {
                resource,
                extent: ParticipationExtent::Subresource(
                    SubresourceRange {
                        base_level: level as u32,
                        level_count: 1,
                        base_slice: slice as u32,
                        slice_count: 1,
                        plane: 0,
                    },
                ),
                mode: AccessMode::Read,
                api_stages: 0,
            },
        ]) && (!(directive is Synchronize) ==> op.footprint().len() == 0),
{
}

/// A fence record keeps its kind and stages, an event record its kind and value,
/// and each names the object of its ref.
pub proof fn an_ordering_record_keeps_what_it_says<R: RefResolver>(
    resolver: &R,
    fence: FenceRecord,
    event: EventRecord,
    fence_id: ResourceId,
    event_id: ResourceId,
)
    requires
        resolver.names(fence.fence_ref) == Some(fence_id),
        resolver.names(event.event_ref) == Some(event_id),
    ensures
        fence_of(fence, resolver) matches Ok(op) && op.kind == fence.kind && op.fence == fence_id
            && op.stages == fence.stages,
        event_of(event, resolver) matches Ok(op) && op.kind == event.kind && op.event == event_id
            && op.value == event.value,
{
}

/// A barrier keeps the stages it is between, and a resource barrier files the
/// object of each of its refs, in order, behind what was filed.
pub proof fn a_barrier_files_what_it_lists<R: RefResolver>(
    resolver: &R,
    refs: &[u32],
    after_stages: Option<crate::sync::RenderStages>,
    before_stages: Option<crate::sync::RenderStages>,
    before: ExecArenas,
    after: ExecArenas,
    r: Result<BarrierOp, ResolveRefusal>,
    k: int,
)
    requires
        before.resources@.len() + refs@.len() <= u32::MAX,
        forall|i: int| 0 <= i < refs@.len() ==> resolver.names(#[trigger] refs@[i]) is Some,
        barrier_resolved(
            BarrierRecord::Resources { refs, after_stages, before_stages },
            resolver,
            before,
            after,
            r,
        ),
        0 <= k < refs@.len(),
    ensures
        r matches Ok(op) && op.after_stages == after_stages && op.before_stages == before_stages
            && (op.target matches BarrierTarget::Resources(span) && span.start
            == before.resources@.len() && span.len == refs@.len()),
        after.resources@.len() == before.resources@.len() + refs@.len(),
        after.resources@.take(before.resources@.len() as int) == before.resources@,
        resolver.names(refs@[k]) == Some(after.resources@[before.resources@.len() + k]),
{
    lemma_none_unknown(resolver, refs@);
    assert(after.resources@.take(before.resources@.len() as int) =~= before.resources@);
}

pub(crate) proof fn lemma_none_unknown<R: RefResolver>(resolver: &R, refs: Seq<u32>)
    requires
        forall|i: int| 0 <= i < refs.len() ==> resolver.names(#[trigger] refs[i]) is Some,
    ensures
        first_unknown(resolver, refs) is None,
    decreases refs.len(),
{
    if refs.len() > 0 {
        let init = refs.drop_last();
        assert(forall|i: int| 0 <= i < init.len() ==> (#[trigger] init[i]) == refs[i]);
        lemma_none_unknown(resolver, init);
        assert(refs[refs.len() - 1] == refs.last());
    }
}

} // verus!
