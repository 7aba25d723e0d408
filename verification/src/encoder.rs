//! The binding tables, and how a draw or a dispatch turns them into a
//! footprint.
//!
//! A bind record writes a slot and touches no memory; a draw or a dispatch
//! reads the slots back out. Tables grow to whatever slot the guest names. What
//! a bound slot contributes is the pipeline's answer: with a
//! [`BindingUsage`] it is what the shader does there, and without one every
//! bound slot might be written.

use vstd::prelude::*;
use crate::access::{AccessMode, Participation, ParticipationExtent};
use crate::bind::{
    BufferBinding, ObjectBinding, BUFFER_TABLE_HINT, SAMPLER_TABLE_HINT, TEXTURE_TABLE_HINT,
};
use crate::identity::ResourceId;
use crate::pipeline::BindingUsage;
use crate::render::ShaderStage;

verus! {

/// One resource class's slots for one stage.
///
/// Indexed by slot, sparse in content and dense in storage.
#[derive(Debug, PartialEq, Eq)]
pub struct SlotTable<T> {
    slots: Vec<Option<T>>,
}

/// What a table holds at a slot; nothing, past its end.
pub open spec fn slot_at<T>(slots: Seq<Option<T>>, slot: int) -> Option<T> {
    if 0 <= slot < slots.len() {
        slots[slot]
    } else {
        None
    }
}

/// The bound slots with their indices, ascending.
pub open spec fn bound_slots<T>(slots: Seq<Option<T>>) -> Seq<(u32, T)>
    decreases slots.len(),
{
    if slots.len() == 0 {
        Seq::empty()
    } else {
        let before = bound_slots(slots.drop_last());
        match slots.last() {
            Some(v) => before.push(((slots.len() - 1) as u32, v)),
            None => before,
        }
    }
}

impl<T> View for SlotTable<T> {
    type V = Seq<Option<T>>;

    closed spec fn view(&self) -> Seq<Option<T>> {
        self.slots@
    }
}

impl<T: Copy> Default for SlotTable<T> {
    fn default() -> (t: SlotTable<T>)
        ensures
            t@ == Seq::<Option<T>>::empty(),
    {
        SlotTable { slots: Vec::new() }
    }
}

impl<T: Copy> SlotTable<T> {
    /// No slot past the last index a 32-bit slot number can name.
    pub open spec fn wf(&self) -> bool {
        self@.len() <= u32::MAX + 1
    }

    /// An empty table with room for the usual number of slots. A hint, and not
    /// a bound.
    #[must_use]
    pub fn with_hint(hint: u32) -> (t: Self)
        ensures
            t.wf(),
            t@ == Seq::<Option<T>>::empty(),
    {
        SlotTable { slots: Vec::with_capacity(hint as usize) }
    }

    /// Bind `value` at `slot`, growing the table if the guest reached past it.
    /// Nothing between the old end and the new slot was bound.
    pub fn set(&mut self, slot: u32, value: Option<T>)
        requires
            old(self).wf(),
            slot < usize::MAX,
        ensures
            final(self).wf(),
            final(self)@.len() == (if slot < old(self)@.len() {
                old(self)@.len() as int
            } else {
                slot + 1
            }),
            slot_at(final(self)@, slot as int) == value,
            forall|s: int| #[trigger]
                slot_at(final(self)@, s) == (if s == slot {
                    value
                } else {
                    slot_at(old(self)@, s)
                }),
    {
        let index = slot as usize;
        let ghost before = self.slots@;
        while self.slots.len() <= index
            invariant
                before == old(self)@,
                index == slot,
                slot < usize::MAX,
                before.len() <= self.slots@.len(),
                self.slots@.len() <= index + 1 || self.slots@.len() == before.len(),
                forall|s: int| 0 <= s < before.len() ==> self.slots@[s] == before[s],
                forall|s: int|
                    before.len() <= s < self.slots@.len() ==> (#[trigger] self.slots@[s]) is None,
            decreases index + 1 - self.slots@.len(),
        {
            self.slots.push(None);
        }
        self.slots.set(index, value);
    }

    #[must_use]
    pub fn get(&self, slot: u32) -> (value: Option<T>)
        ensures
            value == slot_at(self@, slot as int),
    {
        if (slot as usize) < self.slots.len() {
            self.slots[slot as usize]
        } else {
            None
        }
    }

    /// Every bound slot, with its index, ascending.
    #[must_use]
    pub fn bound(&self) -> (bound: Vec<(u32, T)>)
        requires
            self.wf(),
        ensures
            bound@ == bound_slots(self@),
    {
        let mut bound: Vec<(u32, T)> = Vec::new();
        let mut i: usize = 0;
        while i < self.slots.len()
            invariant
                self.wf(),
                i <= self.slots@.len(),
                bound@ == bound_slots(self.slots@.take(i as int)),
            decreases self.slots.len() - i,
        {
            proof {
                assert(self.slots@.take(i + 1).drop_last() =~= self.slots@.take(i as int));
                assert(self.slots@.take(i + 1).last() == self.slots@[i as int]);
            }
            match self.slots[i] {
                Some(v) => {
                    bound.push((i as u32, v));
                },
                None => {},
            }
            i = i + 1;
        }
        assert(self.slots@.take(i as int) =~= self.slots@);
        bound
    }

    /// How far the guest has reached, which is not how many are bound.
    #[must_use]
    pub fn extent(&self) -> (n: usize)
        ensures
            n == self@.len(),
    {
        self.slots.len()
    }

    pub fn clear(&mut self)
        ensures
            final(self).wf(),
            final(self)@ == Seq::<Option<T>>::empty(),
    {
        self.slots.clear();
    }
}

/// The mode a bound slot contributes, or `None` when the pipeline does not
/// reference it. Without a reflection every slot might be written.
pub open spec fn slot_mode(
    reflected: bool,
    table: Seq<Option<AccessMode>>,
    slot: u32,
) -> Option<AccessMode> {
    if reflected {
        crate::pipeline::slot_usage(table, slot)
    } else {
        Some(AccessMode::Unknown)
    }
}

/// The whole of a resource, in a mode.
pub open spec fn whole_of(resource: ResourceId, mode: AccessMode) -> Participation {
    Participation { resource, extent: ParticipationExtent::Whole, mode, api_stages: 0 }
}

/// What bound buffers contribute.
pub open spec fn buffer_footprint(
    bound: Seq<(u32, BufferBinding)>,
    reflected: bool,
    table: Seq<Option<AccessMode>>,
) -> Seq<Participation>
    decreases bound.len(),
{
    if bound.len() == 0 {
        Seq::empty()
    } else {
        let before = buffer_footprint(bound.drop_last(), reflected, table);
        match (bound.last().1.buffer, slot_mode(reflected, table, bound.last().0)) {
            (Some(buffer), Some(mode)) => before.push(whole_of(buffer, mode)),
            _ => before,
        }
    }
}

/// What bound textures contribute.
pub open spec fn texture_footprint(
    bound: Seq<(u32, ObjectBinding)>,
    reflected: bool,
    table: Seq<Option<AccessMode>>,
) -> Seq<Participation>
    decreases bound.len(),
{
    if bound.len() == 0 {
        Seq::empty()
    } else {
        let before = texture_footprint(bound.drop_last(), reflected, table);
        match (bound.last().1.object, slot_mode(reflected, table, bound.last().0)) {
            (Some(texture), Some(mode)) => before.push(whole_of(texture, mode)),
            _ => before,
        }
    }
}

/// What the compiled shader says of its buffer slots.
pub open spec fn buffers_used(usage: Option<&BindingUsage>) -> Seq<Option<AccessMode>> {
    match usage {
        Some(u) => u.buffer_table(),
        None => Seq::empty(),
    }
}

/// What the compiled shader says of its texture slots.
pub open spec fn textures_used(usage: Option<&BindingUsage>) -> Seq<Option<AccessMode>> {
    match usage {
        Some(u) => u.texture_table(),
        None => Seq::empty(),
    }
}

/// One stage's three tables. Samplers bind no memory and never appear in a
/// footprint.
#[derive(Debug, PartialEq, Eq)]
pub struct StageTables {
    pub buffers: SlotTable<BufferBinding>,
    pub textures: SlotTable<ObjectBinding>,
    pub samplers: SlotTable<ObjectBinding>,
}

impl Default for StageTables {
    fn default() -> (t: StageTables)
        ensures
            t.wf(),
            t.buffers@ == Seq::<Option<BufferBinding>>::empty(),
            t.textures@ == Seq::<Option<ObjectBinding>>::empty(),
            t.samplers@ == Seq::<Option<ObjectBinding>>::empty(),
    {
        StageTables {
            buffers: SlotTable::with_hint(BUFFER_TABLE_HINT),
            textures: SlotTable::with_hint(TEXTURE_TABLE_HINT),
            samplers: SlotTable::with_hint(SAMPLER_TABLE_HINT),
        }
    }
}

impl StageTables {
    pub open spec fn wf(&self) -> bool {
        self.buffers.wf() && self.textures.wf() && self.samplers.wf()
    }

    /// What this stage's bound slots contribute: the buffers, then the
    /// textures, each by ascending slot and each over the whole resource.
    pub open spec fn footprint(&self, usage: Option<&BindingUsage>) -> Seq<Participation> {
        buffer_footprint(bound_slots(self.buffers@), usage is Some, buffers_used(usage))
            + texture_footprint(bound_slots(self.textures@), usage is Some, textures_used(usage))
    }

    /// Append what this stage's bound slots contribute.
    pub fn footprint_into(&self, usage: Option<&BindingUsage>, out: &mut Vec<Participation>)
        requires
            self.wf(),
        ensures
            final(out)@ == old(out)@ + self.footprint(usage),
    {
        let ghost before = out@;
        let ghost reflected = usage is Some;
        let ghost buffer_table = buffers_used(usage);
        let ghost texture_table = textures_used(usage);
        let buffers = self.buffers.bound();
        let mut i: usize = 0;
        while i < buffers.len()
            invariant
                i <= buffers@.len(),
                reflected == (usage is Some),
                buffer_table == buffers_used(usage),
                out@ == before + buffer_footprint(
                    buffers@.take(i as int),
                    reflected,
                    buffer_table,
                ),
            decreases buffers.len() - i,
        {
            let (slot, binding) = buffers[i];
            proof {
                assert(buffers@.take(i + 1).drop_last() =~= buffers@.take(i as int));
                assert(buffers@.take(i + 1).last() == buffers@[i as int]);
            }
            let mode = match usage {
                Some(u) => u.buffer(slot),
                None => Some(AccessMode::Unknown),
            };
            match (binding.buffer, mode) {
                (Some(resource), Some(mode)) => {
                    // The bind names an offset and no length, so whole is the
                    // honest extent.
                    out.push(
                        Participation {
                            resource,
                            extent: ParticipationExtent::Whole,
                            mode,
                            api_stages: 0,
                        },
                    );
                },
                _ => {},
            }
            assert(out@ =~= before + buffer_footprint(
                buffers@.take(i + 1),
                reflected,
                buffer_table,
            ));
            i = i + 1;
        }
        assert(buffers@.take(i as int) =~= buffers@);
        let ghost middle = out@;
        let textures = self.textures.bound();
        let mut j: usize = 0;
        while j < textures.len()
            invariant
                j <= textures@.len(),
                reflected == (usage is Some),
                texture_table == textures_used(usage),
                out@ == middle + texture_footprint(
                    textures@.take(j as int),
                    reflected,
                    texture_table,
                ),
            decreases textures.len() - j,
        {
            let (slot, binding) = textures[j];
            proof {
                assert(textures@.take(j + 1).drop_last() =~= textures@.take(j as int));
                assert(textures@.take(j + 1).last() == textures@[j as int]);
            }
            let mode = match usage {
                Some(u) => u.texture(slot),
                None => Some(AccessMode::Unknown),
            };
            match (binding.object, mode) {
                (Some(resource), Some(mode)) => {
                    out.push(
                        Participation {
                            resource,
                            extent: ParticipationExtent::Whole,
                            mode,
                            api_stages: 0,
                        },
                    );
                },
                _ => {},
            }
            assert(out@ =~= middle + texture_footprint(
                textures@.take(j + 1),
                reflected,
                texture_table,
            ));
            j = j + 1;
        }
        assert(textures@.take(j as int) =~= textures@);
        assert(out@ =~= before + self.footprint(usage));
    }
}

/// The compute encoder's state.
#[derive(Debug, PartialEq, Eq)]
pub struct ComputeEncoderState {
    pub tables: StageTables,
    pub pipeline: Option<ResourceId>,
}

impl Default for ComputeEncoderState {
    fn default() -> (s: ComputeEncoderState)
        ensures
            s.tables.wf(),
            s.tables.buffers@ == Seq::<Option<BufferBinding>>::empty(),
            s.tables.textures@ == Seq::<Option<ObjectBinding>>::empty(),
            s.tables.samplers@ == Seq::<Option<ObjectBinding>>::empty(),
            s.pipeline is None,
    {
        ComputeEncoderState { tables: StageTables::default(), pipeline: None }
    }
}

impl ComputeEncoderState {
    /// What a dispatch reads through the bound slots.
    pub fn footprint_into(&self, usage: Option<&BindingUsage>, out: &mut Vec<Participation>)
        requires
            self.tables.wf(),
        ensures
            final(out)@ == old(out)@ + self.tables.footprint(usage),
    {
        self.tables.footprint_into(usage, out);
    }
}

/// The occlusion-query state a draw inherits.
#[derive(Clone, Copy, Debug, PartialEq, Eq, PartialOrd, Ord, Hash, Structural)]
pub struct VisibilityState {
    pub mode: u64,
    pub offset: u64,
}

/// The render encoder's state. The two stages are separate tables: slot 3 of
/// the vertex stage and slot 3 of the fragment stage are different slots.
#[derive(Debug, PartialEq, Eq)]
pub struct RenderEncoderState {
    pub vertex: StageTables,
    pub fragment: StageTables,
    pub pipeline: Option<ResourceId>,
    pub depth_stencil: Option<ResourceId>,
    /// The occlusion-query mode and its offset into the pass's visibility
    /// buffer.
    pub visibility: Option<VisibilityState>,
}

impl Default for RenderEncoderState {
    fn default() -> (s: RenderEncoderState)
        ensures
            s.wf(),
            s.vertex.buffers@ == Seq::<Option<BufferBinding>>::empty(),
            s.vertex.textures@ == Seq::<Option<ObjectBinding>>::empty(),
            s.vertex.samplers@ == Seq::<Option<ObjectBinding>>::empty(),
            s.fragment.buffers@ == Seq::<Option<BufferBinding>>::empty(),
            s.fragment.textures@ == Seq::<Option<ObjectBinding>>::empty(),
            s.fragment.samplers@ == Seq::<Option<ObjectBinding>>::empty(),
            s.pipeline is None,
            s.depth_stencil is None,
            s.visibility is None,
    {
        RenderEncoderState {
            vertex: StageTables::default(),
            fragment: StageTables::default(),
            pipeline: None,
            depth_stencil: None,
            visibility: None,
        }
    }
}

impl RenderEncoderState {
    pub open spec fn wf(&self) -> bool {
        self.vertex.wf() && self.fragment.wf()
    }

    #[must_use]
    pub fn stage(&self, stage: ShaderStage) -> (tables: &StageTables)
        ensures
            *tables == (match stage {
                ShaderStage::Vertex => self.vertex,
                ShaderStage::Fragment => self.fragment,
            }),
    {
        match stage {
            ShaderStage::Vertex => &self.vertex,
            ShaderStage::Fragment => &self.fragment,
        }
    }

    pub fn stage_mut(&mut self, stage: ShaderStage) -> (tables: &mut StageTables)
        ensures
            *tables == (match stage {
                ShaderStage::Vertex => old(self).vertex,
                ShaderStage::Fragment => old(self).fragment,
            }),
            *final(self) == (match stage {
                ShaderStage::Vertex => RenderEncoderState {
                    vertex: *final(tables),
                    ..*old(self)
                },
                ShaderStage::Fragment => RenderEncoderState {
                    fragment: *final(tables),
                    ..*old(self)
                },
            }),
    {
        match stage {
            ShaderStage::Vertex => &mut self.vertex,
            ShaderStage::Fragment => &mut self.fragment,
        }
    }

    /// What a draw reads through the bound slots of both stages: the vertex
    /// stage's, then the fragment stage's. A buffer the one reads and the other
    /// writes is two participations.
    pub fn footprint_into(
        &self,
        vertex_usage: Option<&BindingUsage>,
        fragment_usage: Option<&BindingUsage>,
        out: &mut Vec<Participation>,
    )
        requires
            self.wf(),
        ensures
            final(out)@ == old(out)@ + self.vertex.footprint(vertex_usage)
                + self.fragment.footprint(fragment_usage),
    {
        self.vertex.footprint_into(vertex_usage, out);
        self.fragment.footprint_into(fragment_usage, out);
    }
}

/// Without a reflection every bound slot might be written, so no edge is
/// missed: each contribution conflicts with a reader.
pub proof fn an_unreflected_footprint_writes(tables: StageTables, k: int)
    requires
        0 <= k < tables.footprint(None).len(),
    ensures
        tables.footprint(None)[k].mode == AccessMode::Unknown,
        tables.footprint(None)[k].mode.is_write(),
        tables.footprint(None)[k].extent is Whole,
{
    let buffers = buffer_footprint(bound_slots(tables.buffers@), false, Seq::empty());
    let textures = texture_footprint(bound_slots(tables.textures@), false, Seq::empty());
    if k < buffers.len() {
        lemma_buffers_unknown(bound_slots(tables.buffers@), k);
    } else {
        lemma_textures_unknown(bound_slots(tables.textures@), k - buffers.len());
    }
}

proof fn lemma_buffers_unknown(bound: Seq<(u32, BufferBinding)>, k: int)
    requires
        0 <= k < buffer_footprint(bound, false, Seq::empty()).len(),
    ensures
        buffer_footprint(bound, false, Seq::empty())[k].mode == AccessMode::Unknown,
        buffer_footprint(bound, false, Seq::empty())[k].extent is Whole,
    decreases bound.len(),
{
    let before = buffer_footprint(bound.drop_last(), false, Seq::empty());
    if k < before.len() {
        lemma_buffers_unknown(bound.drop_last(), k);
    }
}

proof fn lemma_textures_unknown(bound: Seq<(u32, ObjectBinding)>, k: int)
    requires
        0 <= k < texture_footprint(bound, false, Seq::empty()).len(),
    ensures
        texture_footprint(bound, false, Seq::empty())[k].mode == AccessMode::Unknown,
        texture_footprint(bound, false, Seq::empty())[k].extent is Whole,
    decreases bound.len(),
{
    let before = texture_footprint(bound.drop_last(), false, Seq::empty());
    if k < before.len() {
        lemma_textures_unknown(bound.drop_last(), k);
    }
}

/// A slot past the reflection's own length is not referenced by the pipeline.
pub proof fn a_slot_past_the_reflection_is_unreferenced(
    table: Seq<Option<AccessMode>>,
    slot: u32,
)
    requires
        slot >= table.len(),
    ensures
        slot_mode(true, table, slot) is None,
{
}

/// The list of bound slots holds exactly what is bound.
pub proof fn bound_lists_what_is_bound<T>(slots: Seq<Option<T>>, slot: u32)
    requires
        slots.len() <= u32::MAX + 1,
    ensures
        slot_at(slots, slot as int) is Some <==> exists|k: int|
            0 <= k < bound_slots(slots).len() && (#[trigger] bound_slots(slots)[k]).0 == slot
                && Some(bound_slots(slots)[k].1) == slot_at(slots, slot as int),
    decreases slots.len(),
{
    let listed = bound_slots(slots);
    if slots.len() > 0 {
        let rest = slots.drop_last();
        let before = bound_slots(rest);
        bound_lists_what_is_bound(rest, slot);
        if slot < rest.len() {
            assert(slot_at(slots, slot as int) == slot_at(rest, slot as int));
            if slot_at(rest, slot as int) is Some {
                let k = choose|k: int|
                    0 <= k < before.len() && (#[trigger] before[k]).0 == slot && Some(before[k].1)
                        == slot_at(rest, slot as int);
                assert(listed[k] == before[k]);
            }
        } else if slot == rest.len() {
            if slots.last() is Some {
                assert(listed[before.len() as int].0 == slot);
            }
        }
    }
}

/// A stage contributes every buffer bound at a slot its shader references, over
/// the whole resource and in the mode the shader uses it; without a reflection,
/// every bound buffer and in the mode that might be anything.
pub proof fn a_bound_buffer_is_in_the_footprint(
    tables: StageTables,
    usage: Option<&BindingUsage>,
    slot: u32,
    binding: BufferBinding,
    buffer: ResourceId,
    mode: AccessMode,
) -> (k: int)
    requires
        tables.wf(),
        slot < tables.buffers@.len(),
        tables.buffers@[slot as int] == Some(binding),
        binding.buffer == Some(buffer),
        match usage {
            Some(u) => slot < u.buffer_table().len() && u.buffer_table()[slot as int] == Some(mode),
            None => mode is Unknown,
        },
    ensures
        0 <= k < tables.footprint(usage).len(),
        tables.footprint(usage)[k].resource == buffer,
        tables.footprint(usage)[k].mode == mode,
        tables.footprint(usage)[k].extent is Whole,
{
    let bound = bound_slots(tables.buffers@);
    bound_lists_what_is_bound(tables.buffers@, slot);
    assert(slot_at(tables.buffers@, slot as int) == Some(binding));
    let at = choose|k: int|
        0 <= k < bound.len() && (#[trigger] bound[k]).0 == slot && Some(bound[k].1) == slot_at(
            tables.buffers@,
            slot as int,
        );
    lemma_buffer_listed(bound, usage is Some, buffers_used(usage), at, buffer, mode)
}

proof fn lemma_buffer_listed(
    bound: Seq<(u32, BufferBinding)>,
    reflected: bool,
    table: Seq<Option<AccessMode>>,
    at: int,
    buffer: ResourceId,
    mode: AccessMode,
) -> (k: int)
    requires
        0 <= at < bound.len(),
        bound[at].1.buffer == Some(buffer),
        slot_mode(reflected, table, bound[at].0) == Some(mode),
    ensures
        0 <= k < buffer_footprint(bound, reflected, table).len(),
        buffer_footprint(bound, reflected, table)[k] == whole_of(buffer, mode),
    decreases bound.len(),
{
    let before = buffer_footprint(bound.drop_last(), reflected, table);
    if at == bound.len() - 1 {
        before.len() as int
    } else {
        let k = lemma_buffer_listed(bound.drop_last(), reflected, table, at, buffer, mode);
        assert(buffer_footprint(bound, reflected, table)[k] == before[k]);
        k
    }
}

/// The same of every texture a stage binds.
pub proof fn a_bound_texture_is_in_the_footprint(
    tables: StageTables,
    usage: Option<&BindingUsage>,
    slot: u32,
    binding: ObjectBinding,
    texture: ResourceId,
    mode: AccessMode,
) -> (k: int)
    requires
        tables.wf(),
        slot < tables.textures@.len(),
        tables.textures@[slot as int] == Some(binding),
        binding.object == Some(texture),
        match usage {
            Some(u) => slot < u.texture_table().len() && u.texture_table()[slot as int] == Some(
                mode,
            ),
            None => mode is Unknown,
        },
    ensures
        0 <= k < tables.footprint(usage).len(),
        tables.footprint(usage)[k].resource == texture,
        tables.footprint(usage)[k].mode == mode,
        tables.footprint(usage)[k].extent is Whole,
{
    let bound = bound_slots(tables.textures@);
    bound_lists_what_is_bound(tables.textures@, slot);
    assert(slot_at(tables.textures@, slot as int) == Some(binding));
    let at = choose|k: int|
        0 <= k < bound.len() && (#[trigger] bound[k]).0 == slot && Some(bound[k].1) == slot_at(
            tables.textures@,
            slot as int,
        );
    let k = lemma_texture_listed(bound, usage is Some, textures_used(usage), at, texture, mode);
    let buffers = buffer_footprint(
        bound_slots(tables.buffers@),
        usage is Some,
        buffers_used(usage),
    );
    buffers.len() + k
}

proof fn lemma_texture_listed(
    bound: Seq<(u32, ObjectBinding)>,
    reflected: bool,
    table: Seq<Option<AccessMode>>,
    at: int,
    texture: ResourceId,
    mode: AccessMode,
) -> (k: int)
    requires
        0 <= at < bound.len(),
        bound[at].1.object == Some(texture),
        slot_mode(reflected, table, bound[at].0) == Some(mode),
    ensures
        0 <= k < texture_footprint(bound, reflected, table).len(),
        texture_footprint(bound, reflected, table)[k] == whole_of(texture, mode),
    decreases bound.len(),
{
    let before = texture_footprint(bound.drop_last(), reflected, table);
    if at == bound.len() - 1 {
        before.len() as int
    } else {
        let k = lemma_texture_listed(bound.drop_last(), reflected, table, at, texture, mode);
        assert(texture_footprint(bound, reflected, table)[k] == before[k]);
        k
    }
}

/// What a stage contributes is bound: each contribution is a buffer or a
/// texture bound at a slot the shader references, in the shader's own mode. The
/// contribution names which table it came from and the slot.
pub proof fn a_contribution_is_of_a_bound_slot(
    tables: StageTables,
    usage: Option<&BindingUsage>,
    k: int,
) -> (from: (bool, u32))
    requires
        tables.wf(),
        0 <= k < tables.footprint(usage).len(),
    ensures
        ({
            let p = tables.footprint(usage)[k];
            let (is_buffer, slot) = from;
            &&& p.extent is Whole
            &&& is_buffer ==> {
                &&& slot < tables.buffers@.len()
                &&& tables.buffers@[slot as int] matches Some(b) && b.buffer == Some(p.resource)
                &&& usage matches Some(u) ==> slot < u.buffer_table().len()
                    && u.buffer_table()[slot as int] == Some(p.mode)
            }
            &&& !is_buffer ==> {
                &&& slot < tables.textures@.len()
                &&& tables.textures@[slot as int] matches Some(t) && t.object == Some(p.resource)
                &&& usage matches Some(u) ==> slot < u.texture_table().len()
                    && u.texture_table()[slot as int] == Some(p.mode)
            }
            &&& usage is None ==> p.mode is Unknown
        }),
{
    let reflected = usage is Some;
    let buffers = bound_slots(tables.buffers@);
    let textures = bound_slots(tables.textures@);
    let first = buffer_footprint(buffers, reflected, buffers_used(usage));
    if k < first.len() {
        let at = lemma_buffer_from(buffers, reflected, buffers_used(usage), k);
        lemma_bound_from(tables.buffers@, at);
        (true, buffers[at].0)
    } else {
        let at = lemma_texture_from(textures, reflected, textures_used(usage), k - first.len());
        lemma_bound_from(tables.textures@, at);
        (false, textures[at].0)
    }
}

proof fn lemma_buffer_from(
    bound: Seq<(u32, BufferBinding)>,
    reflected: bool,
    table: Seq<Option<AccessMode>>,
    k: int,
) -> (at: int)
    requires
        0 <= k < buffer_footprint(bound, reflected, table).len(),
    ensures
        0 <= at < bound.len(),
        ({
            let p = buffer_footprint(bound, reflected, table)[k];
            bound[at].1.buffer == Some(p.resource) && slot_mode(reflected, table, bound[at].0)
                == Some(p.mode) && p.extent is Whole
        }),
    decreases bound.len(),
{
    let before = buffer_footprint(bound.drop_last(), reflected, table);
    if k < before.len() {
        lemma_buffer_from(bound.drop_last(), reflected, table, k)
    } else {
        bound.len() - 1
    }
}

proof fn lemma_texture_from(
    bound: Seq<(u32, ObjectBinding)>,
    reflected: bool,
    table: Seq<Option<AccessMode>>,
    k: int,
) -> (at: int)
    requires
        0 <= k < texture_footprint(bound, reflected, table).len(),
    ensures
        0 <= at < bound.len(),
        ({
            let p = texture_footprint(bound, reflected, table)[k];
            bound[at].1.object == Some(p.resource) && slot_mode(reflected, table, bound[at].0)
                == Some(p.mode) && p.extent is Whole
        }),
    decreases bound.len(),
{
    let before = texture_footprint(bound.drop_last(), reflected, table);
    if k < before.len() {
        lemma_texture_from(bound.drop_last(), reflected, table, k)
    } else {
        bound.len() - 1
    }
}

proof fn lemma_bound_from<T>(slots: Seq<Option<T>>, at: int)
    requires
        slots.len() <= u32::MAX + 1,
        0 <= at < bound_slots(slots).len(),
    ensures
        bound_slots(slots)[at].0 < slots.len(),
        slots[bound_slots(slots)[at].0 as int] == Some(bound_slots(slots)[at].1),
    decreases slots.len(),
{
    let before = bound_slots(slots.drop_last());
    if at < before.len() {
        lemma_bound_from(slots.drop_last(), at);
    }
}

/// The bound slots come in ascending order.
pub proof fn bound_slots_ascend<T>(slots: Seq<Option<T>>, i: int, j: int)
    requires
        slots.len() <= u32::MAX + 1,
        0 <= i < j < bound_slots(slots).len(),
    ensures
        bound_slots(slots)[i].0 < bound_slots(slots)[j].0,
    decreases slots.len(),
{
    let rest = slots.drop_last();
    if j < bound_slots(rest).len() {
        bound_slots_ascend(rest, i, j);
    } else {
        lemma_bound_from(rest, i);
    }
}

/// Samplers bind no memory: tables that differ in nothing else contribute the
/// same.
pub proof fn samplers_bind_no_memory(
    a: StageTables,
    b: StageTables,
    usage: Option<&BindingUsage>,
)
    requires
        a.buffers@ == b.buffers@,
        a.textures@ == b.textures@,
    ensures
        a.footprint(usage) == b.footprint(usage),
{
}

} // verus!
