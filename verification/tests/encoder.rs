use reims_vgpu_core::access::{AccessMode, ParticipationExtent};
use reims_vgpu_core::bind::{BUFFER_TABLE_HINT, BufferBinding, ObjectBinding, TEXTURE_TABLE_HINT};
use reims_vgpu_core::encoder::{ComputeEncoderState, RenderEncoderState, SlotTable};
use reims_vgpu_core::identity::{ObjectListRef, ResourceId, SlotGeneration};
use reims_vgpu_core::pipeline::BindingUsage;
use reims_vgpu_core::render::ShaderStage;

fn res(slot: u32) -> ResourceId {
    ResourceId {
        slot: ObjectListRef(slot),
        generation: SlotGeneration(1),
    }
}

fn buffer(id: u32) -> BufferBinding {
    BufferBinding {
        buffer: Some(res(id)),
        offset: 0x40,
        stride: None,
    }
}

fn texture(id: u32) -> ObjectBinding {
    ObjectBinding {
        object: Some(res(id)),
        lod_clamps: None,
    }
}

#[test]
fn a_table_grows_past_the_serializers_own_truncation_points() {
    let mut table = SlotTable::<BufferBinding>::with_hint(BUFFER_TABLE_HINT);
    let far = TEXTURE_TABLE_HINT + 500;
    table.set(far, Some(buffer(1)));
    assert_eq!(table.get(far), Some(buffer(1)));
    assert_eq!(table.bound().len(), 1);
    assert_eq!(table.extent(), far as usize + 1);
}

#[test]
fn growing_leaves_the_gap_unbound() {
    let mut table = SlotTable::<BufferBinding>::default();
    table.set(0, Some(buffer(1)));
    table.set(10, Some(buffer(2)));
    assert_eq!(table.get(5), None);
    let bound: Vec<_> = table.bound().into_iter().map(|(slot, _)| slot).collect();
    assert_eq!(bound, vec![0, 10]);
}

#[test]
fn unbinding_leaves_nothing_rather_than_a_stale_resource() {
    let mut table = SlotTable::<BufferBinding>::default();
    table.set(2, Some(buffer(1)));
    table.set(2, None);
    assert_eq!(table.get(2), None);
    assert_eq!(table.bound().len(), 0);
}

#[test]
fn an_unreflected_pipeline_makes_every_bound_slot_unknown() {
    let mut state = ComputeEncoderState::default();
    state.tables.buffers.set(0, Some(buffer(1)));
    state.tables.textures.set(4, Some(texture(2)));
    state.tables.samplers.set(0, Some(texture(3)));

    let mut out = Vec::new();
    state.footprint_into(None, &mut out);
    assert_eq!(out.len(), 2, "samplers bind no memory");
    for part in &out {
        assert_eq!(part.mode, AccessMode::Unknown);
        assert_eq!(part.extent, ParticipationExtent::Whole);
        assert!(part.mode.writes(), "unknown must conflict with a reader");
    }
}

#[test]
fn a_reflection_narrows_the_footprint_to_what_the_shader_touches() {
    let mut state = ComputeEncoderState::default();
    state.tables.buffers.set(0, Some(buffer(1)));
    state.tables.buffers.set(1, Some(buffer(2)));
    state.tables.buffers.set(2, Some(buffer(3)));

    let usage = BindingUsage::new(
        vec![Some(AccessMode::Read), None, Some(AccessMode::Write)],
        Vec::new(),
    );
    let mut out = Vec::new();
    state.footprint_into(Some(&usage), &mut out);
    assert_eq!(out.len(), 2);
    assert_eq!(out[0].resource, res(1));
    assert_eq!(out[0].mode, AccessMode::Read);
    assert_eq!(out[1].resource, res(3));
    assert_eq!(out[1].mode, AccessMode::Write);
}

#[test]
fn a_slot_beyond_the_reflection_is_unreferenced() {
    let mut state = ComputeEncoderState::default();
    state.tables.buffers.set(9, Some(buffer(1)));
    let usage = BindingUsage::new(vec![Some(AccessMode::Read)], Vec::new());
    let mut out = Vec::new();
    state.footprint_into(Some(&usage), &mut out);
    assert!(out.is_empty());
}

#[test]
fn the_two_render_stages_do_not_share_slot_numbers() {
    let mut state = RenderEncoderState::default();
    state
        .stage_mut(ShaderStage::Vertex)
        .buffers
        .set(3, Some(buffer(1)));
    state
        .stage_mut(ShaderStage::Fragment)
        .buffers
        .set(3, Some(buffer(1)));
    assert_eq!(
        state.stage(ShaderStage::Vertex).buffers.get(3),
        Some(buffer(1))
    );

    let read = BindingUsage::new(vec![None, None, None, Some(AccessMode::Read)], Vec::new());
    let write = BindingUsage::new(vec![None, None, None, Some(AccessMode::Write)], Vec::new());
    let mut out = Vec::new();
    state.footprint_into(Some(&read), Some(&write), &mut out);
    assert_eq!(out.len(), 2);
    assert_eq!(out[0].mode, AccessMode::Read);
    assert_eq!(out[1].mode, AccessMode::Write);
    assert_eq!(out[0].resource, out[1].resource);
}

#[test]
fn a_footprint_appends_rather_than_replacing() {
    let mut state = ComputeEncoderState::default();
    state.tables.buffers.set(0, Some(buffer(1)));
    let mut out = Vec::new();
    state.footprint_into(None, &mut out);
    state.footprint_into(None, &mut out);
    assert_eq!(out.len(), 2);
}

#[test]
fn a_new_render_encoder_has_nothing_bound() {
    let state = RenderEncoderState::default();
    for stage in [ShaderStage::Vertex, ShaderStage::Fragment] {
        for slot in 0..8u32 {
            assert_eq!(state.stage(stage).buffers.get(slot), None);
            assert_eq!(state.stage(stage).textures.get(slot), None);
            assert_eq!(state.stage(stage).samplers.get(slot), None);
        }
    }
    assert_eq!(state.pipeline, None);
    assert_eq!(state.depth_stencil, None);
    assert_eq!(state.visibility, None);
}
