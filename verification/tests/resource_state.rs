use reims_vgpu_core::content::Replica;
use reims_vgpu_core::identity::{ObjectListRef, ResourceId, SlotGeneration};
use reims_vgpu_core::resource_state::{
    ContentDirective, ContentGranularity, ResourceStateOp, ResourceStateTarget, SliceLevel,
};

fn res(slot: u32) -> ResourceId {
    ResourceId {
        slot: ObjectListRef(slot),
        generation: SlotGeneration(1),
    }
}

fn op(directive: ContentDirective, subresource: Option<SliceLevel>) -> ResourceStateOp {
    ResourceStateOp {
        directive,
        target: ResourceStateTarget::Resource {
            resource: res(1),
            subresource,
        },
    }
}



#[test]
fn a_whole_resource_request_is_not_the_top_subresource() {
    let whole = op(ContentDirective::Synchronize, None);
    let top = op(
        ContentDirective::Synchronize,
        Some(SliceLevel { slice: 0, level: 0 }),
    );
    assert_ne!(whole, top);
    assert_eq!(whole.granularity(), ContentGranularity::WholeResource);
    assert_eq!(top.granularity(), ContentGranularity::SliceLevel);
}

#[test]
fn only_synchronise_states_a_publication_requirement() {
    assert_eq!(
        op(ContentDirective::Synchronize, None).publication_requirement(),
        Some(Replica::GuestPages)
    );
    for directive in [
        ContentDirective::OptimizeForCpu,
        ContentDirective::OptimizeForGpu,
        ContentDirective::InvalidateCompressed,
    ] {
        assert_eq!(op(directive, None).publication_requirement(), None);
        assert!(!op(directive, None).depends_on_placement());
    }
    assert!(op(ContentDirective::Synchronize, None).depends_on_placement());
}

#[test]
fn two_levels_of_one_texture_are_separate_subresources() {
    let a = SliceLevel { slice: 0, level: 0 }.subresource();
    let b = SliceLevel { slice: 0, level: 1 }.subresource();
    assert!(!a.overlaps(b));
}
