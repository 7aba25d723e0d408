use reims_vgpu_core::identity::{ObjectListRef, ResourceId, SessionGeneration, SlotGeneration};
use reims_vgpu_core::pipeline::{Lease, LeaseRefusal, PipelineState, PipelineTable, RefusalReason};

fn id(slot: u32) -> ResourceId {
    ResourceId {
        slot: ObjectListRef(slot),
        generation: SlotGeneration(0),
    }
}
const GEN: SessionGeneration = SessionGeneration(1);

#[test]
fn the_happy_path_is_the_only_forward_path() {
    let mut t = PipelineTable::new();
    assert!(t.declare(id(1), GEN));
    assert_eq!(t.lease(id(1), GEN), Lease::Pending);
    assert!(t.advance(id(1), PipelineState::Translating));
    assert!(t.advance(id(1), PipelineState::Compiling));
    assert!(t.advance(id(1), PipelineState::Ready));
    assert_eq!(t.lease(id(1), GEN), Lease::Ready);
    assert_eq!(t.census().leases_pending, 1);
    assert_eq!(t.census().leases_ready, 1);
}

#[test]
fn a_ready_pipeline_is_not_something_to_wait_for() {
    let mut t = PipelineTable::new();
    for slot in [1, 2] {
        t.declare(id(slot), GEN);
    }
    for step in [
        PipelineState::Translating,
        PipelineState::Compiling,
        PipelineState::Ready,
    ] {
        t.advance(id(1), step);
    }
    assert_eq!(t.waits_for(&[id(1), id(2)], GEN), Ok(vec![id(2)]));
    assert_eq!(t.census().leases_ready, 1);
    assert_eq!(t.census().leases_pending, 1);
    assert_eq!(
        t.waits_for(&[], GEN),
        Ok(Vec::new()),
        "nothing bound, nothing held"
    );
}

#[test]
fn a_pipeline_that_will_never_build_refuses_the_work_that_binds_it() {
    let mut t = PipelineTable::new();
    t.declare(id(1), GEN);
    t.refuse(id(1), RefusalReason::TranslationFailed("no such stage"));
    let refusal = t
        .waits_for(&[id(1)], GEN)
        .expect_err("a refused pipeline is terminal");
    assert_eq!(
        refusal,
        LeaseRefusal::Refused {
            pipeline: id(1),
            reason: RefusalReason::TranslationFailed("no such stage"),
        }
    );
    assert_eq!(refusal.slug(), "pipeline_translation_failed");
}

#[test]
fn a_pipeline_from_another_generation_is_absent_rather_than_refused() {
    let mut t = PipelineTable::new();
    t.declare(id(1), GEN);
    for step in [
        PipelineState::Translating,
        PipelineState::Compiling,
        PipelineState::Ready,
    ] {
        t.advance(id(1), step);
    }
    assert_eq!(t.waits_for(&[id(1)], GEN), Ok(Vec::new()));
    assert_eq!(
        t.waits_for(&[id(1)], GEN.next()),
        Err(LeaseRefusal::Absent { pipeline: id(1) })
    );
    assert_eq!(
        t.waits_for(&[id(9)], GEN),
        Err(LeaseRefusal::Absent { pipeline: id(9) }),
        "and one that was never declared at all"
    );
}

#[test]
fn an_unusable_pipeline_stops_the_walk_and_what_happened_stays_counted() {
    let mut t = PipelineTable::new();
    for slot in [1, 2, 3] {
        t.declare(id(slot), GEN);
    }
    t.refuse(id(2), RefusalReason::CompilationFailed("out of registers"));
    assert!(matches!(
        t.waits_for(&[id(1), id(2), id(3)], GEN),
        Err(LeaseRefusal::Refused { pipeline, .. }) if pipeline == id(2)
    ));
    assert_eq!(
        t.census().leases_pending,
        1,
        "the pipeline before it was leased; the one after it was not"
    );
}

#[test]
fn a_pipeline_cannot_skip_to_ready() {
    let mut t = PipelineTable::new();
    t.declare(id(1), GEN);
    assert!(!t.advance(id(1), PipelineState::Ready));
    assert!(!t.advance(id(1), PipelineState::Compiling));
    assert_eq!(t.get(id(1)).unwrap().state, PipelineState::Declared);
}

#[test]
fn a_compile_that_lands_after_deletion_does_not_resurrect() {
    let mut t = PipelineTable::new();
    t.declare(id(1), GEN);
    t.advance(id(1), PipelineState::Translating);
    t.advance(id(1), PipelineState::Compiling);
    assert!(t.retire(id(1)));
    assert!(
        !t.advance(id(1), PipelineState::Ready),
        "the host finished building an object the guest no longer has"
    );
    assert_eq!(t.lease(id(1), GEN), Lease::Absent);
}

#[test]
fn a_refusal_is_terminal_and_keeps_its_reason() {
    let mut t = PipelineTable::new();
    t.declare(id(1), GEN);
    assert!(t.refuse(id(1), RefusalReason::TranslationFailed("no_air")));
    assert_eq!(
        t.lease(id(1), GEN),
        Lease::Refused(RefusalReason::TranslationFailed("no_air"))
    );
    assert_eq!(
        t.lease(id(1), GEN),
        Lease::Refused(RefusalReason::TranslationFailed("no_air"))
    );
    assert!(
        !t.advance(id(1), PipelineState::Translating),
        "a refused pipeline does not retry"
    );
    assert_eq!(t.census().refused, 1);
    assert_eq!(
        t.census().leases_pending,
        0,
        "a refusal is not a pending lease; counting it as one would make \
         the number that argues for earlier compilation include work that \
         will never compile"
    );
}

#[test]
fn a_pipeline_can_be_refused_before_anything_starts() {
    let mut t = PipelineTable::new();
    t.declare(id(1), GEN);
    assert!(t.refuse(id(1), RefusalReason::Undescribable("tessellation")));
    assert_eq!(t.get(id(1)).unwrap().state, PipelineState::Refused);
}

#[test]
fn a_pipeline_from_a_closed_generation_is_absent_to_later_work() {
    let mut t = PipelineTable::new();
    t.declare(id(1), GEN);
    t.advance(id(1), PipelineState::Translating);
    t.advance(id(1), PipelineState::Compiling);
    t.advance(id(1), PipelineState::Ready);
    assert_eq!(t.lease(id(1), GEN), Lease::Ready);
    assert_eq!(t.lease(id(1), GEN.next()), Lease::Absent);
}

#[test]
fn redeclaring_a_live_id_is_refused_rather_than_applied() {
    let mut t = PipelineTable::new();
    assert!(t.declare(id(1), GEN));
    t.advance(id(1), PipelineState::Translating);
    assert!(!t.declare(id(1), GEN));
    assert_eq!(t.get(id(1)).unwrap().state, PipelineState::Translating);
    let reused = ResourceId {
        slot: ObjectListRef(1),
        generation: SlotGeneration(0).next(),
    };
    assert!(t.declare(reused, GEN));
}

#[test]
fn compaction_drops_only_retired_pipelines() {
    let mut t = PipelineTable::new();
    t.declare(id(1), GEN);
    t.declare(id(2), GEN);
    t.retire(id(1));
    t.compact();
    assert_eq!(t.len(), 1);
    assert!(t.get(id(1)).is_none());
    assert!(t.get(id(2)).is_some());
}

#[test]
fn an_absent_pipeline_answers_absent_rather_than_pending() {
    let mut t = PipelineTable::new();
    assert_eq!(t.lease(id(9), GEN), Lease::Absent);
    assert!(!t.advance(id(9), PipelineState::Translating));
    assert!(!t.refuse(id(9), RefusalReason::CompilationFailed("x")));
}

#[test]
fn a_step_to_refused_that_is_not_legal_is_not_taken() {
    let mut t = PipelineTable::new();
    assert!(!t.advance(id(1), PipelineState::Refused), "nothing is declared");
    t.declare(id(1), GEN);
    for step in [
        PipelineState::Translating,
        PipelineState::Compiling,
        PipelineState::Ready,
    ] {
        assert!(t.advance(id(1), step));
    }
    assert!(!t.advance(id(1), PipelineState::Refused), "it is ready");
    assert_eq!(t.lease(id(1), GEN), Lease::Ready);
    assert!(t.retire(id(1)));
    assert!(!t.advance(id(1), PipelineState::Refused), "it is retired");
}
