use reims_vgpu_core::access::BackingId;
use reims_vgpu_core::heap::{Heaps, Refusal as HeapRefusal};
use reims_vgpu_core::identity::{
    CompletionStamp, IngressOrdinal, ObjectListRef, ResourceId, SessionGeneration, SlotGeneration,
    StampSlot, StampValue, StampWait,
};
use reims_vgpu_core::namespace::{Namespace, Refusal as NameRefusal};
use reims_vgpu_core::pipeline::{
    Lease, LeaseRefusal, PipelineState, PipelineTable, RefusalReason,
};
use reims_vgpu_core::ready::Scheduler;

fn res(slot: u32) -> ResourceId {
    ResourceId {
        slot: ObjectListRef(slot),
        generation: SlotGeneration(1),
    }
}

const GENERATION: SessionGeneration = SessionGeneration(1);

#[test]
fn a_pipeline_steps_forward_one_state_at_a_time() {
    let states = [
        PipelineState::Declared,
        PipelineState::Translating,
        PipelineState::Compiling,
        PipelineState::Ready,
    ];
    for (i, &from) in states.iter().enumerate() {
        for (j, &to) in states.iter().enumerate() {
            assert_eq!(from.may_become(to), j == i + 1, "{:?} to {:?}", from, to);
        }
        assert_eq!(from.is_ready(), i == 3);
        assert!(!from.is_terminal());
        assert_eq!(from.may_become(PipelineState::Retired), true);
    }
    assert!(PipelineState::Retired.is_terminal());
}

#[test]
fn a_refusal_reason_keeps_its_detail() {
    for reason in [
        RefusalReason::Undescribable("a"),
        RefusalReason::TranslationFailed("b"),
        RefusalReason::CompilationFailed("c"),
    ] {
        let want = match reason {
            RefusalReason::Undescribable(d)
            | RefusalReason::TranslationFailed(d)
            | RefusalReason::CompilationFailed(d) => d,
        };
        assert_eq!(reason.detail(), want);
    }
}

#[test]
fn observing_and_checking_a_lease_charge_nothing() {
    let mut table = PipelineTable::new();
    table.declare(res(1), GENERATION);
    let before = table.census();
    assert_eq!(
        table.observe(res(1), GENERATION),
        Lease::Pending
    );
    assert_eq!(table.observe(res(2), GENERATION), Lease::Absent);
    assert_eq!(table.check(&[res(1)], GENERATION), Ok(()));
    assert_eq!(
        table.check(&[res(1), res(2)], GENERATION),
        Err(LeaseRefusal::Absent { pipeline: res(2) })
    );
    assert_eq!(table.census(), before);
}

#[test]
fn a_vacancy_is_the_name_a_declaration_would_give() {
    let mut ns = Namespace::new();
    let slot = ObjectListRef(3);
    let promised = ns.vacancy(slot).expect("nothing lives there");
    let id = ns.declare(slot, BackingId(1)).expect("vacant");
    assert_eq!(id, promised);
    assert_eq!(ns.vacancy(slot), Err(NameRefusal::SlotOccupied { slot }));
    assert_eq!(ns.live_names(), vec![id]);
    let _ = ns.delete(id).expect("live");
    assert!(ns.live_names().is_empty());
    let next = ns.vacancy(slot).expect("free again");
    assert_ne!(next, id, "a reused slot has a new generation");
}

#[test]
fn live_heaps_are_listed_in_number_order() {
    let mut heaps = Heaps::new();
    heaps.create(9, BackingId(90), 64).expect("fresh");
    heaps.create(2, BackingId(20), 64).expect("fresh");
    assert_eq!(heaps.live_heaps(), vec![2, 9]);
    assert_eq!(heaps.backing_of(9), Ok(BackingId(90)));
    assert_eq!(heaps.backing_of(5), Err(HeapRefusal::NoSuchHeap { heap: 5 }));
}

#[test]
fn work_waits_for_its_pipelines_and_its_stamps_alike() {
    let mut s = Scheduler::new();
    let wait = StampWait {
        slot: StampSlot(1),
        value: StampValue(4),
    };
    let ready = s.accept_building(
        IngressOrdinal(1),
        &[],
        &[wait],
        vec![res(7)],
        None,
    );
    assert!(!ready);
    assert!(s.is_outstanding(IngressOrdinal(1)));
    assert!(!s.is_published(wait));
    s.publish(CompletionStamp {
        slot: StampSlot(1),
        value: StampValue(4),
    });
    assert!(s.is_published(wait));
    assert!(s.take_ready().is_empty(), "a pipeline is still building");
    s.pipeline_ready(res(7));
    assert_eq!(s.take_ready(), vec![IngressOrdinal(1)]);
}
