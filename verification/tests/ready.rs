use reims_vgpu_core::identity::{CompletionStamp, IngressOrdinal, StampSlot, StampValue, StampWait};
use reims_vgpu_core::ready::Scheduler;

fn ord(n: u64) -> IngressOrdinal {
    IngressOrdinal(n)
}
fn wait(slot: u32, value: u32) -> StampWait {
    StampWait {
        slot: StampSlot(slot),
        value: StampValue(value),
    }
}
fn stamp(slot: u32, value: u32) -> CompletionStamp {
    CompletionStamp {
        slot: StampSlot(slot),
        value: StampValue(value),
    }
}

#[test]
fn a_transaction_with_no_prerequisites_is_ready_at_once() {
    let mut s = Scheduler::new();
    assert!(s.accept(ord(1), &[], &[], None));
    assert_eq!(s.take_ready(), vec![ord(1)]);
    assert!(
        s.take_ready().is_empty(),
        "the ready set is taken, not read"
    );
}

#[test]
fn a_hazard_dependent_becomes_ready_when_its_predecessor_completes() {
    let mut s = Scheduler::new();
    s.accept(ord(1), &[], &[], None);
    assert!(!s.accept(ord(2), &[ord(1)], &[], None));
    assert_eq!(s.take_ready(), vec![ord(1)]);
    s.complete(ord(1));
    assert_eq!(s.take_ready(), vec![ord(2)]);
}

#[test]
fn a_hazard_against_a_completed_transaction_is_already_discharged() {
    let mut s = Scheduler::new();
    s.accept(ord(1), &[], &[], None);
    s.complete(ord(1));
    assert!(s.accept(ord(2), &[ord(1)], &[], None));
}

#[test]
fn a_stamp_wait_holds_until_the_value_is_published() {
    let mut s = Scheduler::new();
    assert!(!s.accept(ord(1), &[], &[wait(4, 10)], None));
    s.publish(stamp(4, 9));
    assert!(s.take_ready().is_empty(), "nine does not reach ten");
    s.publish(stamp(4, 10));
    assert_eq!(s.take_ready(), vec![ord(1)]);
}

#[test]
fn a_stamp_wait_already_satisfied_at_admission_does_not_hold() {
    let mut s = Scheduler::new();
    s.publish(stamp(4, 12));
    assert!(s.accept(ord(1), &[], &[wait(4, 10)], None));
}

#[test]
fn publishing_across_a_wrap_still_advances_the_slot() {
    let mut s = Scheduler::new();
    s.publish(stamp(0, u32::MAX - 1));
    s.publish(stamp(0, 3));
    assert_eq!(s.published_value(StampSlot(0)), Some(StampValue(3)));
    assert!(s.accept(ord(1), &[], &[wait(0, 2)], None));
}

#[test]
fn publishing_an_older_value_does_not_retract_the_slot() {
    let mut s = Scheduler::new();
    s.publish(stamp(0, 20));
    s.publish(stamp(0, 5));
    assert_eq!(s.published_value(StampSlot(0)), Some(StampValue(20)));
}

#[test]
fn completion_releases_hazard_dependents_and_owes_its_stamp() {
    let mut s = Scheduler::new();
    s.accept(ord(1), &[], &[], Some(stamp(7, 1)));
    s.accept(ord(2), &[ord(1)], &[], None);
    s.accept(ord(3), &[], &[wait(7, 1)], None);
    s.take_ready();
    let owed = s.complete(ord(1));
    assert_eq!(owed, Some(stamp(7, 1)));
    assert_eq!(
        s.take_ready(),
        vec![ord(2)],
        "the stamp waiter waits for publication, which has not happened"
    );
    s.publish(owed.expect("a stamp"));
    assert_eq!(s.take_ready(), vec![ord(3)]);
}

#[test]
fn a_transaction_with_both_kinds_of_prerequisite_waits_for_both() {
    let mut s = Scheduler::new();
    s.accept(ord(1), &[], &[], None);
    s.accept(ord(2), &[ord(1)], &[wait(3, 5)], None);
    s.take_ready();
    s.complete(ord(1));
    assert!(s.take_ready().is_empty(), "the stamp is still unpublished");
    s.publish(stamp(3, 5));
    assert_eq!(s.take_ready(), vec![ord(2)]);
}

#[test]
fn a_wait_nobody_will_publish_is_named() {
    let mut s = Scheduler::new();
    s.accept(ord(1), &[], &[wait(2, 100)], None);
    assert_eq!(s.stalled(), vec![ord(1)]);
    s.accept(ord(2), &[], &[], Some(stamp(2, 100)));
    assert!(s.stalled().is_empty());
    let owed = s.complete(ord(2)).expect("a stamp");
    s.publish(owed);
    assert_eq!(s.take_ready(), vec![ord(1)]);
}

#[test]
fn a_publisher_that_stops_short_does_not_discharge_the_wait() {
    let mut s = Scheduler::new();
    s.accept(ord(1), &[], &[wait(2, 100)], None);
    s.accept(ord(2), &[], &[], Some(stamp(2, 99)));
    assert_eq!(s.stalled(), vec![ord(1)]);
}

#[test]
fn a_mutual_wait_names_both_sides() {
    let mut s = Scheduler::new();
    s.accept(ord(1), &[], &[wait(1, 5)], Some(stamp(2, 5)));
    s.accept(ord(2), &[], &[wait(2, 5)], Some(stamp(1, 5)));
    assert!(
        s.stalled().is_empty(),
        "each side's stamp is publishable by the other, so this is a \
         deadlock in the wait-for graph rather than an unanswerable wait — \
         a different diagnosis, and not this one's to make"
    );
    assert_eq!(s.pending(), 2);
    assert!(s.take_ready().is_empty());
}
