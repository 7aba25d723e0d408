use reims_vgpu_core::access::BackingId;
use reims_vgpu_core::identity::{ObjectListRef, ResourceId, SlotGeneration};
use reims_vgpu_core::namespace::{Namespace, Refusal, Teardown};

fn slot(n: u32) -> ObjectListRef {
    ObjectListRef(n)
}

fn backing(n: u64) -> BackingId {
    BackingId(n)
}

#[test]
fn deleting_stops_resolution_and_leaves_accepted_work_alone() {
    let mut ns = Namespace::new();
    let id = ns.declare(slot(1), backing(10)).expect("free slot");
    let lease = ns.resolve(id).expect("live");
    ns.acquire(lease);

    assert_eq!(
        ns.delete(id),
        Ok(Teardown::WhenUsesRetire {
            backing: backing(10),
            outstanding: 1
        }),
        "the delete is accepted; the memory is not freed under the work"
    );
    assert_eq!(
        ns.resolve(id),
        Err(Refusal::Deleted { id }),
        "and nothing new may name it"
    );
    assert_eq!(
        ns.release(lease),
        Some(backing(10)),
        "the last use retiring is what makes it free-able"
    );
    assert_eq!(ns.awaiting_teardown(), 0);
}

#[test]
fn deleting_an_unused_object_frees_it_at_once() {
    let mut ns = Namespace::new();
    let id = ns.declare(slot(1), backing(10)).expect("free slot");
    assert_eq!(
        ns.delete(id),
        Ok(Teardown::Now {
            backing: backing(10)
        })
    );
}

#[test]
fn a_reused_slot_refuses_the_name_that_used_to_live_there() {
    let mut ns = Namespace::new();
    let first = ns.declare(slot(1), backing(10)).expect("free slot");
    assert_eq!(
        ns.delete(first).expect("live"),
        Teardown::Now {
            backing: backing(10)
        }
    );
    let second = ns.declare(slot(1), backing(11)).expect("deleted, so free");
    assert_ne!(first.generation, second.generation);
    assert_eq!(
        ns.resolve(first),
        Err(Refusal::StaleGeneration {
            slot: slot(1),
            named: first.generation,
            current: second.generation,
        })
    );
    assert_eq!(ns.resolve(second).expect("live").backing, backing(11));
}

#[test]
fn a_live_slot_cannot_be_redeclared() {
    let mut ns = Namespace::new();
    ns.declare(slot(1), backing(10)).expect("free slot");
    assert_eq!(
        ns.declare(slot(1), backing(11)),
        Err(Refusal::SlotOccupied { slot: slot(1) }),
        "silently replacing would orphan work planned against the previous \
         occupant"
    );
}

#[test]
fn replacing_the_memory_moves_the_name_and_not_the_accepted_work() {
    let mut ns = Namespace::new();
    let id = ns.declare(slot(1), backing(10)).expect("free slot");
    let old = ns.resolve(id).expect("live");
    ns.acquire(old);

    assert_eq!(
        ns.replace_physical(id, backing(20)),
        Ok(Teardown::WhenUsesRetire {
            backing: backing(10),
            outstanding: 1
        })
    );
    assert_eq!(
        ns.resolve(id).expect("still live").backing,
        backing(20),
        "the name resolves to the new memory at once"
    );
    assert_eq!(
        old.backing,
        backing(10),
        "and the lease already taken still names the old"
    );
    assert_eq!(ns.release(old), Some(backing(10)));
}

#[test]
fn a_detached_backing_survives_until_its_last_use_retires() {
    let mut ns = Namespace::new();
    let id = ns.declare(slot(1), backing(10)).expect("free slot");
    let a = ns.resolve(id).expect("live");
    let b = ns.resolve(id).expect("live");
    ns.acquire(a);
    ns.acquire(b);
    assert_eq!(ns.outstanding(id), 2);
    assert_eq!(
        ns.delete(id).expect("live"),
        Teardown::WhenUsesRetire {
            backing: backing(10),
            outstanding: 2
        }
    );
    assert_eq!(ns.release(a), None, "one use left");
    assert_eq!(ns.release(b), Some(backing(10)));
}

#[test]
fn deleting_twice_is_refused() {
    let mut ns = Namespace::new();
    let id = ns.declare(slot(1), backing(10)).expect("free slot");
    assert_eq!(
        ns.delete(id).expect("live").backing(),
        backing(10),
        "the first delete owns the teardown"
    );
    assert_eq!(ns.delete(id), Err(Refusal::Deleted { id }));
}

#[test]
fn a_name_that_was_never_declared_refuses_by_its_own_reason() {
    let mut ns = Namespace::new();
    let name = ResourceId {
        slot: slot(4),
        generation: SlotGeneration(1),
    };
    assert_eq!(
        ns.resolve(name),
        Err(Refusal::NotDeclared { slot: slot(4) })
    );
    assert_eq!(
        ns.resolve_slot(slot(4)),
        Err(Refusal::NotDeclared { slot: slot(4) })
    );
    assert_eq!(
        ns.census(),
        (0, 1),
        "one refusal, and the probe was not one"
    );
}

#[test]
fn mapping_is_a_state_and_not_a_counter() {
    let mut ns = Namespace::new();
    let id = ns.declare(slot(1), backing(10)).expect("free slot");
    assert!(!ns.is_mapped(id));
    assert_eq!(ns.unmap(id), Err(Refusal::NotMapped { id }));
    ns.map(id).expect("unmapped");
    assert!(ns.is_mapped(id));
    assert_eq!(
        ns.map(id),
        Err(Refusal::AlreadyMapped { id }),
        "two mappings of one object are two answers to where its bytes are"
    );
    ns.unmap(id).expect("mapped");
    assert!(!ns.is_mapped(id));
}

#[test]
fn a_deleted_object_is_not_mapped() {
    let mut ns = Namespace::new();
    let id = ns.declare(slot(1), backing(10)).expect("free slot");
    ns.map(id).expect("unmapped");
    assert_eq!(ns.delete(id).expect("live").backing(), backing(10));
    assert!(!ns.is_mapped(id));
    let next = ns.declare(slot(1), backing(11)).expect("deleted, so free");
    assert!(!ns.is_mapped(next));
}

#[test]
fn the_first_declaration_does_not_use_the_default_generation() {
    let mut ns = Namespace::new();
    let id = ns.declare(slot(1), backing(10)).expect("free slot");
    assert_ne!(id.generation, SlotGeneration(0));
}
