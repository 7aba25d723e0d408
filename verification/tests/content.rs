use reims_vgpu_core::access::{BackingId, ByteRange, ContentVersion};
use reims_vgpu_core::content::{ContentLedger, Replica};

fn r(offset: u64, length: u64) -> ByteRange {
    ByteRange { offset, length }
}
const B: BackingId = BackingId(1);

#[test]
fn a_declared_backing_is_fresh_where_it_was_declared_and_nowhere_else() {
    let mut c = ContentLedger::new();
    c.declare(B, r(0, 256), Replica::GuestPages);
    assert!(c.is_fresh(B, r(0, 256), Replica::GuestPages));
    assert!(!c.is_fresh(B, r(0, 1), Replica::DeviceOwned));
    assert_eq!(c.version(B), ContentVersion(1));
}

#[test]
fn a_transfer_recorded_is_a_transfer_not_asked_for_again() {
    let mut c = ContentLedger::new();
    c.declare(B, r(0, 256), Replica::GuestPages);
    let t = c
        .transfer_for_read(B, r(0, 64), Replica::DeviceOwned)
        .expect("the device holds nothing yet");
    assert_eq!(t.from, Replica::GuestPages);
    assert_eq!(t.bytes.ranges(), &[r(0, 64)]);
    c.record_transfer(&t);
    assert!(c
        .transfer_for_read(B, r(0, 64), Replica::DeviceOwned)
        .is_none());
    assert_eq!(c.census().transfers_planned, 1);
    assert_eq!(c.census().reads_already_fresh, 1);
}

#[test]
fn a_write_elsewhere_makes_the_transfer_owed_again() {
    let mut c = ContentLedger::new();
    c.declare(B, r(0, 256), Replica::GuestPages);
    let t = c
        .transfer_for_read(B, r(0, 64), Replica::DeviceOwned)
        .unwrap();
    c.record_transfer(&t);
    let before = c.version(B);
    c.write(B, r(0, 16), Replica::GuestPages);
    assert!(c.version(B) > before, "a write is a version transition");
    let again = c
        .transfer_for_read(B, r(0, 64), Replica::DeviceOwned)
        .expect("the first sixteen bytes moved under it");
    assert_eq!(
        again.bytes.ranges(),
        &[r(0, 16)],
        "only the bytes that changed are owed, not the whole read"
    );
}

#[test]
fn a_partial_read_owes_only_the_bytes_it_is_behind_on() {
    let mut c = ContentLedger::new();
    c.declare(B, r(0, 4096), Replica::GuestPages);
    let t = c
        .transfer_for_read(B, r(0, 4096), Replica::DeviceOwned)
        .unwrap();
    c.record_transfer(&t);
    c.write(B, r(1024, 16), Replica::GuestPages);
    c.write(B, r(3000, 8), Replica::GuestPages);
    let owed = c
        .transfer_for_read(B, r(0, 4096), Replica::DeviceOwned)
        .unwrap();
    assert_eq!(owed.bytes.ranges(), &[r(1024, 16), r(3000, 8)]);
    assert_eq!(owed.bytes.len(), 24, "24 bytes, not 4096");
}

#[test]
fn a_read_from_the_writer_is_always_fresh() {
    let mut c = ContentLedger::new();
    c.declare(B, r(0, 256), Replica::GuestPages);
    c.write(B, r(0, 256), Replica::DeviceOwned);
    assert!(c
        .transfer_for_read(B, r(0, 256), Replica::DeviceOwned)
        .is_none());
    let back = c
        .transfer_for_read(B, r(0, 256), Replica::GuestPages)
        .expect("the guest lost them when the device wrote");
    assert_eq!(back.from, Replica::DeviceOwned);
}

#[test]
fn bytes_nobody_has_written_are_not_copied() {
    let mut c = ContentLedger::new();
    c.declare(B, r(0, 64), Replica::GuestPages);
    let t = c
        .transfer_for_read(B, r(0, 256), Replica::DeviceOwned)
        .expect("the declared part is owed");
    assert_eq!(
        t.bytes.ranges(),
        &[r(0, 64)],
        "only the declared extent moves; the rest was never anyone's"
    );
}

#[test]
fn a_discard_loses_a_copy_and_not_the_content() {
    let mut c = ContentLedger::new();
    c.declare(B, r(0, 256), Replica::GuestPages);
    let t = c
        .transfer_for_read(B, r(0, 256), Replica::DeviceOwned)
        .unwrap();
    c.record_transfer(&t);
    let version = c.version(B);
    c.discard(B, r(0, 256), Replica::DeviceOwned);
    assert_eq!(c.version(B), version, "nothing was written");
    assert!(c.is_fresh(B, r(0, 256), Replica::GuestPages));
    assert!(c
        .transfer_for_read(B, r(0, 256), Replica::DeviceOwned)
        .is_some());
}

#[test]
fn redeclaring_a_backing_invalidates_every_copy() {
    let mut c = ContentLedger::new();
    c.declare(B, r(0, 256), Replica::GuestPages);
    let t = c
        .transfer_for_read(B, r(0, 256), Replica::DeviceOwned)
        .unwrap();
    c.record_transfer(&t);
    c.declare(B, r(0, 256), Replica::GuestPages);
    assert!(!c.is_fresh(B, r(0, 1), Replica::DeviceOwned));
    assert_eq!(
        c.version(B),
        ContentVersion(2),
        "two declarations; the transfer between them was not a version \
         transition, which is the whole reason it could not repeat"
    );
}

#[test]
fn a_forgotten_backing_answers_nothing() {
    let mut c = ContentLedger::new();
    c.declare(B, r(0, 256), Replica::GuestPages);
    c.forget(B);
    assert!(c
        .transfer_for_read(B, r(0, 256), Replica::DeviceOwned)
        .is_none());
    assert_eq!(c.version(B), ContentVersion(0));
}
#[test]
fn discarding_one_placement_leaves_its_neighbour_fresh() {
    let mut c = ContentLedger::new();
    c.declare(B, r(0, 512), Replica::GuestPages);
    let t = c
        .transfer_for_read(B, r(0, 512), Replica::DeviceOwned)
        .unwrap();
    c.record_transfer(&t);
    c.discard(B, r(0, 256), Replica::DeviceOwned);
    assert!(!c.is_fresh(B, r(0, 256), Replica::DeviceOwned));
    assert!(c.is_fresh(B, r(256, 256), Replica::DeviceOwned));
}

#[test]
fn sole_authority_is_the_bytes_nowhere_else_holds() {
    let mut c = ContentLedger::new();
    c.declare(B, r(0, 512), Replica::GuestPages);
    assert!(
        c.sole_authority(B, r(0, 512), Replica::DeviceOwned)
            .is_empty(),
        "the device holds nothing yet"
    );
    assert_eq!(
        c.sole_authority(B, r(0, 512), Replica::GuestPages).ranges(),
        &[r(0, 512)],
        "and the guest holds all of it alone"
    );
    let t = c
        .transfer_for_read(B, r(0, 512), Replica::DeviceOwned)
        .unwrap();
    c.record_transfer(&t);
    assert!(
        c.sole_authority(B, r(0, 512), Replica::GuestPages)
            .is_empty(),
        "a copy is a second holder"
    );
    c.write(B, r(128, 64), Replica::DeviceOwned);
    assert_eq!(
        c.sole_authority(B, r(0, 512), Replica::DeviceOwned)
            .ranges(),
        &[r(128, 64)]
    );
    assert_eq!(
        c.sole_authority(B, r(0, 128), Replica::DeviceOwned)
            .ranges(),
        &[],
        "and the question is bounded by the range asked about"
    );
}
