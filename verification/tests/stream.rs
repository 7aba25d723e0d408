use reims_vgpu_core::stream::{
    EncoderBoundary, ProtectionOptions, Rail, SegmentKind, SegmentRole, StreamCursor, StreamOrder,
    StreamRefusal,
};

const KINDS: [SegmentKind; 5] = [
    SegmentKind::Render,
    SegmentKind::Compute,
    SegmentKind::Blit,
    SegmentKind::Event,
    SegmentKind::Info,
];

fn wire(kind: SegmentKind) -> u8 {
    match kind {
        SegmentKind::Render => 0,
        SegmentKind::Compute => 1,
        SegmentKind::Blit => 2,
        SegmentKind::Event => 3,
        SegmentKind::Info => 4,
    }
}

fn encoder(kind: SegmentKind) -> Option<SegmentRole> {
    Some(SegmentRole::Encoder(kind))
}

#[test]
fn a_segment_admits_exactly_its_own_rail() {
    for kind in KINDS {
        for other in KINDS {
            let mut c = StreamCursor::new();
            c.begin(wire(kind), encoder(kind), false).expect("opens");
            let got = c.record(other.rail());
            if kind == other {
                assert!(got.is_ok());
            } else {
                assert_eq!(
                    got,
                    Err(StreamRefusal::RailMismatch {
                        segment: kind,
                        record: other.rail(),
                    })
                );
            }
        }
    }
}

#[test]
fn records_are_positioned_in_wire_order_across_segments() {
    let mut c = StreamCursor::new();
    c.begin(wire(SegmentKind::Render), encoder(SegmentKind::Render), true)
        .expect("open");
    let a = c.record(Rail::Render).expect("rec");
    let b = c.record(Rail::Render).expect("rec");
    assert_eq!(c.end(), Ok(EncoderBoundary::End { records: 2 }));
    c.begin(wire(SegmentKind::Blit), encoder(SegmentKind::Blit), false).expect("open");
    let d = c.record(Rail::Blit).expect("rec");
    assert_eq!(c.end(), Ok(EncoderBoundary::End { records: 1 }));
    assert_eq!(c.finish(), Ok(2));

    assert!(a < b && b < d);
    let order = StreamOrder;
    assert!(order.precedes(a, d));
    assert!(!order.precedes(d, a));
    assert!(!order.independent(a, d));
}

#[test]
fn malformed_arrangements_are_named_refusals() {
    let mut c = StreamCursor::new();
    assert_eq!(
        c.record(Rail::Render),
        Err(StreamRefusal::RecordOutsideEncoder)
    );
    assert_eq!(c.end(), Err(StreamRefusal::EndWithoutBegin));
    assert_eq!(c.begin(9, None, false), Err(StreamRefusal::UnknownSegmentType(9)));

    c.begin(wire(SegmentKind::Render), encoder(SegmentKind::Render), false)
        .expect("open");
    assert_eq!(
        c.begin(wire(SegmentKind::Compute), encoder(SegmentKind::Compute), false),
        Err(StreamRefusal::EncoderStillOpen(SegmentKind::Render))
    );
    assert_eq!(
        c.finish(),
        Err(StreamRefusal::EncoderNeverEnded(SegmentKind::Render))
    );
}

#[test]
fn a_protection_envelope_arms_the_segment_after_it() {
    let mut c = StreamCursor::new();
    c.protection_envelope(ProtectionOptions(0x44))
        .expect("armed");
    let (_, begin) = c.begin(wire(SegmentKind::Blit), encoder(SegmentKind::Blit), false).expect("open");
    assert_eq!(begin.protection, Some(ProtectionOptions(0x44)));
    assert!(begin.demands_protection());
    c.end().expect("end");

    let (_, next) = c.begin(wire(SegmentKind::Blit), encoder(SegmentKind::Blit), false).expect("open");
    assert_eq!(next.protection, None);
    assert!(!next.demands_protection());
}

#[test]
fn an_envelope_that_arms_nothing_is_refused() {
    let mut c = StreamCursor::new();
    c.protection_envelope(ProtectionOptions(1)).expect("armed");
    assert_eq!(
        c.protection_envelope(ProtectionOptions(2)),
        Err(StreamRefusal::ProtectionEnvelopeUnclaimed)
    );
    assert_eq!(c.finish(), Err(StreamRefusal::ProtectionEnvelopeUnclaimed));
}

#[test]
fn an_envelope_may_not_arrive_inside_an_encoder() {
    let mut c = StreamCursor::new();
    c.begin(wire(SegmentKind::Compute), encoder(SegmentKind::Compute), false)
        .expect("open");
    assert_eq!(
        c.protection_envelope(ProtectionOptions(1)),
        Err(StreamRefusal::EncoderStillOpen(SegmentKind::Compute))
    );
}

#[test]
fn refusal_reasons_are_distinct() {
    let all = [
        StreamRefusal::UnknownSegmentType(0),
        StreamRefusal::EncoderStillOpen(SegmentKind::Render),
        StreamRefusal::RecordOutsideEncoder,
        StreamRefusal::RailMismatch {
            segment: SegmentKind::Render,
            record: Rail::Blit,
        },
        StreamRefusal::EndWithoutBegin,
        StreamRefusal::ProtectionEnvelopeUnclaimed,
        StreamRefusal::EncoderNeverEnded(SegmentKind::Render),
    ];
    let mut seen: Vec<&str> = all.iter().map(|r| r.reason()).collect();
    seen.sort_unstable();
    let before = seen.len();
    seen.dedup();
    assert_eq!(seen.len(), before);
}
