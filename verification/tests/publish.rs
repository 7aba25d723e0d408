use reims_vgpu_core::identity::{ChannelId, ChannelSequence, CompletionStamp, StampSlot, StampValue};
use reims_vgpu_core::publish::{Publisher, Release, RetireRefusal};

fn stamp(value: u32) -> Option<CompletionStamp> {
    Some(CompletionStamp {
        slot: StampSlot(1),
        value: StampValue(value),
    })
}

fn seq(n: u64) -> ChannelSequence {
    ChannelSequence(n)
}

#[test]
fn a_position_that_finishes_early_publishes_when_its_predecessor_does() {
    let mut p = Publisher::new();
    for n in 1..=3 {
        p.accept(ChannelId(1), seq(n));
    }
    assert!(
        p.complete(ChannelId(1), seq(3), stamp(3)).is_empty(),
        "third finished first and published nothing"
    );
    assert!(p.complete(ChannelId(1), seq(2), stamp(2)).is_empty());
    assert_eq!(p.blocked(), vec![(ChannelId(1), 2)]);
    assert_eq!(
        p.complete(ChannelId(1), seq(1), stamp(1)),
        vec![
            Release {
                sequence: seq(1),
                stamp: stamp(1)
            },
            Release {
                sequence: seq(2),
                stamp: stamp(2)
            },
            Release {
                sequence: seq(3),
                stamp: stamp(3)
            },
        ],
        "the head finishing releases the whole ready prefix, in order"
    );
    assert_eq!(p.outstanding(ChannelId(1)), 0);
    assert!(p.blocked().is_empty());
}

#[test]
fn a_stuck_channel_does_not_hold_another_channels_publication() {
    let mut p = Publisher::new();
    p.accept(ChannelId(1), seq(1));
    p.accept(ChannelId(1), seq(2));
    p.accept(ChannelId(2), seq(1));
    assert!(p.complete(ChannelId(1), seq(2), stamp(2)).is_empty());
    assert_eq!(
        p.complete(ChannelId(2), seq(1), stamp(9)),
        vec![Release {
            sequence: seq(1),
            stamp: stamp(9)
        }],
        "channel two's head is its own"
    );
    assert_eq!(p.blocked(), vec![(ChannelId(1), 1)]);
    assert_eq!(p.head(ChannelId(1)), Some(seq(1)));
    assert_eq!(p.head(ChannelId(2)), None);
}

#[test]
fn withdrawing_a_position_releases_what_was_queued_behind_it() {
    let mut p = Publisher::new();
    for n in 1..=3 {
        p.accept(ChannelId(1), seq(n));
    }
    assert!(p.complete(ChannelId(1), seq(2), stamp(2)).is_empty());
    assert!(p.complete(ChannelId(1), seq(3), stamp(3)).is_empty());
    assert_eq!(
        p.withdraw(ChannelId(1), seq(1)),
        vec![
            Release {
                sequence: seq(2),
                stamp: stamp(2)
            },
            Release {
                sequence: seq(3),
                stamp: stamp(3)
            },
        ],
        "a position that will never publish must not stall the ones behind it"
    );
    assert_eq!(p.released(), 2);
}

#[test]
fn a_position_that_publishes_no_stamp_still_holds_the_order() {
    let mut p = Publisher::new();
    p.accept(ChannelId(1), seq(1));
    p.accept(ChannelId(1), seq(2));
    assert!(p.complete(ChannelId(1), seq(2), stamp(2)).is_empty());
    assert_eq!(
        p.complete(ChannelId(1), seq(1), None),
        vec![
            Release {
                sequence: seq(1),
                stamp: None
            },
            Release {
                sequence: seq(2),
                stamp: stamp(2)
            },
        ]
    );
}

#[test]
fn gaps_in_the_sequence_do_not_stall_the_head() {
    let mut p = Publisher::new();
    p.accept(ChannelId(1), seq(1));
    p.accept(ChannelId(1), seq(7));
    assert_eq!(p.complete(ChannelId(1), seq(1), None).len(), 1);
    assert_eq!(p.complete(ChannelId(1), seq(7), None).len(), 1);
}

#[test]
fn a_channel_with_live_positions_cannot_end_its_lifetime() {
    let mut p = Publisher::new();
    p.accept(ChannelId(1), seq(1));
    assert_eq!(
        p.retire(ChannelId(1)),
        Err(RetireRefusal::LivePositions { outstanding: 1 })
    );
    p.complete(ChannelId(1), seq(1), None);
    assert_eq!(p.retire(ChannelId(1)), Ok(()));
    p.accept(ChannelId(1), seq(1));
    assert_eq!(p.outstanding(ChannelId(1)), 1);
}
