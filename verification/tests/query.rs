use reims_vgpu_core::access::{BackingId, ByteRange};
use reims_vgpu_core::identity::{CompletionStamp, StampSlot, StampValue};
use reims_vgpu_core::query::{
    PendingQuery, QueryKind, QueryRequest, ReplyDestination, ReplyWrite, Stall,
};
use reims_vgpu_core::transaction::Channel;

fn stamp() -> CompletionStamp {
    CompletionStamp {
        slot: StampSlot(4),
        value: StampValue(9),
    }
}

fn destination(length: u64) -> ReplyDestination {
    ReplyDestination {
        backing: BackingId(3),
        bytes: ByteRange {
            offset: 128,
            length,
        },
    }
}

fn pending(length: u64) -> PendingQuery {
    PendingQuery::new(
        QueryRequest {
            kind: QueryKind::ComputeInfo,
            destination: destination(length),
        },
        Some(stamp()),
    )
}

#[test]
fn every_query_packet_has_exactly_one_kind() {
    let mut seen: Vec<QueryKind> = Vec::new();
    for channel in [Channel::Root, Channel::Child] {
        for opcode in 0..=0xffffu16 {
            if let Some(k) = QueryKind::of(channel, opcode) {
                seen.push(k);
            }
        }
    }
    seen.sort_unstable();
    seen.dedup();
    assert_eq!(seen.len(), 4, "four questions, and no fifth kind");
}

#[test]
fn an_answer_names_exactly_the_window_it_occupies() {
    let done = pending(4096).answer(24).expect("fits");
    assert_eq!(
        done.write(),
        Some(ReplyWrite {
            backing: BackingId(3),
            bytes: ByteRange {
                offset: 128,
                length: 24
            },
        }),
        "at the destination's offset, and only as long as the answer"
    );
    assert_eq!(done.stall(), None);
    assert_eq!(done.publication(), Some(stamp()));
}

#[test]
fn an_answer_that_does_not_fit_is_refused_and_not_clamped() {
    let (still_pending, stall) = pending(16).answer(24).expect_err("does not fit");
    assert_eq!(
        stall,
        Stall::ReplyTooLarge {
            needed: 24,
            available: 16
        }
    );
    let done = still_pending.unanswerable(stall);
    assert_eq!(done.write(), None);
    assert_eq!(done.stall(), Some(stall));
    assert_eq!(
        done.publication(),
        Some(stamp()),
        "an unanswered query publishes its stamp; a hang is worse than a \
         value the guest can be told about"
    );
}

#[test]
fn a_query_with_no_completion_word_publishes_nothing() {
    let done = PendingQuery::new(
        QueryRequest {
            kind: QueryKind::DeviceInfo,
            destination: destination(64),
        },
        None,
    )
    .answer(8)
    .expect("fits");
    assert_eq!(done.publication(), None);
}


#[test]
fn every_stall_has_its_own_slug() {
    assert_ne!(
        Stall::NoAnswer.slug(),
        Stall::ReplyTooLarge {
            needed: 0,
            available: 0
        }
        .slug()
    );
}
