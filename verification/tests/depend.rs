use reims_vgpu_core::access::{
    AccessIntent, AccessKey, AccessMode, BackingId, ByteRange, HeapId, ResourceKey,
    SubresourceRange,
};
use reims_vgpu_core::depend::DependencyGraph;
use reims_vgpu_core::identity::{ChannelId, IngressOrdinal};

fn res(backing: u64) -> ResourceKey {
    ResourceKey {
        backing: BackingId(backing),
        heap: None,
    }
}

fn intent(key: AccessKey, mode: AccessMode) -> AccessIntent {
    AccessIntent {
        domain: ChannelId(1),
        key,
        mode,
        api_stages: 0,
        input_content_version: None,
        output_content_version: None,
    }
}

fn ord(n: u64) -> IngressOrdinal {
    IngressOrdinal(n)
}

#[test]
fn every_edge_points_backwards() {
    let mut g = DependencyGraph::new();
    let k = AccessKey::Whole(res(1));
    for n in 1..=8 {
        let mode = if n % 2 == 0 {
            AccessMode::Write
        } else {
            AccessMode::Read
        };
        for w in g.accept(ord(n), &[intent(k, mode)]) {
            assert!(w < ord(n), "edge {w:?} -> {:?} points forward", ord(n));
        }
    }
}

#[test]
fn a_read_waits_for_the_preceding_writer_and_not_for_readers() {
    let mut g = DependencyGraph::new();
    let k = AccessKey::Whole(res(1));
    assert!(g.accept(ord(1), &[intent(k, AccessMode::Write)]).is_empty());
    assert_eq!(
        g.accept(ord(2), &[intent(k, AccessMode::Read)]),
        vec![ord(1)]
    );
    assert_eq!(
        g.accept(ord(3), &[intent(k, AccessMode::Read)]),
        vec![ord(1)],
        "a second reader waits for the writer and not for the first reader"
    );
}

#[test]
fn a_write_waits_for_the_preceding_writer_and_every_preceding_reader() {
    let mut g = DependencyGraph::new();
    let k = AccessKey::Whole(res(1));
    g.accept(ord(1), &[intent(k, AccessMode::Write)]);
    g.accept(ord(2), &[intent(k, AccessMode::Read)]);
    g.accept(ord(3), &[intent(k, AccessMode::Read)]);
    assert_eq!(
        g.accept(ord(4), &[intent(k, AccessMode::Write)]),
        vec![ord(1), ord(2), ord(3)]
    );
}

#[test]
fn disjoint_ranges_over_one_backing_do_not_meet() {
    let mut g = DependencyGraph::new();
    let lo = AccessKey::Range(
        res(1),
        ByteRange {
            offset: 0,
            length: 64,
        },
    );
    let hi = AccessKey::Range(
        res(1),
        ByteRange {
            offset: 64,
            length: 64,
        },
    );
    g.accept(ord(1), &[intent(lo, AccessMode::Write)]);
    assert!(
        g.accept(ord(2), &[intent(hi, AccessMode::Write)]).is_empty(),
        "two writes to disjoint halves of one buffer are independent"
    );
    assert_eq!(
        g.accept(
            ord(3),
            &[intent(AccessKey::Whole(res(1)), AccessMode::Read)]
        ),
        vec![ord(1), ord(2)],
        "and a whole-backing read meets both of them"
    );
}

#[test]
fn a_heap_declaration_meets_its_members_in_both_directions() {
    let heap = HeapId {
        id: 3,
        membership_generation: 1,
    };
    let member = AccessKey::Whole(ResourceKey {
        backing: BackingId(9),
        heap: Some(heap),
    });
    let mut g = DependencyGraph::new();
    g.accept(ord(1), &[intent(member, AccessMode::Write)]);
    assert_eq!(
        g.accept(ord(2), &[intent(AccessKey::Heap(heap), AccessMode::Read)]),
        vec![ord(1)]
    );
    let mut g = DependencyGraph::new();
    g.accept(ord(1), &[intent(AccessKey::Heap(heap), AccessMode::Write)]);
    assert_eq!(
        g.accept(ord(2), &[intent(member, AccessMode::Read)]),
        vec![ord(1)]
    );
}

#[test]
fn unknown_participation_meets_everything_in_its_domain_both_ways() {
    let mut g = DependencyGraph::new();
    g.accept(
        ord(1),
        &[intent(AccessKey::Whole(res(1)), AccessMode::Write)],
    );
    g.accept(
        ord(2),
        &[intent(AccessKey::Whole(res(2)), AccessMode::Write)],
    );
    assert_eq!(
        g.accept(ord(3), &[intent(AccessKey::DomainOnly, AccessMode::Read)]),
        vec![ord(1), ord(2)],
        "an access that could touch anything waits for every writer"
    );
    assert_eq!(
        g.accept(
            ord(4),
            &[intent(AccessKey::Whole(res(3)), AccessMode::Write)]
        ),
        vec![ord(3)],
        "and a later access to an unrelated backing waits for it"
    );
    assert!(g.census().domain_only_comparisons > 0);
}

#[test]
fn separate_domains_produce_no_hazard_edge() {
    let mut g = DependencyGraph::new();
    let k = AccessKey::Whole(res(1));
    let mut a = intent(k, AccessMode::Write);
    a.domain = ChannelId(1);
    let mut b = intent(k, AccessMode::Read);
    b.domain = ChannelId(2);
    g.accept(ord(1), &[a]);
    assert!(
        g.accept(ord(2), &[b]).is_empty(),
        "the contract leaves separate submission domains unordered"
    );
}

#[test]
fn a_retired_transaction_stops_creating_edges() {
    let mut g = DependencyGraph::new();
    let k = AccessKey::Whole(res(1));
    g.accept(ord(1), &[intent(k, AccessMode::Write)]);
    g.retire(ord(1));
    assert!(g.accept(ord(2), &[intent(k, AccessMode::Read)]).is_empty());
    assert_eq!(g.live_accesses(), 1);
    g.compact();
    assert_eq!(g.live_accesses(), 1, "only the live access survives");
}

#[test]
fn compaction_changes_no_answer_and_no_total() {
    let mut g = DependencyGraph::new();
    let k = AccessKey::Whole(res(1));
    g.accept(ord(1), &[intent(k, AccessMode::Write)]);
    g.accept(ord(2), &[intent(k, AccessMode::Read)]);
    g.retire(ord(1));
    let before = g.census();
    g.compact();
    assert_eq!(g.census(), before);
    assert_eq!(
        g.accept(ord(3), &[intent(k, AccessMode::Write)]),
        vec![ord(2)]
    );
}

#[test]
fn an_unknown_direction_is_charged_to_its_own_counter() {
    let mut g = DependencyGraph::new();
    let k = AccessKey::Whole(res(1));
    g.accept(ord(1), &[intent(k, AccessMode::Read)]);
    assert_eq!(
        g.accept(ord(2), &[intent(k, AccessMode::Unknown)]),
        vec![ord(1)]
    );
    assert_eq!(g.census().edges, 1);
    assert_eq!(g.census().edges_from_unknown_mode, 1);
}

#[test]
fn subresource_windows_that_do_not_overlap_are_independent() {
    let win = |base_level| {
        AccessKey::Subresource(
            res(1),
            SubresourceRange {
                base_level,
                level_count: 1,
                base_slice: 0,
                slice_count: 1,
                plane: 0,
            },
        )
    };
    let mut g = DependencyGraph::new();
    g.accept(ord(1), &[intent(win(0), AccessMode::Write)]);
    assert!(g
        .accept(ord(2), &[intent(win(1), AccessMode::Write)])
        .is_empty());
    assert_eq!(
        g.accept(ord(3), &[intent(win(0), AccessMode::Read)]),
        vec![ord(1)]
    );
}


#[test]
fn one_earlier_transaction_produces_one_edge_however_many_accesses_meet_it() {
    let mut g = DependencyGraph::new();
    g.accept(
        ord(1),
        &[intent(AccessKey::Whole(res(1)), AccessMode::Write)],
    );
    let waits = g.accept(
        ord(2),
        &[
            intent(AccessKey::Whole(res(1)), AccessMode::Read),
            intent(
                AccessKey::Range(
                    res(1),
                    ByteRange {
                        offset: 0,
                        length: 4,
                    },
                ),
                AccessMode::Read,
            ),
        ],
    );
    assert_eq!(waits, vec![ord(1)]);
    assert_eq!(g.census().edges, 1);
}

#[test]
fn a_transaction_never_waits_for_itself() {
    let mut g = DependencyGraph::new();
    let k = AccessKey::Whole(res(1));
    let waits = g.accept(
        ord(1),
        &[intent(k, AccessMode::Write), intent(k, AccessMode::Read)],
    );
    assert!(waits.is_empty());
}
