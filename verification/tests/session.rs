use reims_vgpu_core::access::{AccessIntent, AccessKey, AccessMode, BackingId, ResourceKey};
use reims_vgpu_core::control::{ChannelTransition, ControlOp};
use reims_vgpu_core::identity::{
    ChannelId, ChannelSequence, CompletionStamp, IngressOrdinal, ObjectListRef, ResourceId,
    SessionGeneration, SessionId, SlotGeneration, StampSlot, StampValue, TaskId,
};
use reims_vgpu_core::lifecycle::LifecycleOp;
use reims_vgpu_core::pipeline::{LeaseRefusal, PipelineState, RefusalReason};
use reims_vgpu_core::publish::{Release, RetireRefusal};
use reims_vgpu_core::retire::Validity;
use reims_vgpu_core::session::{ControlRefusal, DeviceState, Packet, Refusal, SessionModel};
use reims_vgpu_core::transaction::{
    Channel, CommandContract, ExecWork, LifecyclePayload, Payload, PayloadClass,
};

fn session() -> SessionModel {
    let mut s = SessionModel::new(SessionId(1));
    s.open_channel(ChannelId(2)).expect("fresh");
    s.open_channel(ChannelId(3)).expect("fresh");
    s
}

fn packet(opcode: u16) -> Packet {
    Packet {
        channel: Channel::Child,
        domain: ChannelId(2),
        session: SessionGeneration::first(),
        opcode,
        stamp_waits: Vec::new(),
        completion: None,
        payload: empty_payload(opcode),
        contract: contract(opcode),
    }
}

#[test]
fn a_refused_admission_takes_no_pipeline_lease() {
    let mut s = SessionModel::new(SessionId(1));
    s.open_channel(ChannelId(2)).expect("fresh");
    let pipe = ResourceId {
        slot: ObjectListRef(9),
        generation: SlotGeneration(1),
    };
    s.pipelines().declare(pipe, SessionGeneration::first());
    let before = s.pipelines().census();

    let mut closed = packet(0x37);
    closed.domain = ChannelId(7);
    if let Payload::Exec(work) = &mut closed.payload {
        work.pipeline_leases.push(pipe);
    }
    assert_eq!(
        s.accept(closed.clone()),
        Err(Refusal::ChannelNotOpen {
            channel: ChannelId(7)
        })
    );
    assert_eq!(s.pipelines().census(), before, "a refusal took a lease");

    let absent = ResourceId {
        slot: ObjectListRef(10),
        generation: SlotGeneration(1),
    };
    let mut partial = packet(0x37);
    if let Payload::Exec(work) = &mut partial.payload {
        work.pipeline_leases.push(pipe);
        work.pipeline_leases.push(absent);
    }
    assert!(matches!(
        s.accept(partial.clone()),
        Err(Refusal::PipelineUnusable(_))
    ));
    assert_eq!(
        s.pipelines().census(),
        before,
        "the pipelines ahead of the refused one were charged"
    );

    let mut good = packet(0x37);
    if let Payload::Exec(work) = &mut good.payload {
        work.pipeline_leases.push(pipe);
    }
    s.accept(good.clone()).expect("open domain, declared pipeline");
    assert_eq!(
        s.pipelines().census().leases_pending,
        before.leases_pending + 1
    );
}

fn contract(opcode: u16) -> CommandContract {
    match opcode {
        0x37 => CommandContract::Established(PayloadClass::Exec),
        0x25 => CommandContract::Established(PayloadClass::ResourceLifecycle),
        0x1e | 0x03 | 0x32 => CommandContract::Established(PayloadClass::Control),
        0x3d => CommandContract::Unestablished,
        _ => CommandContract::Undeclared,
    }
}

fn empty_payload(opcode: u16) -> Payload {
    match contract(opcode) {
        CommandContract::Established(PayloadClass::Exec) => Payload::Exec(ExecWork::default()),
        CommandContract::Established(PayloadClass::ResourceLifecycle) => {
            Payload::ResourceLifecycle(LifecyclePayload {
                op: LifecycleOp::DeleteTask { task: TaskId(1) },
                accesses: Vec::new(),
            })
        }
        _ => Payload::Control(ControlOp::Inert { opcode }),
    }
}

fn touching(mut packet: Packet, accesses: Vec<AccessIntent>) -> Packet {
    match &mut packet.payload {
        Payload::Exec(work) => work.accesses = accesses,
        other => panic!("{:?} is not an EXEC", other),
    }
    packet
}

fn whole(backing: u64, mode: AccessMode) -> AccessIntent {
    AccessIntent {
        domain: ChannelId(2),
        key: AccessKey::Whole(ResourceKey {
            backing: BackingId(backing),
            heap: None,
        }),
        mode,
        api_stages: 0,
        input_content_version: None,
        output_content_version: None,
    }
}

#[test]
fn every_accepted_packet_gets_the_same_envelope() {
    let mut s = session();
    let exec = s.accept(packet(0x37)).expect("EXEC is accepted");
    let delete = s.accept(packet(0x25)).expect("delete is accepted");
    assert_eq!(exec.transaction.class(), PayloadClass::Exec);
    assert_eq!(delete.transaction.class(), PayloadClass::ResourceLifecycle);
    assert_eq!(exec.transaction.identity.ingress, IngressOrdinal(1));
    assert_eq!(delete.transaction.identity.ingress, IngressOrdinal(2));
    assert_eq!(
        exec.transaction.identity.domain_sequence,
        ChannelSequence(1)
    );
    assert_eq!(
        delete.transaction.identity.domain_sequence,
        ChannelSequence(2)
    );
    assert!(SessionModel::executes(exec.transaction.class()));
    assert!(!SessionModel::executes(delete.transaction.class()));
}

#[test]
fn a_payload_that_is_not_its_opcodes_class_is_refused() {
    let mut s = session();
    let mut wrong = packet(0x25);
    wrong.payload = Payload::Exec(ExecWork::default());
    let err = s.accept(wrong.clone()).expect_err("a delete is not an EXEC");
    assert_eq!(
        err,
        Refusal::PayloadMismatch {
            channel: Channel::Child,
            opcode: 0x25,
            declared: PayloadClass::ResourceLifecycle,
            decoded: PayloadClass::Exec,
        }
    );
    assert_eq!(err.slug(), "ingress_payload_mismatch");
    let next = s.accept(packet(0x37)).expect("accepted");
    assert_eq!(next.transaction.identity.ingress, IngressOrdinal(1));
    assert_eq!(
        next.transaction.identity.domain_sequence,
        ChannelSequence(1)
    );
}

#[test]
fn a_transactions_pipeline_waits_are_the_pipelines_it_binds() {
    let mut s = session();
    let pipeline = ResourceId {
        slot: ObjectListRef(9),
        generation: SlotGeneration(1),
    };
    let gen = s.generation();
    s.pipelines().declare(pipeline, gen);

    assert!(s.accept(packet(0x37)).expect("accepted").ready);

    let mut leased = packet(0x37);
    let Payload::Exec(work) = &mut leased.payload else {
        panic!("an EXEC");
    };
    work.pipeline_leases.push(pipeline);
    let admitted = s.accept(leased.clone()).expect("accepted");
    assert!(!admitted.ready, "a pipeline still compiling holds the work");
    assert_eq!(s.scheduler().waiting_on_pipelines(), 1);

    assert!(s.accept(packet(0x1e)).expect("accepted").ready);
    assert_eq!(s.scheduler().waiting_on_pipelines(), 1);
}

#[test]
fn a_pipeline_finishing_releases_the_work_that_was_held_for_it() {
    let mut s = session();
    let pipeline = ResourceId {
        slot: ObjectListRef(9),
        generation: SlotGeneration(1),
    };
    let gen = s.generation();
    s.pipelines().declare(pipeline, gen);
    let mut leased = packet(0x37);
    let Payload::Exec(work) = &mut leased.payload else {
        panic!("an EXEC");
    };
    work.pipeline_leases.push(pipeline);
    let admitted = s.accept(leased.clone()).expect("accepted");
    assert!(!admitted.ready);
    assert!(s.take_ready().is_empty());

    for step in [
        PipelineState::Translating,
        PipelineState::Compiling,
    ] {
        s.pipelines().advance(pipeline, step);
    }
    assert!(
        s.take_ready().is_empty(),
        "a pipeline is not ready until it is"
    );

    assert!(s.pipeline_ready(pipeline));
    assert_eq!(s.take_ready(), vec![admitted.transaction.identity.ingress]);
    assert_eq!(s.scheduler().waiting_on_pipelines(), 0);

    assert!(!s.pipeline_ready(pipeline));
}

#[test]
fn a_pipeline_that_will_never_build_names_the_work_it_stranded() {
    let mut s = session();
    let pipeline = ResourceId {
        slot: ObjectListRef(9),
        generation: SlotGeneration(1),
    };
    let gen = s.generation();
    s.pipelines().declare(pipeline, gen);
    let mut leased = packet(0x37);
    let Payload::Exec(work) = &mut leased.payload else {
        panic!("an EXEC");
    };
    work.pipeline_leases.push(pipeline);
    let admitted = s.accept(leased.clone()).expect("accepted");

    let reason = RefusalReason::CompilationFailed("out of registers");
    assert_eq!(
        s.pipeline_refused(pipeline, reason),
        vec![admitted.transaction.identity.ingress]
    );
    let err = s.accept(leased.clone()).expect_err("it can never run");
    assert_eq!(
        err,
        Refusal::PipelineUnusable(LeaseRefusal::Refused { pipeline, reason })
    );
    assert_eq!(err.slug(), "pipeline_compilation_failed");
}

#[test]
fn work_binding_an_undeclared_pipeline_is_refused_as_absent() {
    let mut s = session();
    let pipeline = ResourceId {
        slot: ObjectListRef(9),
        generation: SlotGeneration(1),
    };
    let mut leased = packet(0x37);
    let Payload::Exec(work) = &mut leased.payload else {
        panic!("an EXEC");
    };
    work.pipeline_leases.push(pipeline);
    let err = s.accept(leased.clone()).expect_err("nothing declared it");
    assert_eq!(
        err,
        Refusal::PipelineUnusable(LeaseRefusal::Absent { pipeline })
    );
    assert_eq!(err.slug(), "pipeline_absent");
    let gen = s.generation();
    s.pipelines().declare(pipeline, gen);
    for step in [
        PipelineState::Translating,
        PipelineState::Compiling,
        PipelineState::Ready,
    ] {
        s.pipelines().advance(pipeline, step);
    }
    let ok = s.accept(leased.clone()).expect("declared and built");
    assert_eq!(ok.transaction.identity.ingress, IngressOrdinal(1));
    assert!(ok.ready, "a pipeline already built is nothing to wait for");
}

#[test]
fn the_accesses_a_transaction_is_ordered_by_are_its_payloads() {
    let mut s = session();
    let w = s
        .accept(touching(packet(0x37), vec![whole(1, AccessMode::Write)]))
        .expect("accepted");
    assert_eq!(w.transaction.accesses(), &[whole(1, AccessMode::Write)]);
    assert_eq!(
        w.transaction.payload.exec().expect("an EXEC").accesses,
        w.transaction.accesses(),
        "the envelope's answer is the payload's, not a copy of it"
    );
    let r = s
        .accept(touching(packet(0x37), vec![whole(1, AccessMode::Read)]))
        .expect("accepted");
    assert_eq!(r.hazard_waits, vec![w.transaction.identity.ingress]);
}

#[test]
fn the_executors_view_of_an_exec_carries_the_identity_admission_assigned() {
    let mut s = session();
    s.accept(packet(0x37)).expect("accepted");
    let second = s.accept(packet(0x37)).expect("accepted").transaction;
    let view = second.exec().expect("an EXEC");
    assert_eq!(view.identity, second.identity);
    assert_eq!(view.ingress(), IngressOrdinal(2));
    assert_eq!(view.domain_sequence(), ChannelSequence(2));
    assert_eq!(view.domain(), ChannelId(2));
    assert!(
        core::ptr::eq(view.work, second.payload.exec().expect("an EXEC")),
        "the view borrows the envelope's work rather than copying it"
    );
    assert!(s
        .accept(packet(0x25))
        .expect("accepted")
        .transaction
        .exec()
        .is_none());
}

#[test]
fn control_transactions_touch_no_resource() {
    let mut s = session();
    for opcode in [0x1e, 0x03, 0x32] {
        let payload = empty_payload(opcode);
        assert_eq!(payload.class(), PayloadClass::Control);
        assert!(payload.accesses().is_empty());
    }
    for opcode in 0..=u16::MAX {
        for op in [ControlOp::Inert { opcode }, ControlOp::Display { opcode }] {
            let payload = Payload::Control(op);
            assert_eq!(payload.class(), PayloadClass::Control);
            assert!(payload.accesses().is_empty(), "opcode {opcode:#x}");
        }
    }
    for transition in [ChannelTransition::Open, ChannelTransition::Free] {
        let payload = Payload::Control(ControlOp::Channel {
            transition,
            domain: ChannelId(9),
        });
        assert_eq!(payload.class(), PayloadClass::Control);
        assert!(payload.accesses().is_empty());
    }
    let w = s
        .accept(touching(packet(0x37), vec![whole(1, AccessMode::Write)]))
        .expect("accepted");
    let nop = s.accept(packet(0x1e)).expect("CmdNOP is accepted");
    assert!(
        nop.hazard_waits.is_empty(),
        "a control packet waits for nothing it does not touch"
    );
    assert!(w.transaction.accesses().len() == 1);
}

#[test]
fn a_command_with_no_established_contract_never_becomes_a_transaction() {
    let mut s = session();
    let err = s.accept(packet(0x3d)).expect_err("unresolved is refused");
    assert!(matches!(err, Refusal::UnestablishedContract { .. }));
    assert_eq!(err.slug(), "ingress_unestablished_contract");
    let err = s.accept(packet(0x1d)).expect_err("undeclared is refused");
    assert!(matches!(err, Refusal::UnknownCommand { .. }));
    assert_eq!(s.refusals(), 2);
}

#[test]
fn a_refusal_consumes_no_ordinal_and_no_sequence() {
    let mut s = session();
    s.accept(packet(0x37)).expect("accepted");
    s.accept(packet(0x3d)).expect_err("refused");
    let next = s.accept(packet(0x37)).expect("accepted");
    assert_eq!(next.transaction.identity.ingress, IngressOrdinal(2));
    assert_eq!(
        next.transaction.identity.domain_sequence,
        ChannelSequence(2)
    );
}

#[test]
fn two_domains_keep_separate_sequences_in_one_arrival_order() {
    let mut s = session();
    let mut a = packet(0x37);
    a.domain = ChannelId(2);
    let mut b = packet(0x37);
    b.domain = ChannelId(3);
    let first = s.accept(a.clone()).expect("accepted");
    let second = s.accept(b.clone()).expect("accepted");
    let third = s.accept(a.clone()).expect("accepted");
    assert_eq!(
        [
            first.transaction.identity.ingress,
            second.transaction.identity.ingress,
            third.transaction.identity.ingress
        ],
        [IngressOrdinal(1), IngressOrdinal(2), IngressOrdinal(3)]
    );
    assert_eq!(
        second.transaction.identity.domain_sequence,
        ChannelSequence(1)
    );
    assert_eq!(
        third.transaction.identity.domain_sequence,
        ChannelSequence(2)
    );
}

#[test]
fn hazards_and_completion_travel_together() {
    let mut s = session();
    let mut writer = touching(packet(0x37), vec![whole(1, AccessMode::Write)]);
    writer.completion = Some(CompletionStamp {
        slot: StampSlot(0),
        value: StampValue(1),
    });
    let reader = touching(packet(0x37), vec![whole(1, AccessMode::Read)]);

    let w = s.accept(writer.clone()).expect("accepted");
    assert!(w.ready);
    let r = s.accept(reader.clone()).expect("accepted");
    assert!(!r.ready);
    assert_eq!(r.hazard_waits, vec![w.transaction.identity.ingress]);
    assert_eq!(s.take_ready(), vec![w.transaction.identity.ingress]);

    let released = s.complete(w.transaction.identity.ingress);
    assert_eq!(s.take_ready(), vec![r.transaction.identity.ingress]);
    assert_eq!(
        released,
        vec![Release {
            sequence: ChannelSequence(1),
            stamp: writer.completion,
        }],
        "it was its channel's head, so its stamp published at once"
    );
    assert_eq!(
        s.scheduler().published_value(StampSlot(0)),
        Some(StampValue(1)),
        "and a packet waiting on that word may now run"
    );
    let later = touching(packet(0x37), vec![whole(1, AccessMode::Write)]);
    let l = s.accept(later.clone()).expect("accepted");
    assert_eq!(l.hazard_waits, vec![r.transaction.identity.ingress]);
}

#[test]
fn a_withdrawn_transaction_stops_ordering_the_work_behind_it() {
    let mut s = session();
    let doomed = touching(packet(0x37), vec![whole(1, AccessMode::Write)]);
    let after = touching(packet(0x37), vec![whole(1, AccessMode::Write)]);

    let d = s.accept(doomed.clone()).expect("accepted");
    let a = s.accept(after.clone()).expect("accepted");
    assert!(!a.ready, "it waits on the one before it");
    assert_eq!(a.hazard_waits, vec![d.transaction.identity.ingress]);
    assert_eq!(s.take_ready(), vec![d.transaction.identity.ingress]);

    s.withdraw(d.transaction.identity.ingress);
    assert_eq!(
        s.take_ready(),
        vec![a.transaction.identity.ingress],
        "the hazard it held is released, not left on an ordinal nothing completes"
    );
    assert_eq!(s.scheduler().pending(), 1, "and it is no longer pending");

    let l = s
        .accept(touching(packet(0x37), vec![whole(1, AccessMode::Write)]))
        .expect("accepted");
    assert_eq!(l.hazard_waits, vec![a.transaction.identity.ingress]);
}

#[test]
fn a_withdrawal_publishes_what_was_behind_it_and_not_its_own_word() {
    let mut s = session();
    let mut doomed = packet(0x37);
    doomed.completion = Some(CompletionStamp {
        slot: StampSlot(0),
        value: StampValue(1),
    });
    let mut behind = packet(0x37);
    behind.completion = Some(CompletionStamp {
        slot: StampSlot(0),
        value: StampValue(2),
    });
    let d = s.accept(doomed.clone()).expect("accepted");
    let b = s.accept(behind.clone()).expect("accepted");
    assert!(s.complete(b.transaction.identity.ingress).is_empty());

    assert_eq!(
        s.withdraw(d.transaction.identity.ingress)
            .into_iter()
            .map(|r| r.stamp)
            .collect::<Vec<_>>(),
        vec![behind.completion],
        "only the word behind it"
    );
    assert_eq!(
        s.scheduler().published_value(StampSlot(0)),
        Some(StampValue(2))
    );
}

#[test]
fn a_channel_publishes_in_its_own_order_however_the_work_finishes() {
    let mut s = session();
    let mut first = packet(0x37);
    first.completion = Some(CompletionStamp {
        slot: StampSlot(0),
        value: StampValue(1),
    });
    let mut second = packet(0x37);
    second.completion = Some(CompletionStamp {
        slot: StampSlot(0),
        value: StampValue(2),
    });
    let a = s.accept(first.clone()).expect("accepted");
    let b = s.accept(second.clone()).expect("accepted");

    assert!(
        s.complete(b.transaction.identity.ingress).is_empty(),
        "the second position finished first and published nothing"
    );
    assert_eq!(
        s.scheduler().published_value(StampSlot(0)),
        None,
        "a guest polling that word must not see the later value first"
    );
    assert_eq!(
        s.publisher().blocked(),
        vec![(ChannelId(2), 1)],
        "and the cost of holding it is counted"
    );
    assert_eq!(
        s.complete(a.transaction.identity.ingress)
            .into_iter()
            .map(|r| r.stamp)
            .collect::<Vec<_>>(),
        vec![first.completion, second.completion],
        "the head finishing publishes both, in channel order"
    );
}

#[test]
fn withdrawing_a_head_releases_what_was_queued_behind_it() {
    let mut s = session();
    let mut second = packet(0x37);
    second.completion = Some(CompletionStamp {
        slot: StampSlot(0),
        value: StampValue(2),
    });
    let a = s.accept(packet(0x37)).expect("accepted");
    let b = s.accept(second.clone()).expect("accepted");
    assert!(s.complete(b.transaction.identity.ingress).is_empty());
    assert_eq!(
        s.withdraw(a.transaction.identity.ingress)
            .into_iter()
            .map(|r| r.stamp)
            .collect::<Vec<_>>(),
        vec![second.completion]
    );
    assert_eq!(
        s.scheduler().published_value(StampSlot(0)),
        Some(StampValue(2))
    );
}

#[test]
fn a_channel_with_unpublished_work_cannot_end_its_lifetime() {
    let mut s = session();
    let a = s.accept(packet(0x37)).expect("accepted");
    assert_eq!(
        s.retire_channel(ChannelId(2)),
        Err(RetireRefusal::LivePositions { outstanding: 1 })
    );
    s.complete(a.transaction.identity.ingress);
    assert_eq!(s.retire_channel(ChannelId(2)), Ok(()));
    assert!(
        !s.channel_open(ChannelId(2)),
        "a freed channel stops being nameable"
    );
    assert_eq!(
        s.accept(packet(0x37)),
        Err(Refusal::ChannelNotOpen {
            channel: ChannelId(2)
        }),
        "and a packet naming it is refused rather than reopening it"
    );
    s.open_channel(ChannelId(2)).expect("free again");
    let next = s.accept(packet(0x37)).expect("accepted");
    assert_eq!(
        next.transaction.identity.domain_sequence,
        ChannelSequence(1)
    );
}

#[test]
fn a_guests_channel_commands_open_and_end_the_domain_it_then_submits_on() {
    const DEFINE: u16 = 0x30;
    const FREE: u16 = 0x31;
    let mut s = SessionModel::new(SessionId(1));
    s.open_channel(ChannelId(0)).expect("the root ring");

    let domain = ChannelId(2).0.to_le_bytes();
    let define = reims_vgpu_core::control::resolve(Channel::Root, DEFINE, &domain).expect("a definition");
    let free = reims_vgpu_core::control::resolve(Channel::Root, FREE, &domain).expect("a free");

    assert_eq!(
        s.accept(packet(0x37)),
        Err(Refusal::ChannelNotOpen {
            channel: ChannelId(2)
        })
    );
    assert_eq!(s.apply_control(define), Ok(()));
    assert!(s.channel_open(ChannelId(2)));
    let admitted = s.accept(packet(0x37)).expect("the domain is open now");

    assert_eq!(
        s.apply_control(free),
        Err(ControlRefusal::Free(RetireRefusal::LivePositions {
            outstanding: 1
        }))
    );
    assert!(s.channel_open(ChannelId(2)));

    s.complete(admitted.transaction.identity.ingress);
    assert_eq!(s.apply_control(free), Ok(()));
    assert_eq!(
        s.accept(packet(0x37)),
        Err(Refusal::ChannelNotOpen {
            channel: ChannelId(2)
        }),
        "the lifetime the guest ended is over"
    );
}

#[test]
fn a_second_definition_of_a_live_domain_is_refused() {
    let mut s = session();
    let domain = ChannelId(2).0.to_le_bytes();
    let define = reims_vgpu_core::control::resolve(Channel::Root, 0x30, &domain).expect("a definition");
    assert_eq!(
        s.apply_control(define),
        Err(ControlRefusal::Open(Refusal::ChannelAlreadyOpen {
            channel: ChannelId(2)
        }))
    );
    assert_eq!(
        s.apply_control(define).unwrap_err().slug(),
        "ingress_channel_already_open"
    );
}

#[test]
fn only_the_two_channel_commands_change_what_this_model_holds() {
    for channel in [Channel::Root, Channel::Child] {
        for opcode in 0..=0xffu16 {
            if reims_vgpu_core::control::resolve(channel, opcode, &[0u8; 8]).is_ok() {
                assert!(channel == Channel::Root && (opcode == 0x30 || opcode == 0x31));
                continue;
            }
            for op in [ControlOp::Inert { opcode }, ControlOp::Display { opcode }] {
                let mut s = session();
                let before = (s.channel_open(ChannelId(2)), s.channel_open(ChannelId(3)));
                assert_eq!(s.apply_control(op), Ok(()));
                assert_eq!(
                    (s.channel_open(ChannelId(2)), s.channel_open(ChannelId(3))),
                    before,
                    "{:#x} moved a channel",
                    opcode
                );
            }
        }
    }
}

#[test]
fn a_packet_on_an_undefined_channel_is_refused_and_consumes_nothing() {
    let mut s = SessionModel::new(SessionId(1));
    let before = s.refusals();
    assert_eq!(
        s.accept(packet(0x37)),
        Err(Refusal::ChannelNotOpen {
            channel: ChannelId(2)
        })
    );
    assert_eq!(s.refusals(), before + 1);
    s.open_channel(ChannelId(2)).expect("fresh");
    let first = s.accept(packet(0x37)).expect("accepted");
    assert_eq!(
        first.transaction.identity.ingress,
        IngressOrdinal(0).next(),
        "the refused packet consumed no ordinal"
    );
    assert_eq!(
        first.transaction.identity.domain_sequence,
        ChannelSequence(1)
    );
}

#[test]
fn a_channel_is_defined_once() {
    let mut s = session();
    assert_eq!(
        s.open_channel(ChannelId(2)),
        Err(Refusal::ChannelAlreadyOpen {
            channel: ChannelId(2)
        })
    );
}

#[test]
fn a_guest_reset_and_a_device_loss_move_different_lifetimes() {
    let mut s = session();
    let start = s.lifetime();

    s.reset();
    assert_eq!(
        s.epoch(),
        start.epoch,
        "a guest reset says nothing about the host device, which may be \
         perfectly healthy"
    );
    assert_ne!(s.generation(), start.session);
    assert_eq!(s.device_state(), DeviceState::Live);

    let after_reset = s.lifetime();
    let died = s.device_lost();
    assert_eq!(
        died.epoch, after_reset.epoch,
        "the epoch that died is named"
    );
    assert!(died.stranded.is_empty(), "nothing was admitted");
    assert_eq!(
        s.generation(),
        after_reset.session,
        "the guest has not reset; it still names what it named"
    );
    assert_eq!(s.device_state(), DeviceState::Lost);

    let replacement = s.recreate_device().expect("lost, so replaceable");
    assert_ne!(replacement, died.epoch);
    assert_eq!(s.generation(), after_reset.session);
}

#[test]
fn a_device_loss_strands_the_work_admitted_into_it_and_names_it() {
    let mut s = session();
    let mut first = touching(packet(0x37), vec![whole(1, AccessMode::Write)]);
    first.completion = Some(CompletionStamp {
        slot: StampSlot(0),
        value: StampValue(1),
    });
    let mut second = touching(packet(0x37), vec![whole(1, AccessMode::Write)]);
    second.completion = Some(CompletionStamp {
        slot: StampSlot(0),
        value: StampValue(2),
    });
    let a = s.accept(first.clone()).expect("accepted");
    let b = s.accept(second.clone()).expect("accepted");
    assert_eq!(s.scheduler().pending(), 2);

    let loss = s.device_lost();
    assert_eq!(loss.epoch, s.epoch());
    assert_eq!(
        loss.stranded,
        vec![
            a.transaction.identity.ingress,
            b.transaction.identity.ingress
        ],
        "in ingress order, so a report reads in the order the guest sent them"
    );
    assert!(
        loss.released.is_empty(),
        "neither had completed, so no word was owed behind them"
    );
    assert_eq!(s.scheduler().pending(), 0);
    assert_eq!(
        s.scheduler().published_value(StampSlot(0)),
        None,
        "work that never ran publishes no word the guest could act on"
    );

    s.recreate_device().expect("lost");
    let next = s.accept(first.clone()).expect("accepted");
    assert!(
        next.hazard_waits.is_empty(),
        "the dead epoch's accesses no longer order anything"
    );
    assert!(next.ready);
}

#[test]
fn a_loss_releases_a_word_that_was_waiting_behind_the_work_it_stranded() {
    let mut s = session();
    let mut head = packet(0x37);
    head.completion = Some(CompletionStamp {
        slot: StampSlot(0),
        value: StampValue(1),
    });
    let mut behind = packet(0x37);
    behind.completion = Some(CompletionStamp {
        slot: StampSlot(0),
        value: StampValue(2),
    });
    let h = s.accept(head.clone()).expect("accepted");
    let b = s.accept(behind.clone()).expect("accepted");
    assert!(s.complete(b.transaction.identity.ingress).is_empty());

    let loss = s.device_lost();
    assert_eq!(loss.stranded, vec![h.transaction.identity.ingress]);
    assert_eq!(
        loss.released
            .into_iter()
            .map(|r| r.stamp)
            .collect::<Vec<_>>(),
        vec![behind.completion]
    );
    assert_eq!(
        s.scheduler().published_value(StampSlot(0)),
        Some(StampValue(2))
    );
}

#[test]
fn a_lost_device_refuses_admission_until_it_is_replaced() {
    let mut s = session();
    let epoch = s.device_lost().epoch;
    assert_eq!(
        s.accept(packet(0x37)),
        Err(Refusal::DeviceLost { epoch }),
        "ordering and completion cannot be promised on a device that is \
         not there"
    );
    assert_eq!(s.refusals(), 1);
    s.recreate_device().expect("lost");
    assert!(s.accept(packet(0x37)).is_ok());
}

#[test]
fn a_live_device_cannot_be_replaced() {
    let mut s = session();
    assert_eq!(
        s.recreate_device(),
        Err(Refusal::DeviceNotLost { epoch: s.epoch() }),
        "a replacement made while the device is live would orphan every \
         lease against a device still able to execute them"
    );
}

#[test]
fn a_lease_from_before_both_transitions_is_judged_on_both() {
    let mut s = session();
    let lease = s.lifetime();
    assert_eq!(lease.against(s.generation(), s.epoch()), Validity::Live);

    s.reset();
    let after = lease.against(s.generation(), s.epoch());
    assert!(!after.admits_new_work(), "the guest may not name it");
    assert!(
        after.handles_usable(),
        "and the submission the host is still executing must finish"
    );

    assert!(
        s.device_lost().stranded.is_empty(),
        "this test admitted nothing"
    );
    s.recreate_device().expect("lost");
    assert_eq!(lease.against(s.generation(), s.epoch()), Validity::Gone);
}

#[test]
fn one_sessions_reset_or_loss_cannot_reach_another_session() {
    let mut a = session();
    let mut b = SessionModel::new(SessionId(2));
    b.open_channel(ChannelId(2)).expect("fresh");
    let untouched = b.lifetime();
    let admitted = b.accept(packet(0x37)).expect("accepted");

    a.reset();
    assert!(
        a.device_lost().stranded.is_empty(),
        "the other session's work is not this one's to strand"
    );
    a.recreate_device().expect("lost");

    assert_eq!(b.lifetime(), untouched);
    assert_eq!(b.device_state(), DeviceState::Live);
    assert_eq!(untouched.against(b.generation(), b.epoch()), Validity::Live);
    assert!(b.accept(packet(0x37)).is_ok());
    assert!(!b.complete(admitted.transaction.identity.ingress).is_empty());
}

#[test]
fn a_reset_opens_a_generation_without_abandoning_accepted_work() {
    let mut s = session();
    let writer = touching(packet(0x37), vec![whole(1, AccessMode::Write)]);
    let w = s.accept(writer.clone()).expect("accepted");
    let before = s.generation();
    let after = s.reset();
    assert!(after > before);
    assert_eq!(s.scheduler().pending(), 1);
    let mut reader = touching(packet(0x37), vec![whole(1, AccessMode::Read)]);
    reader.session = after;
    let r = s.accept(reader.clone()).expect("accepted");
    assert_eq!(r.transaction.identity.session, after);
    assert_eq!(r.hazard_waits, vec![w.transaction.identity.ingress]);
}

#[test]
fn a_packet_read_before_a_reset_is_refused_after_it() {
    let mut s = session();
    let stale = packet(0x37);
    let closed = s.generation();
    let current = s.reset();
    let err = s.accept(stale.clone()).expect_err("its lifetime is over");
    assert_eq!(
        err,
        Refusal::GenerationClosed {
            named: closed,
            current,
        }
    );
    assert_eq!(err.slug(), "ingress_generation_closed");
    let mut fresh = packet(0x37);
    fresh.session = current;
    assert_eq!(
        s.accept(fresh.clone())
            .expect("accepted")
            .transaction
            .identity
            .ingress,
        IngressOrdinal(1)
    );
}

#[test]
fn a_session_carries_the_identity_it_was_created_with() {
    let s = SessionModel::new(SessionId(4));
    assert_eq!(s.id(), SessionId(4));
    assert_eq!(s.generation(), SessionGeneration::first());
}

#[test]
fn the_acknowledged_noops_are_transactions_like_any_other() {
    let mut s = session();
    for opcode in [0x1e, 0x03, 0x32] {
        let t = s.accept(packet(opcode)).expect("accepted");
        assert_eq!(t.transaction.class(), PayloadClass::Control);
        assert!(t.ready);
    }
}

#[test]
fn a_new_session_has_met_no_hazard_and_released_nothing() {
    let s = SessionModel::new(SessionId(4));
    let census = s.graph().census();
    assert_eq!(census.accesses, 0);
    assert_eq!(census.edges, 0);
    assert_eq!(census.by_rung, [0, 0, 0]);
    assert_eq!(census.domain_only_comparisons, 0);
    assert_eq!(census.edges_from_unknown_mode, 0);
    assert_eq!(s.publisher().released(), 0);
}

#[test]
fn a_device_loss_counts_the_words_it_released() {
    let mut s = session();
    let mut sent = Vec::new();
    for value in 1..=3u32 {
        let mut p = packet(0x37);
        p.completion = Some(CompletionStamp {
            slot: StampSlot(0),
            value: StampValue(value),
        });
        sent.push(s.accept(p).expect("accepted").transaction.identity.ingress);
    }
    assert!(s.complete(sent[1]).is_empty());
    assert!(s.complete(sent[2]).is_empty());
    assert_eq!(s.publisher().released(), 0);
    let loss = s.device_lost();
    assert_eq!(loss.released.len(), 2, "both were behind the stranded head");
    assert_eq!(s.publisher().released(), 2);
}
