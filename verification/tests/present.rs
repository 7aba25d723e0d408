use reims_vgpu_core::identity::{
    CompletionStamp, IngressOrdinal, MappingId, StampSlot, StampValue, TaskId, TimelinePoint,
};
use reims_vgpu_core::present::{
    Admission, Order, Phase, PresentForm, PresentPacket, PresentRequest, PresentStream, Refusal,
    ResolveRefusal, SwapchainGeneration, Ticket, TrailerRefusal, resolve,
};
use reims_vgpu_core::transaction::Channel;

fn present_bytes(form: PresentForm, mapping: u32, task: u32) -> Vec<u8> {
    let mut out = vec![0u8; form.trailer_len()];
    out[0..4].copy_from_slice(&0xDEADu32.to_le_bytes());
    let t = form.target_offset();
    out[t..t + 4].copy_from_slice(&mapping.to_le_bytes());
    if let Some(k) = form.task_offset() {
        out[k..k + 4].copy_from_slice(&task.to_le_bytes());
    }
    out
}

#[test]
fn a_present_payload_becomes_what_the_guest_asked_to_show() {
    for (channel, opcode, form) in [
        (Channel::Child, 0x06u16, PresentForm::Transaction2),
        (Channel::Child, 0x07, PresentForm::Transaction3),
        (Channel::Child, 0x08, PresentForm::SwapMapping),
    ] {
        let bytes = present_bytes(form, 0x5e, 0x77);
        assert_eq!(
            resolve(channel, opcode, &bytes),
            Ok(PresentPacket {
                form,
                mapping: MappingId(0x5e),
                task: form.names_a_task().then_some(TaskId(0x77)),
            }),
            "{}",
            form.name()
        );
    }
}

#[test]
fn no_form_reads_another_forms_slots() {
    let mut two = present_bytes(PresentForm::Transaction2, 0x5e, 0x77);
    two.resize(PresentForm::Transaction3.trailer_len(), 0);
    assert_eq!(
        resolve(Channel::Child, 0x07, &two).expect("long enough"),
        PresentPacket {
            form: PresentForm::Transaction3,
            mapping: MappingId(0x77),
            task: Some(TaskId(0x5e)),
        },
        "reading op6's payload as op7 must swap the two, not agree with it"
    );
    let swap = present_bytes(PresentForm::SwapMapping, 0x5e, 0);
    assert_eq!(
        resolve(Channel::Child, 0x08, &swap)
            .expect("long enough")
            .task,
        None
    );
}

#[test]
fn a_present_of_nothing_is_a_well_formed_present() {
    let bytes = present_bytes(PresentForm::SwapMapping, 0, 0);
    assert_eq!(
        resolve(Channel::Child, 0x08, &bytes)
            .expect("well formed")
            .mapping,
        MappingId(0)
    );
}

#[test]
fn a_present_too_short_for_its_trailer_is_refused() {
    for (opcode, form) in [
        (0x06u16, PresentForm::Transaction2),
        (0x07, PresentForm::Transaction3),
        (0x08, PresentForm::SwapMapping),
    ] {
        let need = form.trailer_len();
        let bytes = present_bytes(form, 0x5e, 0x77);
        let refusal = resolve(Channel::Child, opcode, &bytes[..need - 1])
            .expect_err("one byte under its trailer");
        assert_eq!(
            refusal,
            ResolveRefusal::Payload(TrailerRefusal::Short {
                have: need - 1,
                need,
            }),
            "{}",
            form.name()
        );
        assert_eq!(refusal.slug(), "display_present_short");
    }
}

#[test]
fn a_packet_that_is_not_a_present_does_not_resolve_to_one() {
    for channel in [Channel::Root, Channel::Child] {
        for opcode in 0..=0xffffu16 {
            if PresentForm::of(channel, opcode).is_some() {
                continue;
            }
            assert_eq!(
                resolve(channel, opcode, &[0u8; 64]),
                Err(ResolveRefusal::NotPresent { channel, opcode })
            );
        }
    }
}

#[test]
fn every_present_packet_has_exactly_one_form() {
    let mut seen: Vec<PresentForm> = Vec::new();
    for channel in [Channel::Root, Channel::Child] {
        for opcode in 0..=0xffffu16 {
            if let Some(form) = PresentForm::of(channel, opcode) {
                assert!(!seen.contains(&form), "{} is two packets' form", form.name());
                seen.push(form);
            }
        }
    }
    assert_eq!(seen.len(), 3, "the three present forms");
}

fn at(n: u64) -> TimelinePoint {
    TimelinePoint(n)
}

fn present(stream: &mut PresentStream) -> Ticket {
    let ticket = stream.acquire().expect("an image");
    stream.ready(&ticket).expect("acquired");
    stream.queue(&ticket).expect("at the head");
    ticket
}

#[test]
fn the_returned_image_count_bounds_the_stream_and_the_request_does_not() {
    let mut s = PresentStream::new(Order::Fifo);
    s.configure(3, 2);
    assert_eq!(s.requested_depth(), Some(3));
    assert_eq!(s.images(), Some(2));

    let first = s.acquire().expect("first of two");
    let second = s.acquire().expect("second of two");
    assert_ne!(first.image, second.image, "two frames, two images");
    assert_eq!(
        s.acquire(),
        Err(Refusal::NoFreeImage { images: 2 }),
        "three were asked for and two were given; two is the bound"
    );
    assert_eq!(s.census().2, 1);
}

#[test]
fn an_unconfigured_stream_has_nothing_to_acquire_from() {
    let mut s = PresentStream::new(Order::Fifo);
    assert_eq!(s.acquire(), Err(Refusal::NotConfigured));
}

#[test]
fn a_presented_frame_returns_its_image_to_the_stream() {
    let mut s = PresentStream::new(Order::Fifo);
    s.configure(2, 2);
    let first = present(&mut s);
    let image = first.image;
    s.complete(&first).expect("queued");
    assert_eq!(s.in_flight(), 0, "the frame is shown and holds nothing");

    let a = s.acquire().expect("free");
    let b = s.acquire().expect("free");
    assert!([a.image, b.image].contains(&image), "the image came back");
    assert_eq!(s.census().0, 1);
}

#[test]
fn a_frame_cannot_be_queued_before_it_is_drawn() {
    let mut s = PresentStream::new(Order::Fifo);
    s.configure(1, 1);
    let ticket = s.acquire().expect("an image");
    assert_eq!(s.phase(&ticket), Some(Phase::AcquirePending));
    assert_eq!(
        s.queue(&ticket),
        Err(Refusal::WrongPhase {
            at: Phase::AcquirePending,
            expected: Phase::Ready
        })
    );
    s.ready(&ticket).expect("acquired");
    assert_eq!(
        s.ready(&ticket),
        Err(Refusal::WrongPhase {
            at: Phase::Ready,
            expected: Phase::AcquirePending
        }),
        "and it cannot be drawn twice"
    );
    s.queue(&ticket).expect("ready");
    assert_eq!(s.phase(&ticket), Some(Phase::Queued));
}

#[test]
fn a_frame_cannot_be_completed_before_it_is_queued() {
    let mut s = PresentStream::new(Order::Fifo);
    s.configure(1, 1);
    let ticket = s.acquire().expect("an image");
    assert_eq!(
        s.complete(&ticket),
        Err(Refusal::WrongPhase {
            at: Phase::AcquirePending,
            expected: Phase::Queued
        })
    );
}

#[test]
fn fifo_refuses_to_present_a_later_frame_first() {
    let mut s = PresentStream::new(Order::Fifo);
    s.configure(2, 2);
    let first = s.acquire().expect("an image");
    let second = s.acquire().expect("an image");
    s.ready(&second).expect("acquired");
    assert_eq!(
        s.queue(&second),
        Err(Refusal::OutOfOrder {
            head: first.sequence,
            named: second.sequence
        }),
        "a reordered frame is one the guest cannot account for"
    );
}

#[test]
fn a_superseding_stream_reports_every_frame_it_dropped() {
    let mut s = PresentStream::new(Order::Superseding);
    s.configure(3, 3);
    let first = s.acquire().expect("an image");
    let second = s.acquire().expect("an image");
    let third = s.acquire().expect("an image");
    s.ready(&third).expect("acquired");
    assert_eq!(
        s.queue(&third).expect("superseding"),
        vec![first.sequence, second.sequence],
        "the caller owes the guest these two"
    );
    assert_eq!(s.census().1, 2);
    assert_eq!(
        s.complete(&first),
        Err(Refusal::Superseded { by: 3 }),
        "a dropped frame does not complete"
    );
    s.complete(&third).expect("queued");
    assert_eq!(s.in_flight(), 0);
}

#[test]
fn replacing_a_swapchain_defers_it_to_its_last_use() {
    let mut s = PresentStream::new(Order::Fifo);
    s.configure(2, 2);
    let old = present(&mut s);

    let retired = s.replace(2, 3, at(40));
    assert_eq!(retired.generation, SwapchainGeneration::first());
    assert_eq!(s.generation(), SwapchainGeneration::first().next());
    assert_eq!(s.images(), Some(3));
    assert_eq!(s.in_flight(), 0, "frames of a gone swapchain are gone");

    assert_eq!(
        s.complete(&old),
        Err(Refusal::StaleGeneration {
            named: SwapchainGeneration::first(),
            current: SwapchainGeneration::first().next(),
        }),
        "a ticket from before the resize names a swapchain that is gone"
    );

    assert!(
        s.reached(at(39)).is_empty(),
        "submitted work is still reading its images"
    );
    assert_eq!(s.awaiting_retirement(), 1);
    assert_eq!(s.reached(at(40)), vec![retired]);
    assert_eq!(s.awaiting_retirement(), 0);
}

#[test]
fn several_retired_swapchains_come_back_in_order() {
    let mut s = PresentStream::new(Order::Fifo);
    s.configure(2, 2);
    let first = s.replace(2, 2, at(10));
    let second = s.replace(2, 2, at(5));
    assert_eq!(s.reached(at(7)), vec![second]);
    assert_eq!(s.reached(at(10)), vec![first]);
}

#[test]
fn backpressure_is_a_refusal_and_never_a_wait() {
    let mut s = PresentStream::new(Order::Fifo);
    s.configure(1, 1);
    let held = s.acquire().expect("an image");
    for _ in 0..8 {
        assert_eq!(s.acquire(), Err(Refusal::NoFreeImage { images: 1 }));
    }
    assert_eq!(s.census().2, 8, "eight refusals and not one wait");
    s.ready(&held).expect("acquired");
    s.queue(&held).expect("at the head");
    s.complete(&held).expect("queued");
    s.acquire().expect("the image came back");
}

fn request(ingress: u64) -> PresentRequest {
    PresentRequest {
        ingress: IngressOrdinal(ingress),
        stamp: Some(CompletionStamp {
            slot: StampSlot(1),
            value: StampValue(ingress as u32),
        }),
    }
}

#[test]
fn a_present_with_no_image_parks_and_wakes_in_arrival_order() {
    let mut s = PresentStream::new(Order::Fifo);
    s.configure(2, 2);
    let mut tickets = Vec::new();
    for i in 0..2 {
        let Admission::Acquired { ticket, .. } = s.submit(request(i)) else {
            panic!("an image was free");
        };
        tickets.push(ticket);
    }
    assert_eq!(s.submit(request(2)), Admission::Parked { ahead: 0 });
    assert_eq!(s.submit(request(3)), Admission::Parked { ahead: 1 });
    assert_eq!(s.parked(), 2);
    assert!(s.wake().is_empty(), "no image has been released yet");

    s.ready(&tickets[0]).expect("drawn");
    s.queue(&tickets[0]).expect("head of the order");
    s.complete(&tickets[0]).expect("shown");
    let woken = s.wake();
    assert_eq!(woken.len(), 1, "one image freed, one present woken");
    assert_eq!(woken[0].0, request(2), "the one that asked first");
    assert_eq!(s.parked(), 1);
    s.ready(&tickets[1]).expect("drawn");
    s.queue(&tickets[1]).expect("head of the order now");
    s.complete(&tickets[1]).expect("shown");
    assert_eq!(s.wake()[0].0, request(3));
    assert_eq!(s.parked(), 0);
}

#[test]
fn a_present_never_overtakes_one_already_parked() {
    let mut s = PresentStream::new(Order::Fifo);
    s.configure(1, 1);
    let Admission::Acquired { ticket, .. } = s.submit(request(0)) else {
        panic!("the first image was free");
    };
    assert_eq!(s.submit(request(1)), Admission::Parked { ahead: 0 });
    s.ready(&ticket).expect("drawn");
    s.queue(&ticket).expect("head");
    s.complete(&ticket).expect("shown");
    assert_eq!(s.submit(request(2)), Admission::Parked { ahead: 1 });
    let woken = s.wake();
    assert_eq!(woken.len(), 1);
    assert_eq!(woken[0].0, request(1), "the older request took the image");
}

#[test]
fn a_full_surface_does_not_hold_another_ones_presents() {
    let mut slow = PresentStream::new(Order::Fifo);
    slow.configure(1, 1);
    let mut fast = PresentStream::new(Order::Fifo);
    fast.configure(2, 2);
    let Admission::Acquired { .. } = slow.submit(request(0)) else {
        panic!("the first image was free");
    };
    assert_eq!(slow.submit(request(1)), Admission::Parked { ahead: 0 });
    assert!(matches!(
        fast.submit(request(2)),
        Admission::Acquired { .. }
    ));
    assert_eq!(fast.parked(), 0);
}

#[test]
fn parked_presents_survive_a_swapchain_replacement() {
    let mut s = PresentStream::new(Order::Fifo);
    s.configure(1, 1);
    let Admission::Acquired { ticket, .. } = s.submit(request(0)) else {
        panic!("the first image was free");
    };
    assert_eq!(s.submit(request(1)), Admission::Parked { ahead: 0 });
    let retired = s.replace(3, 3, at(7));
    assert_eq!(retired.generation, SwapchainGeneration::first());
    assert_eq!(
        s.phase(&ticket),
        None,
        "the in-flight frame belonged to a swapchain that is gone"
    );
    let woken = s.wake();
    assert_eq!(woken.len(), 1, "the parked present takes a new image");
    assert_eq!(woken[0].0, request(1));
    assert_eq!(woken[0].1.generation, SwapchainGeneration::first().next());
}

#[test]
fn a_present_with_no_swapchain_is_not_parked() {
    let mut s = PresentStream::new(Order::Fifo);
    assert_eq!(s.submit(request(0)), Admission::NotConfigured);
    assert_eq!(
        s.parked(),
        0,
        "parking would be waiting for a swapchain that does not exist"
    );
}

#[test]
fn abandoning_parked_presents_hands_them_back() {
    let mut s = PresentStream::new(Order::Fifo);
    s.configure(1, 1);
    let Admission::Acquired { .. } = s.submit(request(0)) else {
        panic!("the first image was free");
    };
    assert_eq!(s.submit(request(1)), Admission::Parked { ahead: 0 });
    assert_eq!(s.submit(request(2)), Admission::Parked { ahead: 1 });
    assert_eq!(s.abandon_parked(), vec![request(1), request(2)]);
    assert_eq!(s.parked(), 0);
}

#[test]
fn waking_an_empty_queue_is_not_backpressure() {
    let mut s = PresentStream::new(Order::Fifo);
    s.configure(1, 1);
    let Admission::Acquired { ticket, .. } = s.submit(request(0)) else {
        panic!("the first image was free");
    };
    assert_eq!(s.submit(request(1)), Admission::Parked { ahead: 0 });
    assert_eq!(s.census().2, 1, "one frame waited");
    for _ in 0..10 {
        assert!(s.wake().is_empty());
    }
    assert_eq!(s.census().2, 1, "and ten polls did not make it ten");
    s.ready(&ticket).expect("drawn");
    s.queue(&ticket).expect("head");
    s.complete(&ticket).expect("shown");
    assert_eq!(s.wake().len(), 1);
    assert_eq!(s.census().2, 1);
}
