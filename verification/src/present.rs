//! One guest surface's presentation stream: what is in flight, in what order,
//! and what a replaced swapchain is still owed.
//!
//! The image count the host returned is the only bound. The depth that was
//! asked for is recorded and never compared with anything. Nothing here waits:
//! a present that finds no image is parked in its own surface's queue, in
//! arrival order, and no other surface shares that queue.

use vstd::prelude::*;
use crate::fifo::read_word;
use crate::identity::{CompletionStamp, IngressOrdinal, MappingId, TaskId, TimelinePoint};
use crate::transaction::Channel;

verus! {

/// Which of the three present commands a packet is.
#[derive(Clone, Copy, Debug, PartialEq, Eq, PartialOrd, Ord, Hash, Structural)]
pub enum PresentForm {
    Transaction2,
    Transaction3,
    SwapMapping,
}

/// The present form a command is, if it is a present.
pub open spec fn form_of(channel: Channel, opcode: u16) -> Option<PresentForm> {
    match channel {
        Channel::Root => None,
        Channel::Child => if opcode == 0x06 {
            Some(PresentForm::Transaction2)
        } else if opcode == 0x07 {
            Some(PresentForm::Transaction3)
        } else if opcode == 0x08 {
            Some(PresentForm::SwapMapping)
        } else {
            None
        },
    }
}

impl PresentForm {
    /// How many bytes the form's trailer takes.
    pub open spec fn trailer_bytes(self) -> usize {
        match self {
            PresentForm::Transaction2 => 12,
            PresentForm::Transaction3 => 36,
            PresentForm::SwapMapping => 12,
        }
    }

    /// Where the trailer names what to show.
    pub open spec fn target_at(self) -> usize {
        match self {
            PresentForm::Transaction2 => 4,
            PresentForm::Transaction3 => 8,
            PresentForm::SwapMapping => 4,
        }
    }

    /// Where the trailer names the owning task, if it names one.
    pub open spec fn task_at(self) -> Option<usize> {
        match self {
            PresentForm::Transaction2 => Some(8),
            PresentForm::Transaction3 => Some(4),
            PresentForm::SwapMapping => None,
        }
    }

    pub open spec fn name_text(self) -> Seq<char> {
        match self {
            PresentForm::Transaction2 => "display_transaction2"@,
            PresentForm::Transaction3 => "display_transaction3"@,
            PresentForm::SwapMapping => "display_swap_mapping"@,
        }
    }

    /// The form a command is, or `None` if it is no present.
    #[must_use]
    pub fn of(channel: Channel, opcode: u16) -> (form: Option<PresentForm>)
        ensures
            form == form_of(channel, opcode),
    {
        match channel {
            Channel::Root => None,
            Channel::Child => if opcode == 0x06 {
                Some(PresentForm::Transaction2)
            } else if opcode == 0x07 {
                Some(PresentForm::Transaction3)
            } else if opcode == 0x08 {
                Some(PresentForm::SwapMapping)
            } else {
                None
            },
        }
    }

    #[must_use]
    pub fn trailer_len(self) -> (len: usize)
        ensures
            len == self.trailer_bytes(),
    {
        match self {
            PresentForm::Transaction2 => 12,
            PresentForm::Transaction3 => 36,
            PresentForm::SwapMapping => 12,
        }
    }

    #[must_use]
    pub fn target_offset(self) -> (at: usize)
        ensures
            at == self.target_at(),
    {
        match self {
            PresentForm::Transaction2 => 4,
            PresentForm::Transaction3 => 8,
            PresentForm::SwapMapping => 4,
        }
    }

    #[must_use]
    pub fn task_offset(self) -> (at: Option<usize>)
        ensures
            at == self.task_at(),
    {
        match self {
            PresentForm::Transaction2 => Some(8),
            PresentForm::Transaction3 => Some(4),
            PresentForm::SwapMapping => None,
        }
    }

    /// Whether the form's trailer names a task at all.
    #[must_use]
    pub fn names_a_task(self) -> (names: bool)
        ensures
            names == (self.task_at() is Some),
    {
        match self {
            PresentForm::SwapMapping => false,
            _ => true,
        }
    }

    #[must_use]
    pub fn name(self) -> (name: &'static str)
        ensures
            name@ == self.name_text(),
    {
        match self {
            PresentForm::Transaction2 => "display_transaction2",
            PresentForm::Transaction3 => "display_transaction3",
            PresentForm::SwapMapping => "display_swap_mapping",
        }
    }
}

/// One present packet, decoded.
///
/// What the guest asked to show and, for the two forms that name one, the task
/// that owns it. The pipe index at word zero is absent: nothing reads it.
#[derive(Clone, Copy, Debug, PartialEq, Eq, Structural)]
pub struct PresentPacket {
    pub form: PresentForm,
    pub mapping: MappingId,
    pub task: Option<TaskId>,
}

/// Why a present's trailer could not be read.
#[derive(Clone, Copy, Debug, PartialEq, Eq, Structural)]
pub enum TrailerRefusal {
    /// The payload is shorter than the command's own trailer.
    Short { have: usize, need: usize },
}

impl TrailerRefusal {
    #[must_use]
    pub fn slug(self) -> (slug: &'static str)
        ensures
            slug@ == "display_present_short"@,
    {
        match self {
            TrailerRefusal::Short { .. } => "display_present_short",
        }
    }
}

/// Why a present packet's bytes did not become one.
#[derive(Clone, Copy, Debug, PartialEq, Eq, Structural)]
pub enum ResolveRefusal {
    /// The packet is not a present.
    NotPresent { channel: Channel, opcode: u16 },
    /// There is nothing to show. Refused and not clamped: presenting mapping
    /// zero in silence is a frame the guest believes it showed.
    Payload(TrailerRefusal),
}

impl ResolveRefusal {
    pub open spec fn slug_text(self) -> Seq<char> {
        match self {
            ResolveRefusal::NotPresent { .. } => "present_not_a_present_packet"@,
            ResolveRefusal::Payload(_) => "display_present_short"@,
        }
    }

    #[must_use]
    pub fn slug(self) -> (slug: &'static str)
        ensures
            slug@ == self.slug_text(),
    {
        match self {
            ResolveRefusal::NotPresent { .. } => "present_not_a_present_packet",
            ResolveRefusal::Payload(inner) => inner.slug(),
        }
    }
}

/// What a present's bytes ask to show.
pub open spec fn shown_by(form: PresentForm, payload: Seq<u8>) -> PresentPacket {
    PresentPacket {
        form,
        mapping: MappingId(crate::fifo::word_at(payload, form.target_at() as int)),
        task: match form.task_at() {
            Some(at) => Some(TaskId(crate::fifo::word_at(payload, at as int))),
            None => None,
        },
    }
}

/// What a present packet's bytes come to.
pub open spec fn packet_of(channel: Channel, opcode: u16, payload: Seq<u8>) -> Result<
    PresentPacket,
    ResolveRefusal,
> {
    match form_of(channel, opcode) {
        None => Err(ResolveRefusal::NotPresent { channel, opcode }),
        Some(form) => if payload.len() < form.trailer_bytes() {
            Err(
                ResolveRefusal::Payload(
                    TrailerRefusal::Short {
                        have: payload.len() as usize,
                        need: form.trailer_bytes(),
                    },
                ),
            )
        } else {
            Ok(shown_by(form, payload))
        },
    }
}

/// Turn one present packet into what it asks to show.
pub fn resolve(channel: Channel, opcode: u16, payload: &[u8]) -> (r: Result<
    PresentPacket,
    ResolveRefusal,
>)
    ensures
        r == packet_of(channel, opcode, payload@),
{
    let form = match PresentForm::of(channel, opcode) {
        Some(form) => form,
        None => {
            return Err(ResolveRefusal::NotPresent { channel, opcode });
        },
    };
    let need = form.trailer_len();
    let have = payload.len();
    if have < need {
        return Err(ResolveRefusal::Payload(TrailerRefusal::Short { have, need }));
    }
    let mapping = MappingId(read_word(payload, form.target_offset()));
    let task = match form.task_offset() {
        Some(at) => Some(TaskId(read_word(payload, at))),
        None => None,
    };
    Ok(PresentPacket { form, mapping, task })
}

/// One configuration of a surface's swapchain.
///
/// Changes on every reconfiguration, so a ticket from before a resize cannot be
/// completed against the swapchain that replaced it.
#[derive(Clone, Copy, Debug, PartialEq, Eq, PartialOrd, Ord, Hash, Structural)]
pub struct SwapchainGeneration(pub u64);

impl SwapchainGeneration {
    /// The generation a stream opens in.
    #[must_use]
    pub fn first() -> (first: SwapchainGeneration)
        ensures
            first == SwapchainGeneration(1),
    {
        SwapchainGeneration(1)
    }

    #[must_use]
    pub fn next(self) -> (next: SwapchainGeneration)
        ensures
            next.0 == crate::identity::next_count(self.0),
    {
        SwapchainGeneration(self.0.saturating_add(1))
    }

    #[must_use]
    pub fn get(self) -> (n: u64)
        ensures
            n == self.0,
    {
        self.0
    }
}

/// Whether a pending present may be replaced by a newer one.
#[derive(Clone, Copy, Debug, PartialEq, Eq, Structural)]
pub enum Order {
    /// Every acquired frame is presented, in the order it was acquired.
    Fifo,
    /// A frame that has not been shown yet may be superseded by a newer one.
    Superseding,
}

/// A frame in flight, and where it is.
#[derive(Clone, Copy, Debug, PartialEq, Eq, Structural)]
pub enum Phase {
    /// An image has been reserved and the frame is not yet drawn.
    AcquirePending,
    /// The frame is drawn and may be queued.
    Ready,
    /// Handed to the host's presentation queue.
    Queued,
}

/// One frame's place in the stream.
///
/// Not `Clone`: two copies of a ticket are two claims on one image.
#[derive(Debug, PartialEq, Eq, Structural)]
pub struct Ticket {
    pub generation: SwapchainGeneration,
    /// Position in this generation's presentation order.
    pub sequence: u64,
    /// Which of the returned images this frame occupies.
    pub image: usize,
}

/// Why the stream would not do something.
#[allow(inconsistent_fields)]
#[derive(Clone, Copy, Debug, PartialEq, Eq, Structural)]
pub enum Refusal {
    /// Every returned image is in flight. Presentation waits; nothing else
    /// does.
    NoFreeImage { images: usize },
    /// The ticket belongs to a swapchain that has been replaced.
    StaleGeneration { named: SwapchainGeneration, current: SwapchainGeneration },
    /// The frame is not in the phase this transition starts from.
    WrongPhase { at: Phase, expected: Phase },
    /// A frame was asked to be presented ahead of an earlier one under an
    /// order that does not permit it.
    OutOfOrder { head: u64, named: u64 },
    /// The frame is no longer in flight: a newer one superseded it.
    Superseded { by: u64 },
    /// No swapchain has been configured, so there is nothing to acquire from.
    NotConfigured,
}

impl Refusal {
    pub open spec fn slug_text(self) -> Seq<char> {
        match self {
            Refusal::NoFreeImage { .. } => "present_no_free_image"@,
            Refusal::StaleGeneration { .. } => "present_stale_generation"@,
            Refusal::WrongPhase { .. } => "present_wrong_phase"@,
            Refusal::OutOfOrder { .. } => "present_out_of_order"@,
            Refusal::Superseded { .. } => "present_superseded"@,
            Refusal::NotConfigured => "present_not_configured"@,
        }
    }

    #[must_use]
    pub fn slug(self) -> (slug: &'static str)
        ensures
            slug@ == self.slug_text(),
    {
        match self {
            Refusal::NoFreeImage { .. } => "present_no_free_image",
            Refusal::StaleGeneration { .. } => "present_stale_generation",
            Refusal::WrongPhase { .. } => "present_wrong_phase",
            Refusal::OutOfOrder { .. } => "present_out_of_order",
            Refusal::Superseded { .. } => "present_superseded",
            Refusal::NotConfigured => "present_not_configured",
        }
    }
}

/// A swapchain whose images are still being read by submitted work.
#[derive(Clone, Copy, Debug, PartialEq, Eq, Structural)]
#[must_use]
pub struct Retired {
    pub generation: SwapchainGeneration,
    /// The point after which nothing reads its images.
    pub last_use: TimelinePoint,
}

/// A present packet that has not got an image yet.
///
/// It carries its completion word: the packet's obligation travels with it.
#[derive(Clone, Copy, Debug, PartialEq, Eq, Structural)]
pub struct PresentRequest {
    pub ingress: IngressOrdinal,
    pub stamp: Option<CompletionStamp>,
}

/// What accepting a present packet did.
#[derive(Debug, PartialEq, Eq, Structural)]
#[must_use]
pub enum Admission {
    /// An image was free and the frame may be drawn.
    Acquired { request: PresentRequest, ticket: Ticket },
    /// Every returned image is in flight. The request is held in this surface's
    /// own queue behind `ahead` others.
    Parked { ahead: usize },
    /// No swapchain has been configured, so no image can ever free for it.
    NotConfigured,
}

/// A frame that occupies an image.
#[derive(Clone, Copy, Debug, PartialEq, Eq, Structural)]
pub struct InFlight {
    pub sequence: u64,
    pub image: usize,
    pub phase: Phase,
}

/// The frame a ticket was handed out for.
pub open spec fn frame_of(ticket: Ticket) -> InFlight {
    InFlight { sequence: ticket.sequence, image: ticket.image, phase: Phase::AcquirePending }
}

/// Frames in acquisition order.
pub open spec fn in_order(frames: Seq<InFlight>) -> bool {
    forall|i: int, j: int|
        0 <= i < j < frames.len() ==> (#[trigger] frames[i]).sequence < (
        #[trigger] frames[j]).sequence
}

/// The frame at `i` occupies the image.
pub open spec fn occupies(frames: Seq<InFlight>, i: int, image: usize) -> bool {
    0 <= i < frames.len() && frames[i].image == image
}

/// Some frame occupies the image.
pub open spec fn in_use(frames: Seq<InFlight>, image: usize) -> bool {
    exists|i: int| occupies(frames, i, image)
}

/// The image is free and every lower one is in use.
pub open spec fn lowest_free(frames: Seq<InFlight>, image: usize) -> bool {
    &&& !in_use(frames, image)
    &&& forall|lower: usize| lower < image ==> in_use(frames, lower)
}

/// The frame at `i` has this sequence.
pub open spec fn stands_at(frames: Seq<InFlight>, sequence: u64, i: int) -> bool {
    0 <= i < frames.len() && frames[i].sequence == sequence
}

/// The frame is in flight.
pub open spec fn is_in_flight(frames: Seq<InFlight>, sequence: u64) -> bool {
    exists|i: int| stands_at(frames, sequence, i)
}

/// Where a frame is, if it is in flight.
pub open spec fn phase_of(frames: Seq<InFlight>, sequence: u64) -> Option<Phase> {
    if is_in_flight(frames, sequence) {
        Some(frames[choose|i: int| stands_at(frames, sequence, i)].phase)
    } else {
        None
    }
}

/// The frames once one of them has moved to another phase.
pub open spec fn with_phase(frames: Seq<InFlight>, sequence: u64, phase: Phase) -> Seq<InFlight> {
    frames.map_values(
        |f: InFlight|
            if f.sequence == sequence {
                InFlight { sequence: f.sequence, image: f.image, phase }
            } else {
                f
            },
    )
}

/// The frames acquired before a sequence.
pub open spec fn earlier_than(frames: Seq<InFlight>, sequence: u64) -> Seq<InFlight> {
    frames.filter(|f: InFlight| f.sequence < sequence)
}

/// The frames acquired at a sequence or after it.
pub open spec fn from_on(frames: Seq<InFlight>, sequence: u64) -> Seq<InFlight> {
    frames.filter(|f: InFlight| f.sequence >= sequence)
}

/// `n` more, stopping at the top of the word.
pub open spec fn tally(count: usize, n: nat) -> usize {
    if count + n > usize::MAX { usize::MAX } else { (count + n) as usize }
}

/// What a stream holds.
#[verifier::ext_equal]
pub struct PresentModel {
    pub order: Order,
    pub generation: SwapchainGeneration,
    pub images: Option<usize>,
    pub requested_depth: Option<usize>,
    pub next_sequence: u64,
    pub frames: Seq<InFlight>,
    pub parked: Seq<PresentRequest>,
    pub retiring: Seq<Retired>,
    pub presented: usize,
    pub superseded: usize,
    pub backpressured: usize,
}

impl PresentModel {
    /// Frames stand in acquisition order, no two of them on one image, and
    /// replaced swapchains in the order they were replaced.
    pub open spec fn consistent(self) -> bool {
        &&& in_order(self.frames)
        &&& forall|i: int|
            0 <= i < self.frames.len() ==> (#[trigger] self.frames[i]).sequence
                < self.next_sequence
        &&& forall|i: int, j: int|
            0 <= i < j < self.frames.len() ==> (#[trigger] self.frames[i]).image != (
            #[trigger] self.frames[j]).image
        &&& forall|i: int, j: int|
            0 <= i < j < self.retiring.len() ==> (#[trigger] self.retiring[i]).generation.0 <= (
            #[trigger] self.retiring[j]).generation.0
        &&& forall|i: int|
            0 <= i < self.retiring.len() ==> (#[trigger] self.retiring[i]).generation.0
                <= self.generation.0
    }

    /// Why an image cannot be reserved now.
    pub open spec fn acquire_refusal(self) -> Option<Refusal> {
        match self.images {
            None => Some(Refusal::NotConfigured),
            Some(images) => if self.frames.len() >= images {
                Some(Refusal::NoFreeImage { images })
            } else {
                None
            },
        }
    }

    /// The ticket the next frame gets if it takes this image.
    pub open spec fn ticket_for(self, image: usize) -> Ticket {
        Ticket { generation: self.generation, sequence: self.next_sequence, image }
    }

    /// The stream once the next frame has taken an image.
    pub open spec fn with_frame(self, image: usize) -> PresentModel {
        PresentModel {
            next_sequence: (self.next_sequence + 1) as u64,
            frames: self.frames.push(frame_of(self.ticket_for(image))),
            ..self
        }
    }

    /// One more frame found every image in flight.
    pub open spec fn held_back(self) -> PresentModel {
        PresentModel { backpressured: tally(self.backpressured, 1), ..self }
    }

    /// Why a ticket's frame cannot leave the phase `from`.
    pub open spec fn advance_refusal(self, ticket: Ticket, from: Phase) -> Option<Refusal> {
        if ticket.generation != self.generation {
            Some(
                Refusal::StaleGeneration { named: ticket.generation, current: self.generation },
            )
        } else {
            match phase_of(self.frames, ticket.sequence) {
                None => Some(Refusal::Superseded { by: self.next_sequence }),
                Some(at) => if at != from {
                    Some(Refusal::WrongPhase { at, expected: from })
                } else {
                    None
                },
            }
        }
    }

    /// Why a ticket's frame cannot be queued.
    pub open spec fn queue_refusal(self, ticket: Ticket) -> Option<Refusal> {
        if ticket.generation == self.generation && self.order == Order::Fifo && self.frames.len()
            > 0 && self.frames[0].sequence != ticket.sequence {
            Some(
                Refusal::OutOfOrder { head: self.frames[0].sequence, named: ticket.sequence },
            )
        } else {
            self.advance_refusal(ticket, Phase::Ready)
        }
    }

    /// The frames queueing this one drops, oldest first.
    pub open spec fn dropped_by(self, ticket: Ticket) -> Seq<u64> {
        earlier_than(self.frames, ticket.sequence).map_values(|f: InFlight| f.sequence)
    }

    /// The stream once a frame has moved to another phase.
    pub open spec fn advanced(self, ticket: Ticket, to: Phase) -> PresentModel {
        PresentModel { frames: with_phase(self.frames, ticket.sequence, to), ..self }
    }

    /// The stream once a frame has been queued.
    pub open spec fn queued(self, ticket: Ticket) -> PresentModel {
        PresentModel {
            frames: with_phase(
                from_on(self.frames, ticket.sequence),
                ticket.sequence,
                Phase::Queued,
            ),
            superseded: tally(self.superseded, self.dropped_by(ticket).len()),
            ..self
        }
    }

    /// The stream once a frame has been shown.
    pub open spec fn shown(self, ticket: Ticket) -> PresentModel {
        PresentModel {
            frames: self.frames.filter(|f: InFlight| f.sequence != ticket.sequence),
            presented: tally(self.presented, 1),
            ..self
        }
    }

    /// The stream with a swapchain of `images` images.
    pub open spec fn configured(self, requested_depth: usize, images: usize) -> PresentModel {
        PresentModel { requested_depth: Some(requested_depth), images: Some(images), ..self }
    }

    /// What replacing the swapchain defers.
    pub open spec fn retired_at(self, last_use: TimelinePoint) -> Retired {
        Retired { generation: self.generation, last_use }
    }

    /// The stream once its swapchain has been replaced.
    pub open spec fn replaced(
        self,
        requested_depth: usize,
        images: usize,
        last_use: TimelinePoint,
    ) -> PresentModel {
        PresentModel {
            generation: SwapchainGeneration(crate::identity::next_count(self.generation.0)),
            frames: Seq::empty(),
            next_sequence: 0,
            retiring: self.retiring.push(self.retired_at(last_use)),
            ..self.configured(requested_depth, images)
        }
    }

    /// How many parked presents have an image waiting for them.
    pub open spec fn wakeable(self) -> nat {
        match self.images {
            None => 0,
            Some(images) => if self.frames.len() >= images {
                0
            } else if self.parked.len() <= images - self.frames.len() {
                self.parked.len()
            } else {
                (images - self.frames.len()) as nat
            },
        }
    }
}

/// The frames after the first `n` of these tickets were handed out.
pub open spec fn with_tickets(
    frames: Seq<InFlight>,
    woken: Seq<(PresentRequest, Ticket)>,
    n: int,
) -> Seq<InFlight> {
    frames + woken.take(n).map_values(|w: (PresentRequest, Ticket)| frame_of(w.1))
}

/// One guest surface's presentation stream.
#[derive(Debug)]
pub struct PresentStream {
    order: Order,
    generation: SwapchainGeneration,
    /// What the host returned: the only bound.
    images: Option<usize>,
    /// What was asked for, recorded so that a report can say so.
    requested_depth: Option<usize>,
    next_sequence: u64,
    in_flight: Vec<InFlight>,
    /// Present packets waiting for an image, oldest first.
    parked: Vec<PresentRequest>,
    retiring: Vec<Retired>,
    presented: usize,
    superseded: usize,
    backpressured: usize,
}

impl View for PresentStream {
    type V = PresentModel;

    closed spec fn view(&self) -> PresentModel {
        PresentModel {
            order: self.order,
            generation: self.generation,
            images: self.images,
            requested_depth: self.requested_depth,
            next_sequence: self.next_sequence,
            frames: self.in_flight@,
            parked: self.parked@,
            retiring: self.retiring@,
            presented: self.presented,
            superseded: self.superseded,
            backpressured: self.backpressured,
        }
    }
}

proof fn lemma_phase(frames: Seq<InFlight>, i: int)
    requires
        in_order(frames),
        0 <= i < frames.len(),
    ensures
        is_in_flight(frames, frames[i].sequence),
        phase_of(frames, frames[i].sequence) == Some(frames[i].phase),
{
    let sequence = frames[i].sequence;
    assert(stands_at(frames, sequence, i));
    let k = choose|k: int| stands_at(frames, sequence, k);
    if k < i {
        assert(frames[k].sequence < frames[i].sequence);
    } else if i < k {
        assert(frames[i].sequence < frames[k].sequence);
    }
}

/// Fewer frames than images leave an image free.
proof fn lemma_free_image(frames: Seq<InFlight>, images: usize)
    requires
        frames.len() < images,
    ensures
        exists|image: usize| image < images && !#[trigger] in_use(frames, image),
{
    let used = frames.map_values(|f: InFlight| f.image as int);
    let all = vstd::set_lib::set_int_range(0, images as int);
    vstd::set_lib::lemma_int_range(0, images as int);
    vstd::seq_lib::seq_to_set_is_finite(used);
    used.lemma_cardinality_of_set();
    if all.subset_of(used.to_set()) {
        vstd::set_lib::lemma_len_subset(all, used.to_set());
    }
    let n = choose|n: int| all.contains(n) && !used.to_set().contains(n);
    assert(all.contains(n) && !used.to_set().contains(n));
    let image = n as usize;
    if in_use(frames, image) {
        let i = choose|i: int| occupies(frames, i, image);
        assert(used[i] == n);
    }
}

/// The frames before a sequence are a prefix.
proof fn lemma_split(frames: Seq<InFlight>, sequence: u64, n: int)
    requires
        0 <= n <= frames.len(),
        forall|i: int| 0 <= i < n ==> (#[trigger] frames[i]).sequence < sequence,
        forall|i: int| n <= i < frames.len() ==> (#[trigger] frames[i]).sequence >= sequence,
    ensures
        earlier_than(frames, sequence) == frames.take(n),
        from_on(frames, sequence) == frames.skip(n),
    decreases frames.len(),
{
    reveal(Seq::filter);
    if frames.len() == 0 {
        assert(frames.take(n) =~= earlier_than(frames, sequence));
        assert(frames.skip(n) =~= from_on(frames, sequence));
    } else if n == frames.len() {
        lemma_split(frames.drop_last(), sequence, n - 1);
        assert(frames.drop_last().take(n - 1).push(frames.last()) =~= frames.take(n));
        assert(frames.drop_last().skip(n - 1) =~= frames.skip(n));
    } else {
        lemma_split(frames.drop_last(), sequence, n);
        assert(frames.drop_last().take(n) =~= frames.take(n));
        assert(frames.drop_last().skip(n).push(frames.last()) =~= frames.skip(n));
    }
}

/// Taking one frame out leaves the others.
proof fn lemma_without(frames: Seq<InFlight>, at: int)
    requires
        in_order(frames),
        0 <= at < frames.len(),
    ensures
        frames.filter(|f: InFlight| f.sequence != frames[at].sequence) == frames.remove(at),
    decreases frames.len(),
{
    reveal(Seq::filter);
    let sequence = frames[at].sequence;
    let keep = |f: InFlight| f.sequence != sequence;
    let rest = frames.drop_last();
    if at == frames.len() - 1 {
        assert forall|i: int| 0 <= i < rest.len() implies keep(#[trigger] rest[i]) by {
            assert(frames[i].sequence < frames[at].sequence);
        }
        lemma_keeps_all(rest, keep);
        assert(frames.remove(at) =~= rest);
    } else {
        assert(rest[at] == frames[at]);
        lemma_without(rest, at);
        assert(frames[at].sequence < frames.last().sequence);
        assert(rest.remove(at).push(frames.last()) =~= frames.remove(at));
    }
}

proof fn lemma_keeps_all<A>(s: Seq<A>, keep: spec_fn(A) -> bool)
    requires
        forall|i: int| 0 <= i < s.len() ==> keep(#[trigger] s[i]),
    ensures
        s.filter(keep) == s,
    decreases s.len(),
{
    reveal(Seq::filter);
    if s.len() > 0 {
        lemma_keeps_all(s.drop_last(), keep);
        assert(s.drop_last().push(s.last()) =~= s);
    } else {
        assert(s.filter(keep) =~= s);
    }
}

impl PresentStream {
    pub open spec fn wf(&self) -> bool {
        self@.consistent()
    }

    #[must_use]
    pub fn new(order: Order) -> (stream: Self)
        ensures
            stream.wf(),
            stream@ == (PresentModel {
                order,
                generation: SwapchainGeneration(1),
                images: None,
                requested_depth: None,
                next_sequence: 0,
                frames: Seq::empty(),
                parked: Seq::empty(),
                retiring: Seq::empty(),
                presented: 0,
                superseded: 0,
                backpressured: 0,
            }),
    {
        PresentStream {
            order,
            generation: SwapchainGeneration::first(),
            images: None,
            requested_depth: None,
            next_sequence: 0,
            in_flight: Vec::new(),
            parked: Vec::new(),
            retiring: Vec::new(),
            presented: 0,
            superseded: 0,
            backpressured: 0,
        }
    }

    #[must_use]
    pub fn order(&self) -> (order: Order)
        ensures
            order == self@.order,
    {
        self.order
    }

    #[must_use]
    pub fn generation(&self) -> (generation: SwapchainGeneration)
        ensures
            generation == self@.generation,
    {
        self.generation
    }

    /// The image count the host returned, which is the only bound this stream
    /// uses.
    #[must_use]
    pub fn images(&self) -> (images: Option<usize>)
        ensures
            images == self@.images,
    {
        self.images
    }

    /// The depth that was requested. Nothing here compares against it.
    #[must_use]
    pub fn requested_depth(&self) -> (depth: Option<usize>)
        ensures
            depth == self@.requested_depth,
    {
        self.requested_depth
    }

    /// Configure the first swapchain. A swapchain of no images cannot present.
    pub fn configure(&mut self, requested_depth: usize, returned_images: usize)
        requires
            old(self).wf(),
            returned_images > 0,
        ensures
            final(self).wf(),
            final(self)@ == old(self)@.configured(requested_depth, returned_images),
    {
        self.requested_depth = Some(requested_depth);
        self.images = Some(returned_images);
    }

    /// Replace the swapchain, handing the old generation to deferred
    /// retirement.
    ///
    /// Frames in flight on the old generation leave this stream's order with
    /// it. Parked presents stay: they belong to the surface.
    pub fn replace(
        &mut self,
        requested_depth: usize,
        returned_images: usize,
        last_use: TimelinePoint,
    ) -> (retired: Retired)
        requires
            old(self).wf(),
            returned_images > 0,
        ensures
            final(self).wf(),
            retired == old(self)@.retired_at(last_use),
            final(self)@ == old(self)@.replaced(requested_depth, returned_images, last_use),
    {
        let retired = Retired { generation: self.generation, last_use };
        self.retiring.push(retired);
        self.generation = self.generation.next();
        self.in_flight = Vec::new();
        self.next_sequence = 0;
        self.requested_depth = Some(requested_depth);
        self.images = Some(returned_images);
        assert(self@ =~= old(self)@.replaced(requested_depth, returned_images, last_use));
        retired
    }

    /// The timeline reached `at`: take the swapchains nothing reads any more,
    /// in generation order.
    pub fn reached(&mut self, at: TimelinePoint) -> (out: Vec<Retired>)
        requires
            old(self).wf(),
        ensures
            final(self).wf(),
            out@ == old(self)@.retiring.filter(|r: Retired| at.0 >= r.last_use.0),
            forall|i: int, j: int|
                0 <= i < j < out@.len() ==> (#[trigger] out@[i]).generation.0 <= (
                #[trigger] out@[j]).generation.0,
            final(self)@ == (PresentModel {
                retiring: old(self)@.retiring.filter(|r: Retired| !(at.0 >= r.last_use.0)),
                ..old(self)@
            }),
    {
        let mut out: Vec<Retired> = Vec::new();
        let mut kept: Vec<Retired> = Vec::new();
        let mut i: usize = 0;
        let ghost all = self.retiring@;
        let ghost due = |r: Retired| at.0 >= r.last_use.0;
        let ghost stays = |r: Retired| !(at.0 >= r.last_use.0);
        proof {
            reveal(Seq::filter);
            assert(all.take(0).filter(due) =~= Seq::<Retired>::empty());
            assert(all.take(0).filter(stays) =~= Seq::<Retired>::empty());
        }
        while i < self.retiring.len()
            invariant
                *self == *old(self),
                all == self.retiring@,
                i <= all.len(),
                due == (|r: Retired| at.0 >= r.last_use.0),
                stays == (|r: Retired| !(at.0 >= r.last_use.0)),
                out@ == all.take(i as int).filter(due),
                kept@ == all.take(i as int).filter(stays),
                forall|a: int, b: int|
                    0 <= a < b < all.len() ==> (#[trigger] all[a]).generation.0 <= (
                    #[trigger] all[b]).generation.0,
                forall|a: int, b: int|
                    0 <= a < b < out@.len() ==> (#[trigger] out@[a]).generation.0 <= (
                    #[trigger] out@[b]).generation.0,
                forall|a: int, b: int|
                    0 <= a < b < kept@.len() ==> (#[trigger] kept@[a]).generation.0 <= (
                    #[trigger] kept@[b]).generation.0,
                forall|a: int, b: int|
                    0 <= a < out@.len() && i <= b < all.len() ==> (
                    #[trigger] out@[a]).generation.0 <= (#[trigger] all[b]).generation.0,
                forall|a: int, b: int|
                    0 <= a < kept@.len() && i <= b < all.len() ==> (
                    #[trigger] kept@[a]).generation.0 <= (#[trigger] all[b]).generation.0,
                forall|a: int|
                    0 <= a < kept@.len() ==> (#[trigger] kept@[a]).generation.0
                        <= self.generation.0,
                forall|a: int|
                    0 <= a < all.len() ==> (#[trigger] all[a]).generation.0 <= self.generation.0,
            decreases self.retiring.len() - i,
        {
            let retired = self.retiring[i];
            proof {
                reveal(Seq::filter);
                assert(all.take(i + 1).drop_last() =~= all.take(i as int));
                assert(all.take(i + 1).last() == all[i as int]);
            }
            if at.reached(retired.last_use) {
                out.push(retired);
            } else {
                kept.push(retired);
            }
            i += 1;
        }
        assert(all.take(i as int) =~= all);
        self.retiring = kept;
        assert(self@ =~= (PresentModel { retiring: all.filter(stays), ..old(self)@ }));
        out
    }

    /// Reserve an image for the next frame.
    ///
    /// Never waits. When every returned image is in flight this refuses, and
    /// the refusal holds up presentation and nothing else.
    pub fn acquire(&mut self) -> (r: Result<Ticket, Refusal>)
        requires
            old(self).wf(),
            old(self)@.next_sequence < u64::MAX,
        ensures
            final(self).wf(),
            match old(self)@.acquire_refusal() {
                None => r matches Ok(ticket) && lowest_free(old(self)@.frames, ticket.image)
                    && ticket.image < old(self)@.images->0 && ticket == old(self)@.ticket_for(
                    ticket.image,
                ) && final(self)@ == old(self)@.with_frame(ticket.image),
                Some(refusal) => r == Err::<Ticket, Refusal>(refusal) && final(self)@ == (
                if refusal is NoFreeImage {
                    old(self)@.held_back()
                } else {
                    old(self)@
                }),
            },
    {
        let outcome = self.take_image();
        if let Err(Refusal::NoFreeImage { .. }) = outcome {
            self.backpressured = self.backpressured.saturating_add(1);
        }
        outcome
    }

    /// Reserve an image without charging the backpressure census.
    fn take_image(&mut self) -> (r: Result<Ticket, Refusal>)
        requires
            old(self).wf(),
            old(self)@.next_sequence < u64::MAX,
        ensures
            final(self).wf(),
            match old(self)@.acquire_refusal() {
                None => r matches Ok(ticket) && lowest_free(old(self)@.frames, ticket.image)
                    && ticket.image < old(self)@.images->0 && ticket == old(self)@.ticket_for(
                    ticket.image,
                ) && final(self)@ == old(self)@.with_frame(ticket.image),
                Some(refusal) => r == Err::<Ticket, Refusal>(refusal) && final(self)@ == old(
                    self,
                )@,
            },
    {
        let images = match self.images {
            Some(images) => images,
            None => {
                return Err(Refusal::NotConfigured);
            },
        };
        if self.in_flight.len() >= images {
            return Err(Refusal::NoFreeImage { images });
        }
        let image = self.free_image(images);
        let sequence = self.next_sequence;
        self.next_sequence = sequence + 1;
        self.in_flight.push(InFlight { sequence, image, phase: Phase::AcquirePending });
        proof {
            assert(self@ =~= old(self)@.with_frame(image));
            let before = old(self)@.frames;
            assert forall|i: int| 0 <= i < before.len() implies (#[trigger] before[i]).image
                != image by {
                if before[i].image == image {
                    assert(occupies(before, i, image));
                }
            }
        }
        Ok(Ticket { generation: self.generation, sequence, image })
    }

    /// The lowest image no frame occupies.
    fn free_image(&self, images: usize) -> (image: usize)
        requires
            self@.frames.len() < images,
        ensures
            image < images,
            lowest_free(self@.frames, image),
    {
        let mut image: usize = 0;
        while image < images
            invariant
                image <= images,
                self@.frames.len() < images,
                forall|lower: usize| lower < image ==> in_use(self@.frames, lower),
            decreases images - image,
        {
            if !self.image_in_use(image) {
                return image;
            }
            image += 1;
        }
        proof {
            lemma_free_image(self@.frames, images);
        }
        0
    }

    fn image_in_use(&self, image: usize) -> (used: bool)
        ensures
            used == in_use(self@.frames, image),
    {
        let mut i: usize = 0;
        while i < self.in_flight.len()
            invariant
                i <= self.in_flight.len(),
                forall|k: int| 0 <= k < i ==> (#[trigger] self@.frames[k]).image != image,
            decreases self.in_flight.len() - i,
        {
            if self.in_flight[i].image == image {
                assert(occupies(self@.frames, i as int, image));
                return true;
            }
            i += 1;
        }
        false
    }

    /// Accept a present packet: give it an image, or park it for one.
    ///
    /// A request parks behind anything already parked even when an image is
    /// free: the frame ahead of it asked first.
    pub fn submit(&mut self, request: PresentRequest) -> (r: Admission)
        requires
            old(self).wf(),
            old(self)@.next_sequence < u64::MAX,
        ensures
            final(self).wf(),
            if old(self)@.parked.len() > 0 {
                &&& r == (Admission::Parked { ahead: old(self)@.parked.len() as usize })
                &&& final(self)@ == (PresentModel {
                    parked: old(self)@.parked.push(request),
                    ..old(self)@
                })
            } else {
                match old(self)@.acquire_refusal() {
                    None => {
                        &&& r matches Admission::Acquired { request: kept, ticket }
                        &&& kept == request
                        &&& lowest_free(old(self)@.frames, ticket.image)
                        &&& ticket.image < old(self)@.images->0
                        &&& ticket == old(self)@.ticket_for(ticket.image)
                        &&& final(self)@ == old(self)@.with_frame(ticket.image)
                    },
                    Some(Refusal::NotConfigured) => {
                        &&& r == Admission::NotConfigured
                        &&& final(self)@ == old(self)@
                    },
                    Some(_) => {
                        &&& r == (Admission::Parked { ahead: 0 })
                        &&& final(self)@ == (PresentModel {
                            parked: seq![request],
                            ..old(self)@.held_back()
                        })
                    },
                }
            },
    {
        if self.parked.len() == 0 {
            match self.take_image() {
                Ok(ticket) => {
                    return Admission::Acquired { request, ticket };
                },
                Err(Refusal::NotConfigured) => {
                    return Admission::NotConfigured;
                },
                Err(_) => {
                    self.backpressured = self.backpressured.saturating_add(1);
                },
            }
        }
        let ahead = self.parked.len();
        self.parked.push(request);
        proof {
            if old(self)@.parked.len() == 0 {
                assert(self@.parked =~= seq![request]);
            } else {
                assert(self@.parked =~= old(self)@.parked.push(request));
            }
        }
        Admission::Parked { ahead }
    }

    /// The parked presents that can acquire now, oldest first.
    ///
    /// Nothing comes back when nothing is waiting or no image is free, and
    /// neither is charged as backpressure.
    #[must_use]
    pub fn wake(&mut self) -> (woken: Vec<(PresentRequest, Ticket)>)
        requires
            old(self).wf(),
            old(self)@.next_sequence + old(self)@.parked.len() <= u64::MAX,
        ensures
            final(self).wf(),
            woken@.len() == old(self)@.wakeable(),
            forall|i: int|
                0 <= i < woken@.len() ==> {
                    &&& (#[trigger] woken@[i]).0 == old(self)@.parked[i]
                    &&& woken@[i].1.generation == old(self)@.generation
                    &&& woken@[i].1.sequence == old(self)@.next_sequence + i
                    &&& lowest_free(with_tickets(old(self)@.frames, woken@, i), woken@[i].1.image)
                },
            final(self)@ == (PresentModel {
                next_sequence: (old(self)@.next_sequence + woken@.len()) as u64,
                frames: with_tickets(old(self)@.frames, woken@, woken@.len() as int),
                parked: old(self)@.parked.skip(woken@.len() as int),
                ..old(self)@
            }),
    {
        let mut woken: Vec<(PresentRequest, Ticket)> = Vec::new();
        let ghost was = self@;
        proof {
            assert(with_tickets(was.frames, woken@, 0) =~= was.frames);
            assert(was.parked.skip(0) =~= was.parked);
        }
        while self.parked.len() > 0 && self.has_free_image()
            invariant
                self.wf(),
                was == old(self)@,
                was.next_sequence + was.parked.len() <= u64::MAX,
                woken@.len() <= was.parked.len(),
                woken@.len() <= was.wakeable(),
                self@ =~= (PresentModel {
                    next_sequence: (was.next_sequence + woken@.len()) as u64,
                    frames: with_tickets(was.frames, woken@, woken@.len() as int),
                    parked: was.parked.skip(woken@.len() as int),
                    ..was
                }),
                forall|i: int|
                    0 <= i < woken@.len() ==> {
                        &&& (#[trigger] woken@[i]).0 == was.parked[i]
                        &&& woken@[i].1.generation == was.generation
                        &&& woken@[i].1.sequence == was.next_sequence + i
                        &&& lowest_free(with_tickets(was.frames, woken@, i), woken@[i].1.image)
                    },
            decreases self.parked.len(),
        {
            let ghost before = woken@;
            let ghost held = self@;
            match self.take_image() {
                Ok(ticket) => {
                    let request = self.parked.remove(0);
                    let ghost image = ticket.image;
                    let ghost handed = ticket;
                    woken.push((request, ticket));
                    proof {
                        assert(woken@ =~= before.push((request, handed)));
                        assert(with_tickets(was.frames, woken@, before.len() as int)
                            =~= with_tickets(was.frames, before, before.len() as int));
                        assert forall|i: int| 0 <= i < woken@.len() implies {
                            &&& (#[trigger] woken@[i]).0 == was.parked[i]
                            &&& woken@[i].1.generation == was.generation
                            &&& woken@[i].1.sequence == was.next_sequence + i
                            &&& lowest_free(
                                with_tickets(was.frames, woken@, i),
                                woken@[i].1.image,
                            )
                        } by {
                            if i < before.len() {
                                assert(woken@[i] == before[i]);
                                assert(with_tickets(was.frames, woken@, i) =~= with_tickets(
                                    was.frames,
                                    before,
                                    i,
                                ));
                            }
                        }
                        assert(self@.frames =~= with_tickets(
                            was.frames,
                            woken@,
                            woken@.len() as int,
                        ));
                        assert(self@.parked =~= was.parked.skip(woken@.len() as int));
                    }
                },
                Err(_) => {
                    return woken;
                },
            }
        }
        woken
    }

    fn has_free_image(&self) -> (free: bool)
        ensures
            free == (self@.acquire_refusal() is None),
    {
        match self.images {
            Some(images) => self.in_flight.len() < images,
            None => false,
        }
    }

    /// Presents waiting for an image.
    #[must_use]
    pub fn parked(&self) -> (n: usize)
        ensures
            n == self@.parked.len(),
    {
        self.parked.len()
    }

    /// Give back every parked present without acquiring for it.
    ///
    /// Their completion words are still owed, so nothing discards a parked
    /// present without handing it to somebody.
    #[must_use]
    pub fn abandon_parked(&mut self) -> (out: Vec<PresentRequest>)
        requires
            old(self).wf(),
        ensures
            final(self).wf(),
            out@ == old(self)@.parked,
            final(self)@ == (PresentModel { parked: Seq::empty(), ..old(self)@ }),
    {
        let mut out: Vec<PresentRequest> = Vec::new();
        std::mem::swap(&mut out, &mut self.parked);
        out
    }

    /// Where a ticket's frame is.
    #[must_use]
    pub fn phase(&self, ticket: &Ticket) -> (phase: Option<Phase>)
        requires
            self.wf(),
        ensures
            phase == (if ticket.generation == self@.generation {
                phase_of(self@.frames, ticket.sequence)
            } else {
                None
            }),
    {
        if ticket.generation != self.generation {
            return None;
        }
        match self.position(ticket.sequence) {
            Some(at) => {
                proof {
                    lemma_phase(self@.frames, at as int);
                }
                Some(self.in_flight[at].phase)
            },
            None => None,
        }
    }

    fn position(&self, sequence: u64) -> (at: Option<usize>)
        ensures
            match at {
                Some(i) => stands_at(self@.frames, sequence, i as int),
                None => !is_in_flight(self@.frames, sequence),
            },
    {
        let mut i: usize = 0;
        while i < self.in_flight.len()
            invariant
                i <= self.in_flight.len(),
                forall|k: int| 0 <= k < i ==> (#[trigger] self@.frames[k]).sequence != sequence,
            decreases self.in_flight.len() - i,
        {
            if self.in_flight[i].sequence == sequence {
                return Some(i);
            }
            i += 1;
        }
        None
    }

    /// The frame is drawn.
    pub fn ready(&mut self, ticket: &Ticket) -> (r: Result<(), Refusal>)
        requires
            old(self).wf(),
        ensures
            final(self).wf(),
            match old(self)@.advance_refusal(*ticket, Phase::AcquirePending) {
                None => r is Ok && final(self)@ == old(self)@.advanced(*ticket, Phase::Ready),
                Some(refusal) => r == Err::<(), Refusal>(refusal) && final(self)@ == old(self)@,
            },
    {
        let at = self.advancing(ticket, Phase::AcquirePending)?;
        self.move_to(at, Phase::Ready);
        Ok(())
    }

    /// The frame has been handed to the host's presentation queue.
    ///
    /// Under [`Order::Fifo`] only the head of the order may be queued. Under
    /// [`Order::Superseding`] a newer frame may go first, and every earlier one
    /// still in flight is dropped and reported: the caller owes the guest that
    /// fact. A refusal drops nothing.
    pub fn queue(&mut self, ticket: &Ticket) -> (r: Result<Vec<u64>, Refusal>)
        requires
            old(self).wf(),
        ensures
            final(self).wf(),
            match old(self)@.queue_refusal(*ticket) {
                None => r matches Ok(dropped) && dropped@ == old(self)@.dropped_by(*ticket)
                    && final(self)@ == old(self)@.queued(*ticket),
                Some(refusal) => r == Err::<Vec<u64>, Refusal>(refusal) && final(self)@ == old(
                    self,
                )@,
            },
    {
        if self.order == Order::Fifo && ticket.generation == self.generation
            && self.in_flight.len() > 0 {
            let head = self.in_flight[0].sequence;
            if head != ticket.sequence {
                return Err(Refusal::OutOfOrder { head, named: ticket.sequence });
            }
        }
        let at = match self.advancing(ticket, Phase::Ready) {
            Ok(at) => at,
            Err(refusal) => {
                return Err(refusal);
            },
        };
        let ghost frames = self@.frames;
        let ghost was = self@;
        proof {
            assert forall|i: int| 0 <= i < at implies (#[trigger] frames[i]).sequence
                < ticket.sequence by {
                assert(frames[i].sequence < frames[at as int].sequence);
            }
            assert forall|i: int| at <= i < frames.len() implies (#[trigger] frames[i]).sequence
                >= ticket.sequence by {
                if i > at {
                    assert(frames[at as int].sequence < frames[i].sequence);
                }
            }
            lemma_split(frames, ticket.sequence, at as int);
        }
        let mut dropped: Vec<u64> = Vec::new();
        let mut left: usize = at;
        assert(frames.skip(0) =~= frames);
        while left > 0
            invariant
                left <= at,
                at < frames.len(),
                dropped@.len() == at - left,
                frames == was.frames,
                was == old(self)@,
                old(self).wf(),
                self@ =~= (PresentModel {
                    frames: frames.skip(at - left),
                    superseded: tally(was.superseded, (at - left) as nat),
                    ..was
                }),
                forall|i: int|
                    0 <= i < at - left ==> #[trigger] dropped@[i] == frames[i].sequence,
            decreases left,
        {
            let front = self.in_flight.remove(0);
            dropped.push(front.sequence);
            self.superseded = self.superseded.saturating_add(1);
            left -= 1;
            assert(self@.frames =~= frames.skip(at - left));
        }
        self.move_to(0, Phase::Queued);
        proof {
            assert(dropped@ =~= was.dropped_by(*ticket));
            assert(self@.frames =~= with_phase(
                from_on(was.frames, ticket.sequence),
                ticket.sequence,
                Phase::Queued,
            ));
        }
        Ok(dropped)
    }

    /// The host has shown the frame; its image is free again.
    pub fn complete(&mut self, ticket: &Ticket) -> (r: Result<(), Refusal>)
        requires
            old(self).wf(),
        ensures
            final(self).wf(),
            match old(self)@.advance_refusal(*ticket, Phase::Queued) {
                None => r is Ok && final(self)@ == old(self)@.shown(*ticket),
                Some(refusal) => r == Err::<(), Refusal>(refusal) && final(self)@ == old(self)@,
            },
    {
        let at = self.advancing(ticket, Phase::Queued)?;
        proof {
            lemma_without(self@.frames, at as int);
        }
        let _ = self.in_flight.remove(at);
        self.presented = self.presented.saturating_add(1);
        assert(self@ =~= old(self)@.shown(*ticket));
        Ok(())
    }

    /// Where a ticket's frame stands, if it may leave the phase `from`.
    fn advancing(&self, ticket: &Ticket, from: Phase) -> (r: Result<usize, Refusal>)
        requires
            self.wf(),
        ensures
            match self@.advance_refusal(*ticket, from) {
                None => r matches Ok(at) && stands_at(self@.frames, ticket.sequence, at as int)
                    && self@.frames[at as int].phase == from,
                Some(refusal) => r == Err::<usize, Refusal>(refusal),
            },
    {
        if ticket.generation != self.generation {
            return Err(
                Refusal::StaleGeneration { named: ticket.generation, current: self.generation },
            );
        }
        match self.position(ticket.sequence) {
            Some(at) => {
                proof {
                    lemma_phase(self@.frames, at as int);
                }
                let phase = self.in_flight[at].phase;
                if phase != from {
                    return Err(Refusal::WrongPhase { at: phase, expected: from });
                }
                Ok(at)
            },
            None => Err(Refusal::Superseded { by: self.next_sequence }),
        }
    }

    /// Move the frame at an index to another phase.
    fn move_to(&mut self, at: usize, phase: Phase)
        requires
            in_order(old(self)@.frames),
            at < old(self)@.frames.len(),
        ensures
            final(self)@ == (PresentModel {
                frames: with_phase(
                    old(self)@.frames,
                    old(self)@.frames[at as int].sequence,
                    phase,
                ),
                ..old(self)@
            }),
            final(self)@.frames.len() == old(self)@.frames.len(),
            forall|i: int|
                0 <= i < final(self)@.frames.len() ==> (
                #[trigger] final(self)@.frames[i]).sequence == old(self)@.frames[i].sequence
                    && final(self)@.frames[i].image == old(self)@.frames[i].image,
    {
        let frame = self.in_flight[at];
        self.in_flight.set(
            at,
            InFlight { sequence: frame.sequence, image: frame.image, phase },
        );
        proof {
            let frames = old(self)@.frames;
            assert forall|i: int| 0 <= i < frames.len() && i != at implies frames[i].sequence
                != frame.sequence by {
                if i < at {
                    assert(frames[i].sequence < frames[at as int].sequence);
                } else {
                    assert(frames[at as int].sequence < frames[i].sequence);
                }
            }
            assert(self@.frames =~= with_phase(frames, frame.sequence, phase));
        }
    }

    /// Frames occupying an image.
    #[must_use]
    pub fn in_flight(&self) -> (n: usize)
        ensures
            n == self@.frames.len(),
    {
        self.in_flight.len()
    }

    /// Swapchains handed to deferred retirement and not yet reached.
    #[must_use]
    pub fn awaiting_retirement(&self) -> (n: usize)
        ensures
            n == self@.retiring.len(),
    {
        self.retiring.len()
    }

    /// Frames presented, frames superseded, and frames that found no free
    /// image.
    #[must_use]
    pub fn census(&self) -> (counts: (usize, usize, usize))
        ensures
            counts == (self@.presented, self@.superseded, self@.backpressured),
    {
        (self.presented, self.superseded, self.backpressured)
    }
}

/// What the host was asked for decides nothing: two streams that differ in it
/// alone refuse an acquire alike and wake as many parked presents.
pub proof fn the_requested_depth_bounds_nothing(model: PresentModel, depth: Option<usize>)
    ensures
        (PresentModel { requested_depth: depth, ..model }).acquire_refusal()
            == model.acquire_refusal(),
        (PresentModel { requested_depth: depth, ..model }).wakeable() == model.wakeable(),
{
}

/// A ticket from before a swapchain was replaced is refused by every step
/// after it.
pub proof fn a_ticket_of_a_replaced_swapchain_is_stale(
    model: PresentModel,
    ticket: Ticket,
    from: Phase,
    depth: usize,
    images: usize,
    last_use: TimelinePoint,
)
    requires
        ticket.generation.0 <= model.generation.0 < u64::MAX,
    ensures
        model.replaced(depth, images, last_use).advance_refusal(ticket, from) == Some(
            Refusal::StaleGeneration {
                named: ticket.generation,
                current: model.replaced(depth, images, last_use).generation,
            },
        ),
        model.replaced(depth, images, last_use).queue_refusal(ticket) == Some(
            Refusal::StaleGeneration {
                named: ticket.generation,
                current: model.replaced(depth, images, last_use).generation,
            },
        ),
{
}

/// A frame that has been shown gives its image back: no frame occupies it, and
/// a stream that was within its bound can acquire again.
pub proof fn a_shown_frame_returns_its_image(model: PresentModel, ticket: Ticket, at: int)
    requires
        model.consistent(),
        stands_at(model.frames, ticket.sequence, at),
        model.images is Some,
        model.frames.len() <= model.images->0,
    ensures
        !in_use(model.shown(ticket).frames, model.frames[at].image),
        model.shown(ticket).acquire_refusal() is None,
        model.shown(ticket).frames.len() == model.frames.len() - 1,
{
    lemma_without(model.frames, at);
    let left = model.shown(ticket).frames;
    let image = model.frames[at].image;
    assert(left == model.frames.remove(at));
    if in_use(left, image) {
        let i = choose|i: int| occupies(left, i, image);
        let k = if i < at { i } else { i + 1 };
        assert(left[i] == model.frames[k]);
        assert(false);
    }
}

/// Queueing a frame reports every frame it drops: what was in flight is what is
/// still in flight and what was reported.
pub proof fn a_superseded_frame_is_reported(model: PresentModel, ticket: Ticket, at: int)
    requires
        model.consistent(),
        stands_at(model.frames, ticket.sequence, at),
    ensures
        model.dropped_by(ticket).len() == at,
        forall|i: int|
            0 <= i < at ==> #[trigger] model.dropped_by(ticket)[i] == model.frames[i].sequence,
        model.queued(ticket).frames.len() == model.frames.len() - at,
        forall|i: int|
            0 <= i < model.queued(ticket).frames.len() ==> (
            #[trigger] model.queued(ticket).frames[i]).sequence == model.frames[at + i].sequence,
        phase_of(model.queued(ticket).frames, ticket.sequence) == Some(Phase::Queued),
{
    let frames = model.frames;
    assert forall|i: int| 0 <= i < at implies (#[trigger] frames[i]).sequence
        < ticket.sequence by {
        assert(frames[i].sequence < frames[at].sequence);
    }
    assert forall|i: int| at <= i < frames.len() implies (#[trigger] frames[i]).sequence
        >= ticket.sequence by {
        if i > at {
            assert(frames[at].sequence < frames[i].sequence);
        }
    }
    lemma_split(frames, ticket.sequence, at);
    let left = model.queued(ticket).frames;
    assert(in_order(left)) by {
        assert forall|i: int, j: int| 0 <= i < j < left.len() implies (
        #[trigger] left[i]).sequence < (#[trigger] left[j]).sequence by {
            assert(frames[at + i].sequence < frames[at + j].sequence);
        }
    }
    lemma_phase(left, 0);
}

/// Under a first-in-first-out order no frame is dropped.
pub proof fn a_fifo_stream_drops_nothing(model: PresentModel, ticket: Ticket)
    requires
        model.consistent(),
        model.order == Order::Fifo,
        model.queue_refusal(ticket) is None,
    ensures
        model.dropped_by(ticket).len() == 0,
{
    let at = choose|i: int| stands_at(model.frames, ticket.sequence, i);
    assert(stands_at(model.frames, ticket.sequence, at));
    assert(model.frames[0].sequence == ticket.sequence);
    a_superseded_frame_is_reported(model, ticket, 0);
}

/// A present shows what its trailer spells, whatever else the trailer holds.
/// The first form names its mapping and the mapping's task, the second names
/// them the other way round, and the third names a mapping alone.
pub proof fn a_present_shows_what_its_trailer_spells(
    channel: Channel,
    opcode: u16,
    payload: Seq<u8>,
    first: u32,
    second: u32,
)
    requires
        crate::fifo::spells(payload, 4, first),
        crate::fifo::spells(payload, 8, second),
    ensures
        packet_of(channel, opcode, payload) matches Ok(packet) ==> match packet.form {
            PresentForm::Transaction2 => packet.mapping.0 == first && packet.task == Some(
                TaskId(second),
            ),
            PresentForm::Transaction3 => packet.task == Some(TaskId(first)) && packet.mapping.0
                == second,
            PresentForm::SwapMapping => packet.mapping.0 == first && packet.task is None,
        },
        packet_of(channel, opcode, payload) matches Ok(packet) ==> form_of(channel, opcode) == Some(
            packet.form,
        ),
{
    crate::fifo::a_word_reads_as_it_was_spelled(payload, 4, first);
    crate::fifo::a_word_reads_as_it_was_spelled(payload, 8, second);
}

/// A packet is a present exactly when its command is, each form has one
/// command, and no root command is one. A present is refused only for a trailer
/// that is cut short, and a trailer that is read holds every word it is read
/// for.
pub proof fn a_present_is_read_from_a_whole_trailer(
    channel: Channel,
    opcode: u16,
    other: u16,
    payload: Seq<u8>,
)
    ensures
        channel is Root ==> form_of(channel, opcode) is None,
        form_of(channel, opcode) is Some && form_of(channel, opcode) == form_of(channel, other)
            ==> opcode == other,
        (packet_of(channel, opcode, payload) matches Err(ResolveRefusal::NotPresent { .. }))
            <==> form_of(channel, opcode) is None,
        form_of(channel, opcode) matches Some(form) ==> {
            let need = form.trailer_bytes();
            &&& packet_of(channel, opcode, payload) is Ok <==> payload.len() >= need
            &&& packet_of(channel, opcode, payload) matches Err(e) ==> (e
                matches ResolveRefusal::Payload(TrailerRefusal::Short { need: n, .. }) && n == need)
            &&& form.target_at() + 4 <= need
            &&& form.task_at() matches Some(at) ==> at + 4 <= need && at != form.target_at()
            &&& form.task_at() is None <==> form is SwapMapping
        },
{
}

/// An image is free exactly when a swapchain is configured and fewer frames are
/// in flight than it has images.
pub proof fn an_image_is_free_while_frames_are_fewer(model: PresentModel)
    ensures
        model.acquire_refusal() is None <==> (model.images matches Some(images)
            && model.frames.len() < images),
        (model.acquire_refusal() matches Some(Refusal::NotConfigured)) <==> model.images is None,
        model.acquire_refusal() matches Some(Refusal::NoFreeImage { images }) ==> model.images
            == Some(images),
{
}

/// A frame that takes an image stands behind every other, not yet drawn, under
/// a sequence none of them has.
pub proof fn an_acquired_frame_stands_behind_the_others(model: PresentModel, image: usize)
    requires
        model.consistent(),
        model.next_sequence < u64::MAX,
    ensures
        ({
            let ticket = model.ticket_for(image);
            let after = model.with_frame(image);
            let n = model.frames.len();
            &&& ticket.image == image && ticket.generation == model.generation
            &&& after.frames.len() == n + 1
            &&& after.frames[n as int].sequence == ticket.sequence
            &&& after.frames[n as int].image == image
            &&& after.frames[n as int].phase is AcquirePending
            &&& forall|i: int|
                0 <= i < n ==> #[trigger] after.frames[i] == model.frames[i]
                    && model.frames[i].sequence < ticket.sequence
            &&& after.ticket_for(image).sequence > ticket.sequence
            &&& after.parked == model.parked && after.images == model.images && after.generation
                == model.generation
        }),
{
}

/// A frame may leave a phase exactly when its ticket is of this swapchain and
/// it is in flight in that phase.
pub proof fn a_frame_leaves_the_phase_it_is_in(
    model: PresentModel,
    ticket: Ticket,
    from: Phase,
    at: int,
)
    requires
        model.consistent(),
        0 <= at < model.frames.len(),
        model.frames[at].sequence == ticket.sequence,
    ensures
        model.advance_refusal(ticket, from) is None <==> ticket.generation.0 == model.generation.0
            && model.frames[at].phase == from,
        (model.advance_refusal(ticket, from) matches Some(Refusal::StaleGeneration { .. }))
            <==> ticket.generation.0 != model.generation.0,
        model.order == Order::Superseding ==> (model.queue_refusal(ticket) is None
            <==> ticket.generation.0 == model.generation.0 && model.frames[at].phase is Ready),
        model.order == Order::Fifo ==> (model.queue_refusal(ticket) is None
            <==> ticket.generation.0 == model.generation.0 && at == 0 && model.frames[at].phase
            is Ready),
{
    lemma_phase(model.frames, at);
    if at > 0 {
        assert(model.frames[0].sequence < model.frames[at].sequence);
    }
}

/// A frame that is not in flight was superseded, whatever is asked of it.
pub proof fn a_frame_out_of_flight_was_superseded(
    model: PresentModel,
    ticket: Ticket,
    from: Phase,
)
    requires
        ticket.generation.0 == model.generation.0,
        forall|i: int|
            0 <= i < model.frames.len() ==> (#[trigger] model.frames[i]).sequence
                != ticket.sequence,
    ensures
        model.advance_refusal(ticket, from) == Some(
            Refusal::Superseded { by: model.next_sequence },
        ),
        model.queue_refusal(ticket) is Some,
{
}

/// Moving a frame to a phase moves that frame and no other, and leaves every
/// frame on its image.
pub proof fn a_step_moves_one_frame(model: PresentModel, ticket: Ticket, to: Phase, at: int)
    requires
        model.consistent(),
        0 <= at < model.frames.len(),
    ensures
        ({
            let after = model.advanced(ticket, to);
            &&& after.frames.len() == model.frames.len()
            &&& after.frames[at].sequence == model.frames[at].sequence
            &&& after.frames[at].image == model.frames[at].image
            &&& model.frames[at].sequence == ticket.sequence ==> after.frames[at].phase == to
            &&& model.frames[at].sequence != ticket.sequence ==> after.frames[at].phase
                == model.frames[at].phase
            &&& after.presented == model.presented && after.superseded == model.superseded
        }),
{
}

/// A frame that was shown is counted once and no other frame moves; queueing
/// counts what it drops.
pub proof fn shown_and_dropped_frames_are_counted(model: PresentModel, ticket: Ticket, at: int)
    requires
        model.consistent(),
        stands_at(model.frames, ticket.sequence, at),
        model.presented < usize::MAX,
        model.superseded + at <= usize::MAX,
    ensures
        model.shown(ticket).presented == model.presented + 1,
        model.shown(ticket).superseded == model.superseded,
        model.queued(ticket).superseded == model.superseded + at,
        model.queued(ticket).presented == model.presented,
        model.shown(ticket).frames == model.frames.remove(at),
        model.held_back().backpressured == if model.backpressured < usize::MAX {
            model.backpressured + 1
        } else {
            usize::MAX as int
        },
        model.held_back().frames == model.frames && model.held_back().parked == model.parked,
{
    a_superseded_frame_is_reported(model, ticket, at);
    lemma_without(model.frames, at);
}

/// A replaced swapchain is owed its last use. Its frames leave, parked presents
/// stay, and the new one has the images the host returned.
pub proof fn a_replaced_swapchain_is_retired_with_its_last_use(
    model: PresentModel,
    depth: usize,
    images: usize,
    last_use: TimelinePoint,
)
    requires
        model.generation.0 < u64::MAX,
    ensures
        ({
            let after = model.replaced(depth, images, last_use);
            let n = model.retiring.len();
            &&& after.generation.0 == model.generation.0 + 1
            &&& after.images == Some(images) && after.requested_depth == Some(depth)
            &&& after.frames.len() == 0
            &&& after.parked == model.parked
            &&& after.retiring.len() == n + 1
            &&& after.retiring[n as int].generation == model.generation
            &&& after.retiring[n as int].last_use == last_use
            &&& forall|i: int|
                0 <= i < n ==> #[trigger] after.retiring[i] == model.retiring[i]
            &&& model.retired_at(last_use) == after.retiring[n as int]
        }),
{
}

/// Parked presents wake until none is parked or no image is free, and no more
/// of them than there are free images.
pub proof fn as_many_wake_as_there_are_images(model: PresentModel)
    requires
        model.images is Some,
        model.frames.len() <= model.images->0,
    ensures
        model.wakeable() <= model.parked.len(),
        model.frames.len() + model.wakeable() <= model.images->0,
        model.wakeable() == model.parked.len() || model.frames.len() + model.wakeable()
            == model.images->0,
        (PresentModel { images: None, ..model }).wakeable() == 0,
{
}

/// The lowest free image is under no frame, every lower one is under some
/// frame, and there is only one such image.
pub proof fn the_lowest_free_image_is_under_no_frame(
    frames: Seq<InFlight>,
    image: usize,
    other: usize,
    i: int,
)
    requires
        lowest_free(frames, image),
    ensures
        0 <= i < frames.len() ==> frames[i].image != image,
        lowest_free(frames, other) ==> other == image,
        other < image ==> exists|k: int| 0 <= k < frames.len() && (#[trigger] frames[k]).image == other,
{
    if 0 <= i < frames.len() && frames[i].image == image {
        assert(occupies(frames, i, image));
    }
    if other < image {
        assert(in_use(frames, other));
        let k = choose|k: int| occupies(frames, k, other);
        assert(frames[k].image == other);
    }
    if lowest_free(frames, other) && image < other {
        assert(in_use(frames, image));
    }
}

/// Woken presents stand behind the frames in flight, in the order they woke.
pub proof fn woken_frames_stand_behind_the_others(
    frames: Seq<InFlight>,
    woken: Seq<(PresentRequest, Ticket)>,
    i: int,
)
    requires
        0 <= i < woken.len(),
    ensures
        ({
            let after = with_tickets(frames, woken, woken.len() as int);
            &&& after.len() == frames.len() + woken.len()
            &&& after.take(frames.len() as int) == frames
            &&& after[frames.len() + i].sequence == woken[i].1.sequence
            &&& after[frames.len() + i].image == woken[i].1.image
            &&& after[frames.len() + i].phase is AcquirePending
        }),
{
    assert(with_tickets(frames, woken, woken.len() as int).take(frames.len() as int) =~= frames);
}

} // verus!
