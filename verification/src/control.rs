//! Control packets: what changes which submission domains exist.
//!
//! Two root commands open and free a domain. Everything else a control packet
//! may ask for, a display setting or nothing at all, leaves the ordering plane
//! alone.

use vstd::prelude::*;
use crate::fifo::read_word;
use crate::identity::ChannelId;
use crate::transaction::Channel;

verus! {

/// What a channel command does to the domain it names.
#[derive(Clone, Copy, Debug, PartialEq, Eq, Structural)]
pub enum ChannelTransition {
    Open,
    Free,
}

/// One control operation.
#[derive(Clone, Copy, Debug, PartialEq, Eq, Structural)]
pub enum ControlOp {
    /// A submission domain opens or ends.
    Channel { transition: ChannelTransition, domain: ChannelId },
    /// The layer that has a display acts on it.
    Display { opcode: u16 },
    /// The payload does nothing.
    Inert { opcode: u16 },
}

/// Why a packet's bytes did not become a channel transition.
#[derive(Clone, Copy, Debug, PartialEq, Eq, Structural)]
pub enum ResolveRefusal {
    /// The command is neither of the two channel commands.
    NotAChannelCommand { channel: Channel, opcode: u16 },
    /// The payload is too short to name a domain.
    Short { have: usize },
}

/// The transition a command asks for, if it is a channel command.
pub open spec fn transition_of(channel: Channel, opcode: u16) -> Option<ChannelTransition> {
    match channel {
        Channel::Child => None,
        Channel::Root => if opcode == 0x30 {
            Some(ChannelTransition::Open)
        } else if opcode == 0x31 {
            Some(ChannelTransition::Free)
        } else {
            None
        },
    }
}

/// What a channel command's bytes come to.
pub open spec fn control_of(channel: Channel, opcode: u16, payload: Seq<u8>) -> Result<
    ControlOp,
    ResolveRefusal,
> {
    match transition_of(channel, opcode) {
        None => Err(ResolveRefusal::NotAChannelCommand { channel, opcode }),
        Some(transition) => if payload.len() < 4 {
            Err(ResolveRefusal::Short { have: payload.len() as usize })
        } else {
            Ok(
                ControlOp::Channel {
                    transition,
                    domain: ChannelId(crate::fifo::word_at(payload, 0)),
                },
            )
        },
    }
}

/// Turn a channel command's bytes into the transition it asks for. The payload
/// starts with the domain.
pub fn resolve(channel: Channel, opcode: u16, payload: &[u8]) -> (r: Result<
    ControlOp,
    ResolveRefusal,
>)
    ensures
        r == control_of(channel, opcode, payload@),
{
    let transition = match channel {
        Channel::Root if opcode == 0x30 => ChannelTransition::Open,
        Channel::Root if opcode == 0x31 => ChannelTransition::Free,
        _ => {
            return Err(ResolveRefusal::NotAChannelCommand { channel, opcode });
        },
    };
    let have = payload.len();
    if have < 4 {
        return Err(ResolveRefusal::Short { have });
    }
    Ok(ControlOp::Channel { transition, domain: ChannelId(read_word(payload, 0)) })
}

/// A channel command acts on the domain its payload starts with, whatever
/// follows it. No command both opens and frees one, and a child channel can do
/// neither.
pub proof fn a_channel_command_acts_on_the_domain_it_spells(
    channel: Channel,
    opcode: u16,
    payload: Seq<u8>,
    domain: u32,
)
    requires
        crate::fifo::spells(payload, 0, domain),
    ensures
        channel is Child ==> control_of(channel, opcode, payload) is Err,
        control_of(channel, opcode, payload) matches Ok(op) ==> op matches ControlOp::Channel {
            transition,
            domain: named,
        } && named.0 == domain && transition_of(channel, opcode) == Some(transition),
        control_of(channel, opcode, payload) is Ok <==> transition_of(channel, opcode) is Some,
{
    crate::fifo::a_word_reads_as_it_was_spelled(payload, 0, domain);
}

/// Opening and freeing are two commands, and each has one opcode.
pub proof fn a_transition_has_one_command(first: u16, second: u16)
    ensures
        transition_of(Channel::Root, first) is Some && transition_of(Channel::Root, first)
            == transition_of(Channel::Root, second) ==> first == second,
        transition_of(Channel::Child, first) is None,
{
}

/// A payload too short to name a domain is refused with its length.
pub proof fn a_short_channel_command_is_refused(channel: Channel, opcode: u16, payload: Seq<u8>)
    requires
        transition_of(channel, opcode) is Some,
        payload.len() < 4,
    ensures
        control_of(channel, opcode, payload) matches Err(ResolveRefusal::Short { have }) && have
            == payload.len(),
{
}

} // verus!
