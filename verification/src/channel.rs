//! Channels: how each kind of message travels, and which end may send it.
use vstd::prelude::*;
use crate::seq_num::HostType;

verus! {

/// A type that names a channel.
pub trait Channel: 'static {
}

/// The delivery guarantees of a channel.
#[derive(Clone, Copy, Debug, PartialEq, Eq, Structural)]
pub enum ChannelMode {
    /// Messages can be dropped, duplicated and/or arrive in any order.
    /// Resend=no, Dedupe=no, Order=no
    UnorderedUnreliable,
    /// Like SequencedReliable, but messages may not arrive at all. Received old messages
    /// are not delivered.
    /// Resend=no, Dedupe=yes, Order=yes
    SequencedUnreliable,
    /// Messages arrive without duplicates, but in any order.
    /// Resend=yes, Dedupe=yes, Order=no
    UnorderedReliable,
    /// Messages arrive without duplicates and in order, but only the most recent gets
    /// delivered. For example, given messages sent A->B->C and received in order A->C->B,
    /// only A->C gets delivered. B gets dropped because it is not the most recent.
    /// Resend=yes, Dedupe=yes, Order=yes
    SequencedReliable,
    /// Messages arrive in order and without duplicates.
    /// Resend=yes, Dedupe=yes, Order=yes
    OrderedReliable,
}

/// Which end of a connection may send on a channel.
#[derive(Clone, Copy, Debug, PartialEq, Eq, Structural)]
pub enum ChannelDirection {
    ClientToServer,
    ServerToClient,
    Bidirectional,
}

/// The sending side that a host keeps for a channel.
#[derive(Clone, Copy, Debug, PartialEq, Eq, Structural)]
pub enum SenderKind {
    UnorderedUnreliable,
    SequencedUnreliable,
    Reliable,
}

/// The receiving side that a host keeps for a channel.
#[derive(Clone, Copy, Debug, PartialEq, Eq, Structural)]
pub enum ReceiverKind {
    UnorderedUnreliable,
    SequencedUnreliable,
    UnorderedReliable,
    SequencedReliable,
    OrderedReliable,
}

/// A channel's mode and direction.
#[derive(Clone, Copy, Debug, PartialEq, Eq, Structural)]
pub struct ChannelSettings {
    pub mode: ChannelMode,
    pub direction: ChannelDirection,
}

/// Whether messages in `mode` are resent until they arrive.
pub open spec fn mode_reliable(mode: ChannelMode) -> bool {
    match mode {
        ChannelMode::UnorderedUnreliable | ChannelMode::SequencedUnreliable => false,
        _ => true,
    }
}

/// Whether the client may send in `direction`.
pub open spec fn to_server(direction: ChannelDirection) -> bool {
    direction != ChannelDirection::ServerToClient
}

/// Whether the server may send in `direction`.
pub open spec fn to_client(direction: ChannelDirection) -> bool {
    direction != ChannelDirection::ClientToServer
}

/// Whether `host` sends on a channel in `direction`.
pub open spec fn host_sends(host: HostType, direction: ChannelDirection) -> bool {
    match host {
        HostType::Server => to_client(direction),
        HostType::Client => to_server(direction),
    }
}

impl ChannelSettings {
    /// Settings with the given mode and direction.
    pub fn new(mode: ChannelMode, direction: ChannelDirection) -> (r: Self)
        ensures
            r.mode == mode && r.direction == direction,
    {
        Self { mode, direction }
    }

    /// Whether messages are resent until they arrive.
    pub fn reliable(&self) -> (r: bool)
        ensures
            r == mode_reliable(self.mode),
    {
        match self.mode {
            ChannelMode::UnorderedUnreliable => false,
            ChannelMode::SequencedUnreliable => false,
            ChannelMode::UnorderedReliable => true,
            ChannelMode::SequencedReliable => true,
            ChannelMode::OrderedReliable => true,
        }
    }

    /// Whether the client may send on this channel.
    pub fn can_send_to_server(&self) -> (r: bool)
        ensures
            r == to_server(self.direction),
    {
        match self.direction {
            ChannelDirection::ClientToServer => true,
            ChannelDirection::ServerToClient => false,
            ChannelDirection::Bidirectional => true,
        }
    }

    /// Whether the server may send on this channel.
    pub fn can_send_to_client(&self) -> (r: bool)
        ensures
            r == to_client(self.direction),
    {
        match self.direction {
            ChannelDirection::ClientToServer => false,
            ChannelDirection::ServerToClient => true,
            ChannelDirection::Bidirectional => true,
        }
    }

    /// The sender `host` keeps for this channel: none when it may not send on it, one
    /// shared reliable sender for every reliable mode.
    pub fn sender_for(&self, host: HostType) -> (r: Option<SenderKind>)
        ensures
            r == sender_spec(*self, host),
    {
        let sends = match host {
            HostType::Server => self.can_send_to_client(),
            HostType::Client => self.can_send_to_server(),
        };
        if !sends {
            return None;
        }
        match self.mode {
            ChannelMode::UnorderedUnreliable => Some(SenderKind::UnorderedUnreliable),
            ChannelMode::SequencedUnreliable => Some(SenderKind::SequencedUnreliable),
            ChannelMode::UnorderedReliable | ChannelMode::SequencedReliable
            | ChannelMode::OrderedReliable => Some(SenderKind::Reliable),
        }
    }

    /// The receiver `host` keeps for this channel: none when the other end may not send
    /// on it, else the one matching the mode.
    pub fn receiver_for(&self, host: HostType) -> (r: Option<ReceiverKind>)
        ensures
            r == receiver_spec(*self, host),
    {
        let receives = match host {
            HostType::Server => self.can_send_to_server(),
            HostType::Client => self.can_send_to_client(),
        };
        if !receives {
            return None;
        }
        match self.mode {
            ChannelMode::UnorderedUnreliable => Some(ReceiverKind::UnorderedUnreliable),
            ChannelMode::SequencedUnreliable => Some(ReceiverKind::SequencedUnreliable),
            ChannelMode::UnorderedReliable => Some(ReceiverKind::UnorderedReliable),
            ChannelMode::SequencedReliable => Some(ReceiverKind::SequencedReliable),
            ChannelMode::OrderedReliable => Some(ReceiverKind::OrderedReliable),
        }
    }
}

/// The other end of a connection.
pub open spec fn other_end(host: HostType) -> HostType {
    match host {
        HostType::Server => HostType::Client,
        HostType::Client => HostType::Server,
    }
}

/// The sender `host` keeps for a channel with `settings`.
pub open spec fn sender_spec(settings: ChannelSettings, host: HostType) -> Option<SenderKind> {
    if !host_sends(host, settings.direction) {
        None
    } else {
        Some(
            match settings.mode {
                ChannelMode::UnorderedUnreliable => SenderKind::UnorderedUnreliable,
                ChannelMode::SequencedUnreliable => SenderKind::SequencedUnreliable,
                _ => SenderKind::Reliable,
            },
        )
    }
}

/// The receiver `host` keeps for a channel with `settings`.
pub open spec fn receiver_spec(settings: ChannelSettings, host: HostType) -> Option<ReceiverKind> {
    if !host_sends(other_end(host), settings.direction) {
        None
    } else {
        Some(
            match settings.mode {
                ChannelMode::UnorderedUnreliable => ReceiverKind::UnorderedUnreliable,
                ChannelMode::SequencedUnreliable => ReceiverKind::SequencedUnreliable,
                ChannelMode::UnorderedReliable => ReceiverKind::UnorderedReliable,
                ChannelMode::SequencedReliable => ReceiverKind::SequencedReliable,
                ChannelMode::OrderedReliable => ReceiverKind::OrderedReliable,
            },
        )
    }
}

/// Whether a sender and a receiver of these kinds work together.
pub open spec fn kinds_match(s: SenderKind, r: ReceiverKind) -> bool {
    match s {
        SenderKind::UnorderedUnreliable => r == ReceiverKind::UnorderedUnreliable,
        SenderKind::SequencedUnreliable => r == ReceiverKind::SequencedUnreliable,
        SenderKind::Reliable => r == ReceiverKind::UnorderedReliable || r
            == ReceiverKind::SequencedReliable || r == ReceiverKind::OrderedReliable,
    }
}

/// Whatever one end sends on a channel, the other end has a receiver for, of the
/// matching kind; and an end has no receiver where the other end has no sender.
pub proof fn law_senders_meet_receivers(settings: ChannelSettings, host: HostType)
    ensures
        sender_spec(settings, host) is Some <==> receiver_spec(settings, other_end(host)) is Some,
        sender_spec(settings, host) is Some ==> kinds_match(
            sender_spec(settings, host)->0,
            receiver_spec(settings, other_end(host))->0,
        ),
{
}

} // verus!
