//! The state of one connection that does not touch the network: its channels, the
//! numbering of its packets, and the timers that decide when to send heartbeats and
//! pings and when the other end has gone quiet for too long.
use vstd::prelude::*;
use std::time::{Duration, Instant};
use crate::bit_reader::BitReader;
use crate::bit_write::BitWrite;
use crate::error::SerdeErr;
use crate::message::Message;
use crate::message_manager::{MessageManager, Payload, all_handed, emptied, message_section, messages_received, channel_plan, lemma_plan_fits, first_ready_fits, message_queued, messages_collected, messages_written, packet_acked, queued_total, received_total, sent_total};
use crate::packet::{PacketHeader, PacketType, PacketWriter, Ping, Pong, lemma_packet_prefix_len, packet_prefix};
use crate::rollover_counter::RolloverCounter;
use crate::schema::ChannelKinds;
use crate::seq_num::{HostType, SeqNum, wrap16};
use crate::serde::{Serde, lemma_le_bytes_len};
use crate::timer::Timer;

verus! {

/// One end of a connection, apart from its address, its clock and its socket.
pub struct BaseConnection<M> {
    message_manager: MessageManager<M>,
    packet_seq: RolloverCounter,
    heartbeat_timer: Timer,
    ping_timer: Timer,
    timeout_timer: Timer,
}

impl<M: Message + Clone> BaseConnection<M> {
    /// The channels' senders and receivers.
    pub closed spec fn manager(&self) -> MessageManager<M> {
        self.message_manager
    }

    /// The counter whose next value numbers the next packet.
    pub closed spec fn packet_counter(&self) -> RolloverCounter {
        self.packet_seq
    }

    /// The interval after which a heartbeat is sent when nothing else was.
    pub closed spec fn heartbeat_interval(&self) -> Duration {
        self.heartbeat_timer.spec_duration()
    }

    /// The interval between pings.
    pub closed spec fn ping_interval(&self) -> Duration {
        self.ping_timer.spec_duration()
    }

    /// The silence after which the connection times out.
    pub closed spec fn timeout(&self) -> Duration {
        self.timeout_timer.spec_duration()
    }

    /// A connection over the channels of `channel_kinds` for `host_type`, whose first
    /// packet will be numbered 0.
    pub fn new(
        host_type: HostType,
        heartbeat_interval: Duration,
        ping_interval: Duration,
        timeout: Duration,
        channel_kinds: &ChannelKinds,
    ) -> (r: Self)
        ensures
            r.manager().set_up_for(host_type, channel_kinds.settings()),
            r.packet_counter().rollovers == u32::MAX,
            r.packet_counter().seq == SeqNum(65535),
            r.heartbeat_interval() == heartbeat_interval,
            r.ping_interval() == ping_interval,
            r.timeout() == timeout,
    {
        BaseConnection {
            message_manager: MessageManager::new(host_type, channel_kinds),
            packet_seq: RolloverCounter::max(),
            heartbeat_timer: Timer::new(heartbeat_interval),
            ping_timer: Timer::new(ping_interval),
            timeout_timer: Timer::new(timeout),
        }
    }

    /// The three timers.
    pub closed spec fn timers(&self) -> (Timer, Timer, Timer) {
        (self.heartbeat_timer, self.ping_timer, self.timeout_timer)
    }

    /// Records that a packet was sent, which puts off the next heartbeat.
    pub fn mark_sent(&mut self)
        ensures
            final(self).manager() == old(self).manager(),
            final(self).packet_counter() == old(self).packet_counter(),
            final(self).timers().1 == old(self).timers().1,
            final(self).timers().2 == old(self).timers().2,
            final(self).heartbeat_interval() == old(self).heartbeat_interval(),
    {
        self.heartbeat_timer.reset()
    }

    /// Records that a packet was heard from the other end, which puts off the timeout.
    pub fn mark_heard(&mut self)
        ensures
            final(self).manager() == old(self).manager(),
            final(self).packet_counter() == old(self).packet_counter(),
            final(self).timers().0 == old(self).timers().0,
            final(self).timers().1 == old(self).timers().1,
            final(self).timeout() == old(self).timeout(),
    {
        self.timeout_timer.reset()
    }

    /// Whether the other end has been silent for the timeout. This is read from the
    /// clock, so nothing is stated of it.
    pub fn timed_out(&self) -> bool {
        self.timeout_timer.ringing()
    }

    /// Starts a packet of type `packet_type` under the next packet number.
    pub fn packet_writer(&mut self, packet_type: PacketType) -> (r: PacketWriter)
        ensures
            final(self).packet_counter().seq.0 == wrap16(old(self).packet_counter().seq.0 + 1),
            final(self).packet_counter().count() == (old(self).packet_counter().count() + 1) % 0x1_0000_0000_0000,
            r.header() == (PacketHeader { packet_type, packet_seq: final(self).packet_counter().seq }),
            r.inner().inv(),
            r.inner().written() == packet_prefix(r.header()),
            r.inner().room() == crate::constants::MTU_SIZE_BITS - packet_prefix(r.header()).len(),
            r.inner().capacity() == crate::constants::MTU_SIZE_BITS - packet_prefix(r.header()).len(),
            final(self).manager() == old(self).manager(),
            final(self).timers() == old(self).timers(),
    {
        let packet_seq = self.packet_seq.incr();
        PacketWriter::new(PacketHeader { packet_type, packet_seq })
    }

    /// Starts a data packet under the next packet number and writes into it the messages
    /// the channels have ready (see `MessageManager::write_messages`).
    pub fn write_data_packet(&mut self) -> (r: PacketWriter)
        requires
            old(self).manager().wf(),
            old(self).manager().senders().len() <= 0x1_0000,
            forall|j: int| 0 <= j < old(self).manager().senders().len() ==> (#[trigger] old(self).manager().senders()[j] matches Some(
                s,
            ) ==> s.countable_out()),
            first_ready_fits(
                old(self).manager().senders(),
                0,
                crate::constants::MTU_SIZE_BITS - packet_prefix(
                    PacketHeader {
                        packet_type: PacketType::Data,
                        packet_seq: SeqNum(wrap16(old(self).packet_counter().seq.0 + 1)),
                    },
                ).len() - 1,
            ),
        ensures
            final(self).packet_counter().seq.0 == wrap16(old(self).packet_counter().seq.0 + 1),
            final(self).packet_counter().count() == (old(self).packet_counter().count() + 1) % 0x1_0000_0000_0000,
            final(self).timers() == old(self).timers(),
            ({
                let header = PacketHeader { packet_type: PacketType::Data, packet_seq: final(self).packet_counter().seq };
                let cap = crate::constants::MTU_SIZE_BITS - packet_prefix(header).len() - 1;
                let plan = channel_plan(old(self).manager().senders(), 0, cap);
                &&& r.header() == header
                &&& r.inner().inv()
                &&& r.inner().written() == packet_prefix(header) + plan.0 + seq![false]
                &&& messages_written(old(self).manager(), final(self).manager(), cap, header.packet_seq)
            }),
    {
        let mut writer = self.packet_writer(PacketType::Data);
        let seq = writer.packet_seq();
        proof {
            lemma_packet_prefix_len(writer.header());
            lemma_plan_fits(self.message_manager.senders(), 0, writer.inner().capacity() - 1);
        }
        self.message_manager.write_messages(writer.inner_mut(), seq);
        writer
    }

    /// Reads the channel messages of a data packet, whose header has been read, and hands
    /// them to the channels' receivers (see `MessageManager::read_messages`).
    pub fn read_data_packet(&mut self, reader: &mut BitReader) -> (r: Result<(), SerdeErr>)
        requires
            old(self).manager().wf(),
            old(reader).wf(),
        ensures
            final(reader).wf(),
            final(reader).bits() == old(reader).bits(),
            final(self).manager().wf(),
            final(self).manager().receiver_kinds() == old(self).manager().receiver_kinds(),
            final(self).packet_counter() == old(self).packet_counter(),
            final(self).timers() == old(self).timers(),
            match message_section::<M>(old(self).manager().receiver_kinds(), old(reader).remaining()) {
                Some((secs, n)) => r is Ok && final(reader).position() == old(reader).position() + n
                    && messages_received(old(self).manager(), final(self).manager(), secs),
                None => r is Err,
            },
    {
        self.message_manager.read_messages(reader)
    }

    /// Hands over every message the channels' receivers kept (see
    /// `MessageManager::receive_messages`).
    pub fn receive_messages(&mut self) -> (r: Vec<Payload<M>>)
        requires
            old(self).manager().wf(),
        ensures
            r@ == all_handed(old(self).manager().receivers(), old(self).manager().receivers().len() as int),
            final(self).manager().wf(),
            final(self).manager().receivers().len() == old(self).manager().receivers().len(),
            forall|j: int| 0 <= j < old(self).manager().receivers().len() ==> match #[trigger] old(self).manager().receivers()[j] {
                Some(a) => final(self).manager().receivers()[j] matches Some(b) && emptied(a, b),
                None => final(self).manager().receivers()[j] is None,
            },
            final(self).manager().senders() == old(self).manager().senders(),
            final(self).manager().in_flight() == old(self).manager().in_flight(),
            final(self).packet_counter() == old(self).packet_counter(),
            final(self).timers() == old(self).timers(),
    {
        self.message_manager.receive_messages()
    }

    /// Whether a data packet can be written now (see `write_data_packet`): the channels'
    /// ready messages count their bits in a `u32`, and the first channel with messages
    /// ready can write its first one into an empty data packet.
    pub fn can_write_data_packet(&self) -> (r: bool)
        requires
            self.manager().wf(),
        ensures
            r == (self.manager().senders().len() <= 0x1_0000 && (forall|j: int| 0 <= j < self.manager().senders().len()
                ==> (#[trigger] self.manager().senders()[j] matches Some(s) ==> s.countable_out())) && first_ready_fits(
                self.manager().senders(),
                0,
                crate::constants::MTU_SIZE_BITS - packet_prefix(
                    PacketHeader {
                        packet_type: PacketType::Data,
                        packet_seq: SeqNum(wrap16(self.packet_counter().seq.0 + 1)),
                    },
                ).len() - 1,
            )),
    {
        let ghost header = PacketHeader {
            packet_type: PacketType::Data,
            packet_seq: SeqNum(wrap16(self.packet_counter().seq.0 + 1)),
        };
        proof {
            lemma_packet_prefix_len(header);
            assert(packet_prefix(header).len() == 152);
        }
        self.message_manager.can_write(crate::constants::MTU_SIZE_BITS - 152)
    }

    /// Whether a collection can count every message waiting on the reliable channels.
    pub fn can_collect_messages(&self) -> (r: bool)
        requires
            self.manager().wf(),
        ensures
            r == self.manager().can_collect(),
    {
        self.message_manager.collect_fits()
    }

    /// Acknowledges the messages written into packet `packet_seq`, now that the other
    /// end reported it delivered; those messages are no longer resent.
    pub fn notify_packet_delivered(&mut self, packet_seq: SeqNum)
        requires
            old(self).manager().wf(),
        ensures
            packet_acked(old(self).manager(), final(self).manager(), packet_seq),
            final(self).packet_counter() == old(self).packet_counter(),
            final(self).timers() == old(self).timers(),
    {
        self.message_manager.notify_packet_delivered(packet_seq)
    }

    /// When the heartbeat timer rings, resets it and starts a heartbeat packet, which the
    /// caller sends; else changes nothing. Whether it rings is read from the clock.
    pub fn heartbeat_packet(&mut self) -> (r: Option<PacketWriter>)
        ensures
            r is None ==> *final(self) == *old(self),
            r matches Some(w) ==> {
                &&& w.header() == (PacketHeader { packet_type: PacketType::Heartbeat, packet_seq: final(self).packet_counter().seq })
                &&& final(self).packet_counter().seq.0 == wrap16(old(self).packet_counter().seq.0 + 1)
                &&& w.inner().inv()
                &&& w.inner().written() == packet_prefix(w.header())
                &&& final(self).manager() == old(self).manager()
            },
            final(self).timers().1 == old(self).timers().1,
            final(self).timers().2 == old(self).timers().2,
            final(self).timers().0.spec_duration() == old(self).timers().0.spec_duration(),
            final(self).heartbeat_interval() == old(self).heartbeat_interval(),
    {
        if !self.heartbeat_timer.try_reset() {
            return None;
        }
        Some(self.packet_writer(PacketType::Heartbeat))
    }

    /// When the ping timer rings, resets it and starts a ping packet stamped
    /// `timestamp_ns`, which the caller sends; else changes nothing. Whether it rings is
    /// read from the clock.
    pub fn ping_packet(&mut self, timestamp_ns: u64) -> (r: Option<PacketWriter>)
        ensures
            r is None ==> *final(self) == *old(self),
            r matches Some(w) ==> {
                &&& w.header() == (PacketHeader { packet_type: PacketType::Ping, packet_seq: final(self).packet_counter().seq })
                &&& final(self).packet_counter().seq.0 == wrap16(old(self).packet_counter().seq.0 + 1)
                &&& w.inner().inv()
                &&& w.inner().written() == packet_prefix(w.header()) + (Ping { timestamp_ns }).encoding()
                &&& final(self).manager() == old(self).manager()
            },
            final(self).timers().0 == old(self).timers().0,
            final(self).timers().2 == old(self).timers().2,
            final(self).timers().1.spec_duration() == old(self).timers().1.spec_duration(),
            final(self).ping_interval() == old(self).ping_interval(),
    {
        if !self.ping_timer.try_reset() {
            return None;
        }
        let mut writer = self.packet_writer(PacketType::Ping);
        proof {
            lemma_le_bytes_len(timestamp_ns as nat, 8);
            lemma_packet_prefix_len(writer.header());
        }
        writer.write(&Ping { timestamp_ns });
        Some(writer)
    }

    /// Reads a ping and starts the pong that answers it with the same timestamp, which
    /// the caller sends. Fails, changing nothing but the reader, when no ping can be read.
    pub fn pong_packet(&mut self, reader: &mut BitReader) -> (r: Result<PacketWriter, SerdeErr>)
        requires
            old(reader).wf(),
        ensures
            final(reader).wf(),
            final(reader).bits() == old(reader).bits(),
            match Ping::decoding(old(reader).remaining()) {
                Some((ping, n)) => r matches Ok(w) && {
                    &&& w.header() == (PacketHeader { packet_type: PacketType::Pong, packet_seq: final(self).packet_counter().seq })
                    &&& final(self).packet_counter().seq.0 == wrap16(old(self).packet_counter().seq.0 + 1)
                    &&& w.inner().inv()
                    &&& w.inner().written() == packet_prefix(w.header()) + (Pong { timestamp_ns: ping.timestamp_ns }).encoding()
                    &&& final(reader).position() == old(reader).position() + n
                    &&& final(self).manager() == old(self).manager()
                    &&& final(self).timers() == old(self).timers()
                },
                None => r is Err && *final(self) == *old(self),
            },
    {
        let ping = match Ping::de(reader) {
            Ok(ping) => ping,
            Err(e) => {
                return Err(e);
            },
        };
        let mut writer = self.packet_writer(PacketType::Pong);
        let pong = Pong { timestamp_ns: ping.timestamp_ns };
        proof {
            lemma_le_bytes_len(pong.timestamp_ns as nat, 8);
            lemma_packet_prefix_len(writer.header());
        }
        writer.write(&pong);
        Ok(writer)
    }

    /// Whether some channel has messages ready to be written.
    pub fn has_outgoing_messages(&self) -> (r: bool)
        ensures
            r == exists|i: int| 0 <= i < self.manager().senders().len() && (#[trigger] self.manager().senders()[i] matches Some(s)
                && s.pending()),
    {
        self.message_manager.has_outgoing_messages()
    }

    /// Queues `message` on channel `channel` (see `MessageManager::queue_message`).
    pub fn queue_message(&mut self, channel: u16, message: M)
        requires
            old(self).manager().can_queue(channel, message),
        ensures
            message_queued(old(self).manager(), final(self).manager(), channel, message),
            final(self).packet_counter() == old(self).packet_counter(),
            final(self).timers() == old(self).timers(),
    {
        self.message_manager.queue_message(channel, message)
    }

    /// Collects the messages due to be written again, at `now`, on every reliable channel
    /// (see `MessageManager::collect_messages`).
    pub fn collect_messages(&mut self, now: &Instant, resend: Duration)
        requires
            old(self).manager().can_collect(),
        ensures
            messages_collected(old(self).manager(), final(self).manager(), *now),
            final(self).packet_counter() == old(self).packet_counter(),
            final(self).timers() == old(self).timers(),
    {
        self.message_manager.collect_messages(now, resend)
    }

    /// The channels' counts of messages received, added up.
    pub fn msg_rx_count(&self) -> (r: u64)
        requires
            received_total(self.manager().receivers()) <= u64::MAX,
        ensures
            r == received_total(self.manager().receivers()),
    {
        self.message_manager.msg_rx_count()
    }

    /// The channels' counts of received messages dropped, added up.
    pub fn msg_rx_drop_count(&self) -> (r: u64)
        ensures
            r == 0,
    {
        self.message_manager.msg_rx_drop_count()
    }

    /// The channels' counts of messages missed, added up.
    pub fn msg_rx_miss_count(&self) -> (r: u64)
        ensures
            r == 0,
    {
        self.message_manager.msg_rx_miss_count()
    }

    /// The channels' counts of messages sent, added up.
    pub fn msg_tx_count(&self) -> (r: u64)
        requires
            sent_total(self.manager().senders()) <= u64::MAX,
        ensures
            r == sent_total(self.manager().senders()),
    {
        self.message_manager.msg_tx_count()
    }

    /// The channels' counts of messages queued, added up.
    pub fn msg_tx_queue_count(&self) -> (r: u64)
        requires
            queued_total(self.manager().senders()) <= u64::MAX,
        ensures
            r == queued_total(self.manager().senders()),
    {
        self.message_manager.msg_tx_queue_count()
    }
}

} // verus!

