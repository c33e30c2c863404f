use naia_lite::ack_manager::{AckManager, StandardHeader, REDUNDANT_PACKET_ACKS_SIZE};
use naia_lite::channel::{ChannelDirection, ChannelMode, ChannelSettings, ReceiverKind, SenderKind};
use naia_lite::id_pool::{CheckedIncr, IdPool};
use naia_lite::packet::PacketType;
use naia_lite::ping_store::PingStore;
use naia_lite::receivers::{SequencedArranger, SequencedUnreliableReceiver, UnorderedUnreliableReceiver};
use naia_lite::bit_reader::BitReader;
use naia_lite::bit_writer::BitWriter;
use naia_lite::fragment::{FragmentId, FragmentIndex, FragmentedMessage};
use naia_lite::message::Message;
use naia_lite::reliable_receiver::{Arranger, ReliableMessageReceiver, ReliableReceiver, SequencedReliableReceiver};
use naia_lite::serde::Serde;
use naia_lite::seq_num::{HostType, SeqNum};
use naia_lite::timer::Timer;
use std::time::{Duration, Instant};

#[test]
fn reliable_receiver_delivers_each_message_once() {
    let mut receiver: ReliableReceiver<&str> = ReliableReceiver::new();
    assert!(receiver.buffer_message(SeqNum(1), "b"));
    assert!(receiver.buffer_message(SeqNum(0), "a"));
    assert!(!receiver.buffer_message(SeqNum(1), "b again"));
    assert!(!receiver.buffer_message(SeqNum(0), "a again"));
    assert!(receiver.buffer_message(SeqNum(3), "d"));
    assert_eq!(receiver.receive_messages(), vec![(SeqNum(1), "b"), (SeqNum(0), "a"), (SeqNum(3), "d")]);
    assert_eq!(receiver.receive_messages(), vec![]);
    assert!(receiver.buffer_message(SeqNum(2), "c"));
    assert!(!receiver.buffer_message(SeqNum(3), "d again"));
    assert_eq!(receiver.receive_messages(), vec![(SeqNum(2), "c")]);
}

#[test]
fn ack_manager_reports_acked_data_once() {
    let mut sender = AckManager::new();
    let mut receiver = AckManager::new();
    assert_eq!(sender.next_sender_packet_index(), SeqNum(0));
    let h0 = sender.next_outgoing_packet_header(PacketType::Data);
    let h1 = sender.next_outgoing_packet_header(PacketType::Heartbeat);
    let h2 = sender.next_outgoing_packet_header(PacketType::Data);
    assert_eq!(h0.sender_packet_index, SeqNum(0));
    assert_eq!(h2.sender_packet_index, SeqNum(2));
    assert_eq!(sender.next_sender_packet_index(), SeqNum(3));

    // the receiver gets packets 0 and 2, not 1
    assert_eq!(receiver.process_incoming_header(&h0), vec![]);
    assert_eq!(receiver.process_incoming_header(&h2), vec![]);
    let reply = receiver.next_outgoing_packet_header(PacketType::Data);
    assert_eq!(reply.sender_ack_index, SeqNum(2));
    assert_eq!(reply.sender_ack_bitfield & 0b11, 0b10);
    let _ = h1;

    let delivered = sender.process_incoming_header(&reply);
    assert_eq!(delivered, vec![SeqNum(2), SeqNum(0)]);
    let again = sender.process_incoming_header(&reply);
    assert_eq!(again, vec![]);
}

#[test]
fn ack_header_fields() {
    let header = StandardHeader::new(PacketType::Ping, SeqNum(4), SeqNum(3), 7);
    assert_eq!(header.packet_type, PacketType::Ping);
    assert_eq!(header.sender_ack_bitfield, 7);
    assert_eq!(REDUNDANT_PACKET_ACKS_SIZE, 32);
    assert!(PacketType::Data.is_encrypted());
    assert!(!PacketType::EncryptRequest.is_encrypted());
    assert_eq!(PacketType::Disconnect.to_u8(), 9);
}

#[test]
fn id_pool_gives_smallest_returned_first() {
    let mut pool = IdPool::default();
    assert_eq!(pool.get(), Some(0));
    assert_eq!(pool.get(), Some(1));
    assert_eq!(pool.get(), Some(2));
    pool.put(2);
    pool.put(0);
    assert_eq!(pool.get(), Some(0));
    assert_eq!(pool.get(), Some(2));
    assert_eq!(pool.get(), Some(3));
    assert_eq!(65535u16.checked_incr(), None);
    assert_eq!(7u16.checked_incr(), Some(8));
}

#[test]
fn ping_store_finds_sent_pings() {
    let mut store = PingStore::new();
    let t = Instant::now();
    let p0 = store.push_new(t);
    let p1 = store.push_new(t);
    assert_eq!(p0, SeqNum(0));
    assert_eq!(p1, SeqNum(1));
    assert_eq!(store.remove(SeqNum(1)), Some(t));
    assert_eq!(store.remove(SeqNum(1)), None);
    assert_eq!(store.remove(SeqNum(0)), Some(t));
    for _ in 0..40 {
        store.push_new(t);
    }
    assert_eq!(store.remove(SeqNum(2)), None);
    assert_eq!(store.remove(SeqNum(41)), Some(t));
    store.clear();
    assert_eq!(store.remove(SeqNum(40)), None);
}

#[test]
fn channel_settings_and_layout() {
    let settings = ChannelSettings::new(ChannelMode::OrderedReliable, ChannelDirection::ClientToServer);
    assert!(settings.reliable());
    assert!(settings.can_send_to_server());
    assert!(!settings.can_send_to_client());
    assert_eq!(settings.sender_for(HostType::Client), Some(SenderKind::Reliable));
    assert_eq!(settings.sender_for(HostType::Server), None);
    assert_eq!(settings.receiver_for(HostType::Server), Some(ReceiverKind::OrderedReliable));
    assert_eq!(settings.receiver_for(HostType::Client), None);
    let unreliable = ChannelSettings::new(ChannelMode::SequencedUnreliable, ChannelDirection::Bidirectional);
    assert!(!unreliable.reliable());
    assert_eq!(unreliable.sender_for(HostType::Server), Some(SenderKind::SequencedUnreliable));
    assert_eq!(unreliable.receiver_for(HostType::Client), Some(ReceiverKind::SequencedUnreliable));
}

#[test]
fn sequenced_receivers_keep_only_newer() {
    let mut arranger = SequencedArranger::new();
    let mut incoming: Vec<(SeqNum, &str)> = Vec::new();
    arranger.process(&mut incoming, SeqNum(0), "a");
    arranger.process(&mut incoming, SeqNum(2), "c");
    arranger.process(&mut incoming, SeqNum(1), "b");
    assert_eq!(incoming, vec![(SeqNum(0), "a"), (SeqNum(2), "c")]);

    let mut receiver: SequencedUnreliableReceiver<&str> = SequencedUnreliableReceiver::new();
    receiver.buffer_message(SeqNum(5), "x");
    receiver.arrange_message(SeqNum(4), "old");
    receiver.buffer_message(SeqNum(5), "same");
    receiver.buffer_message(SeqNum(6), "y");
    assert_eq!(receiver.receive_messages(), vec!["x", "y"]);

    let mut unordered: UnorderedUnreliableReceiver<u8> = UnorderedUnreliableReceiver::new();
    unordered.recv_message(3);
    unordered.recv_message(1);
    assert_eq!(unordered.msg_rx_count(), 2);
    assert_eq!(unordered.receive_messages(), vec![3, 1]);
    assert_eq!(unordered.msg_rx_drop_count(), 0);
    assert_eq!(unordered.msg_rx_miss_count(), 0);
}

#[test]
fn timer_rings_after_duration() {
    let mut timer = Timer::new_ringing(Duration::from_secs(3600));
    assert!(timer.ringing());
    assert!(timer.try_reset());
    assert!(!timer.ringing());
    assert!(!timer.try_reset());
    timer.ring_manual();
    assert!(timer.ringing());
    timer.reset();
    assert!(!timer.ringing());
    let zero = Timer::new(Duration::from_secs(0));
    assert!(zero.ringing());
}

#[test]
fn ping_store_keeps_an_old_ping_while_newer_ones_are_answered() {
    let mut store = PingStore::new();
    let t = Instant::now();
    let first = store.push_new(t);
    for _ in 0..40 {
        let p = store.push_new(t);
        assert_eq!(store.remove(p), Some(t));
    }
    // answered pings leave room, so the unanswered first one is still remembered
    assert_eq!(store.remove(first), Some(t));
    assert_eq!(store.push_new(t), SeqNum(41));
}

#[test]
fn id_pool_never_hands_out_an_identifier_twice() {
    let mut pool = IdPool::default();
    let a = pool.get().unwrap();
    let b = pool.get().unwrap();
    pool.put(a);
    let c = pool.get().unwrap();
    let d = pool.get().unwrap();
    assert_eq!(c, a);
    assert_ne!(d, b);
    assert_ne!(d, c);
    assert_eq!(d, 2);
}

#[test]
fn reliable_receiver_taking_one_index_leaves_the_others_alone() {
    let mut receiver: ReliableReceiver<u8> = ReliableReceiver::new();
    assert!(receiver.buffer_message(SeqNum(5), 5));
    // 5 is taken now; 4 and 6 are still waited for
    assert!(!receiver.buffer_message(SeqNum(5), 50));
    assert!(receiver.buffer_message(SeqNum(4), 4));
    assert!(receiver.buffer_message(SeqNum(6), 6));
    // taking 0 moves the window only past 0
    assert!(receiver.buffer_message(SeqNum(0), 0));
    assert!(!receiver.buffer_message(SeqNum(0), 10));
    assert!(receiver.buffer_message(SeqNum(1), 1));
    assert_eq!(receiver.receive_messages(), vec![(SeqNum(5), 5), (SeqNum(4), 4), (SeqNum(6), 6), (SeqNum(0), 0), (SeqNum(1), 1)]);
}

#[test]
fn reliable_message_receiver_passes_each_message_on_once() {
    let mut receiver: ReliableMessageReceiver<u8> = ReliableMessageReceiver::with_arranger(Arranger::Unordered);
    receiver.buffer_message(SeqNum(2), 2);
    receiver.buffer_message(SeqNum(0), 0);
    receiver.buffer_message(SeqNum(2), 20);
    receiver.buffer_message(SeqNum(1), 1);
    assert_eq!(receiver.receive_messages(), vec![(SeqNum(2), 2), (SeqNum(0), 0), (SeqNum(1), 1)]);
    assert_eq!(receiver.receive_messages(), vec![]);
}

#[test]
fn sequenced_reliable_receiver_drops_older_messages() {
    let mut receiver: SequencedReliableReceiver<u8> = SequencedReliableReceiver::new();
    receiver.buffer_message(SeqNum(2), 2);
    // 0 and 1 are taken once, but are older than 2, which was passed on
    receiver.buffer_message(SeqNum(0), 0);
    receiver.buffer_message(SeqNum(1), 1);
    receiver.buffer_message(SeqNum(3), 3);
    receiver.buffer_message(SeqNum(3), 30);
    assert_eq!(receiver.receive_messages(), vec![(SeqNum(2), 2), (SeqNum(3), 3)]);
}

#[test]
fn reliable_message_receiver_reads_numbered_messages() {
    let fragment = |b: u8| FragmentedMessage::new(FragmentId::zero(), FragmentIndex::zero(), vec![b]);
    let mut writer = BitWriter::new();
    for (index, byte) in [(SeqNum(1), 7u8), (SeqNum(0), 6u8), (SeqNum(1), 9u8)] {
        true.ser(&mut writer);
        (index, fragment(byte)).write(&mut writer);
    }
    false.ser(&mut writer);
    let mut reader = BitReader::new(writer.to_bytes());
    let mut receiver: ReliableMessageReceiver<FragmentedMessage> = ReliableMessageReceiver::with_arranger(Arranger::Unordered);
    assert!(receiver.read_messages(&mut reader).is_ok());
    let got = receiver.receive_messages();
    assert_eq!(got.len(), 2);
    assert_eq!(got[0].0, SeqNum(1));
    assert_eq!(got[0].1.bytes, vec![7]);
    assert_eq!(got[1].0, SeqNum(0));
    assert_eq!(got[1].1.bytes, vec![6]);
    // bits that end inside a message are refused
    let mut short = BitReader::new(vec![0b1000_0000]);
    assert!(receiver.read_messages(&mut short).is_err());
}

#[test]
fn ordered_reliable_receiver_passes_messages_on_in_order() {
    let mut receiver: ReliableMessageReceiver<u8> = ReliableMessageReceiver::ordered();
    receiver.buffer_message(SeqNum(1), 1);
    receiver.buffer_message(SeqNum(3), 3);
    // nothing is passed on before message 0 arrives
    assert_eq!(receiver.receive_messages(), vec![]);
    receiver.buffer_message(SeqNum(0), 0);
    assert_eq!(receiver.receive_messages(), vec![(SeqNum(0), 0), (SeqNum(1), 1)]);
    receiver.buffer_message(SeqNum(1), 10);
    receiver.buffer_message(SeqNum(2), 2);
    assert_eq!(receiver.receive_messages(), vec![(SeqNum(2), 2), (SeqNum(3), 3)]);
    assert_eq!(receiver.receive_messages(), vec![]);
}
