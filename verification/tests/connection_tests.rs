use naia_lite::bit_reader::BitReader;
use naia_lite::bit_writer::BitWriter;
use naia_lite::channel::{Channel, ChannelDirection, ChannelMode, ChannelSettings};
use naia_lite::connection::BaseConnection;
use naia_lite::fragment::{FragmentId, FragmentIndex, FragmentedMessage};
use naia_lite::io_counters::IoCounters;
use naia_lite::packet::{PacketHeader, PacketType, Ping, Pong, ENCRYPT_TAG_SIZE};
use naia_lite::schema::ChannelKinds;
use naia_lite::seq_num::{HostType, SeqNum};
use naia_lite::serde::Serde;
use std::time::{Duration, Instant};

struct Events;
impl Channel for Events {}

fn kinds() -> ChannelKinds {
    let mut kinds = ChannelKinds::new();
    kinds.add_channel::<Events>(ChannelSettings::new(
        ChannelMode::UnorderedReliable,
        ChannelDirection::Bidirectional,
    ));
    kinds
}

fn connection(interval: Duration) -> BaseConnection<FragmentedMessage> {
    BaseConnection::new(HostType::Client, interval, interval, Duration::from_secs(3600), &kinds())
}

#[test]
fn packets_are_numbered_from_zero() {
    let mut conn = connection(Duration::from_secs(3600));
    let first = conn.packet_writer(PacketType::Data);
    let second = conn.packet_writer(PacketType::Heartbeat);
    assert_eq!(first.packet_seq(), SeqNum(0));
    assert_eq!(second.packet_seq(), SeqNum(1));
    assert_eq!(second.packet_type(), PacketType::Heartbeat);
    assert!(!conn.timed_out());
}

#[test]
fn heartbeat_and_ping_wait_for_their_timers() {
    let mut quiet = connection(Duration::from_secs(3600));
    assert!(quiet.heartbeat_packet().is_none());
    assert!(quiet.ping_packet(5).is_none());
    // nothing was numbered
    assert_eq!(quiet.packet_writer(PacketType::Data).packet_seq(), SeqNum(0));

    let mut eager = connection(Duration::from_secs(0));
    let heartbeat = eager.heartbeat_packet().unwrap();
    assert_eq!(heartbeat.packet_type(), PacketType::Heartbeat);
    assert_eq!(heartbeat.slice().len(), 3 + ENCRYPT_TAG_SIZE);
    let ping = eager.ping_packet(0xabcd).unwrap();
    assert_eq!(ping.packet_seq(), SeqNum(1));
    let bytes = ping.slice().to_vec();
    assert_eq!(bytes.len(), 3 + ENCRYPT_TAG_SIZE + 8);
    let mut reader = BitReader::new(bytes);
    assert_eq!(
        PacketHeader::de(&mut reader),
        Ok(PacketHeader { packet_type: PacketType::Ping, packet_seq: SeqNum(1) })
    );
    for _ in 0..ENCRYPT_TAG_SIZE {
        assert_eq!(reader.read_byte(), Ok(0));
    }
    assert_eq!(Ping::de(&mut reader), Ok(Ping { timestamp_ns: 0xabcd }));
}

#[test]
fn a_ping_is_answered_with_its_timestamp() {
    let mut conn = connection(Duration::from_secs(3600));
    let mut body = BitWriter::new();
    Ping { timestamp_ns: 77 }.ser(&mut body);
    let mut reader = BitReader::new(body.to_bytes());
    let pong = conn.pong_packet(&mut reader).unwrap();
    assert_eq!(pong.packet_type(), PacketType::Pong);
    let mut reader = BitReader::new(pong.slice().to_vec());
    assert_eq!(
        PacketHeader::de(&mut reader),
        Ok(PacketHeader { packet_type: PacketType::Pong, packet_seq: SeqNum(0) })
    );
    for _ in 0..ENCRYPT_TAG_SIZE {
        assert_eq!(reader.read_byte(), Ok(0));
    }
    assert_eq!(Pong::de(&mut reader), Ok(Pong { timestamp_ns: 77 }));
    // a truncated ping is refused and numbers nothing
    let mut short = BitReader::new(vec![1, 2, 3]);
    assert!(conn.pong_packet(&mut short).is_err());
    assert_eq!(conn.packet_writer(PacketType::Data).packet_seq(), SeqNum(1));
}

#[test]
fn connection_queues_and_collects_messages() {
    let mut conn = connection(Duration::from_secs(3600));
    assert!(!conn.has_outgoing_messages());
    conn.queue_message(0, FragmentedMessage::new(FragmentId::zero(), FragmentIndex::zero(), vec![1]));
    assert_eq!(conn.msg_tx_queue_count(), 1);
    assert!(!conn.has_outgoing_messages());
    conn.collect_messages(&Instant::now(), Duration::from_secs(3600));
    assert!(conn.has_outgoing_messages());
    assert_eq!(conn.msg_tx_count(), 1);
    conn.mark_sent();
    conn.mark_heard();
    assert!(!conn.timed_out());
}

#[test]
fn io_counters_count_both_ways() {
    let mut counters = IoCounters::new();
    counters.record_sent(100);
    counters.record_sent(20);
    counters.record_received(7);
    assert_eq!(counters.bytes_tx(), 120);
    assert_eq!(counters.pkt_tx_count(), 2);
    assert_eq!(counters.bytes_rx(), 7);
    assert_eq!(counters.pkt_rx_count(), 1);
}

#[test]
fn data_packets_carry_messages_until_delivered() {
    let mut conn = connection(Duration::from_secs(3600));
    let now = Instant::now();
    // channel 0 is reliable, so its messages wait for their packet's delivery
    conn.queue_message(0, FragmentedMessage::new(FragmentId::zero(), FragmentIndex::zero(), vec![5]));
    conn.collect_messages(&now, Duration::from_secs(3600));
    assert_eq!(conn.msg_tx_count(), 1);
    assert!(conn.has_outgoing_messages());
    let packet = conn.write_data_packet();
    assert_eq!(packet.packet_type(), PacketType::Data);
    assert_eq!(packet.packet_seq(), SeqNum(0));
    assert!(!conn.has_outgoing_messages());
    // a packet that carried nothing of it acknowledges nothing: it is due again
    conn.notify_packet_delivered(SeqNum(7));
    conn.collect_messages(&now, Duration::ZERO);
    assert_eq!(conn.msg_tx_count(), 2);
    let again = conn.write_data_packet();
    assert_eq!(again.packet_seq(), SeqNum(1));
    // packet 1 arrives: the message is not resent any more
    conn.notify_packet_delivered(SeqNum(1));
    conn.collect_messages(&now, Duration::ZERO);
    assert_eq!(conn.msg_tx_count(), 2);
    assert!(!conn.has_outgoing_messages());
    // an empty data packet still closes its list of channels
    let empty = conn.write_data_packet();
    assert_eq!(empty.packet_seq(), SeqNum(2));
}

#[test]
fn data_packets_are_read_by_the_other_end() {
    let mut client = connection(Duration::from_secs(3600));
    let mut server: BaseConnection<FragmentedMessage> =
        BaseConnection::new(HostType::Server, Duration::from_secs(3600), Duration::from_secs(3600), Duration::from_secs(3600), &kinds());
    let now = Instant::now();
    client.queue_message(0, FragmentedMessage::new(FragmentId::zero(), FragmentIndex::zero(), vec![8, 9]));
    client.collect_messages(&now, Duration::from_secs(3600));
    let packet = client.write_data_packet();
    let mut reader = BitReader::new(packet.slice().to_vec());
    let header = PacketHeader::de(&mut reader).unwrap();
    assert_eq!(header.packet_type, PacketType::Data);
    for _ in 0..ENCRYPT_TAG_SIZE {
        reader.read_byte().unwrap();
    }
    assert!(server.read_data_packet(&mut reader).is_ok());
    let got = server.receive_messages();
    assert_eq!(got.len(), 1);
    match &got[0] {
        naia_lite::message_manager::Payload::Whole(m) => assert_eq!(m.bytes, vec![8, 9]),
        _ => panic!("a fragment where a whole message was sent"),
    }
}

#[test]
fn data_packets_can_be_written_while_messages_fit() {
    let mut conn = connection(Duration::from_secs(3600));
    assert!(conn.can_write_data_packet());
    let now = Instant::now();
    conn.queue_message(0, FragmentedMessage::new(FragmentId::zero(), FragmentIndex::zero(), vec![1; 10]));
    conn.collect_messages(&now, Duration::from_secs(3600));
    assert!(conn.can_write_data_packet());
    let mut packets = 0;
    while conn.has_outgoing_messages() {
        assert!(conn.can_write_data_packet());
        let _ = conn.write_data_packet();
        packets += 1;
    }
    assert_eq!(packets, 1);
}
