use naia_lite::channel::{Channel, ChannelDirection, ChannelMode, ChannelSettings};
use naia_lite::fragment::{FragmentId, FragmentIndex, FragmentedMessage};
use naia_lite::message_manager::{MessageManager, Payload};
use naia_lite::schema::{ChannelKinds, Protocol, Schema};
use naia_lite::ack_manager::AckManager;
use naia_lite::bit_reader::BitReader;
use naia_lite::bit_writer::BitWriter;
use naia_lite::serde::Serde;
use naia_lite::packet::PacketType;
use naia_lite::message::Message;
use naia_lite::seq_num::{HostType, SeqNum};
use std::time::{Duration, Instant};

struct Chat;
impl Channel for Chat {}

struct Moves;
impl Channel for Moves {}

fn blob(bytes: Vec<u8>) -> FragmentedMessage {
    FragmentedMessage::new(FragmentId::zero(), FragmentIndex::zero(), bytes)
}

fn three_channels() -> ChannelKinds {
    let mut kinds = ChannelKinds::new();
    kinds.add_channel::<Chat>(ChannelSettings::new(
        ChannelMode::UnorderedUnreliable,
        ChannelDirection::ClientToServer,
    ));
    kinds.add_channel::<Moves>(ChannelSettings::new(
        ChannelMode::OrderedReliable,
        ChannelDirection::Bidirectional,
    ));
    kinds.add_channel::<Chat>(ChannelSettings::new(
        ChannelMode::SequencedUnreliable,
        ChannelDirection::ServerToClient,
    ));
    kinds
}

#[test]
fn schema_builder_registers_in_order() {
    let schema = Schema::builder()
        .add_channel::<Chat>(ChannelDirection::ClientToServer, ChannelMode::UnorderedUnreliable)
        .add_channel::<Moves>(ChannelDirection::Bidirectional, ChannelMode::OrderedReliable)
        .add_message::<FragmentedMessage>()
        .build();
    assert_eq!(schema.channel_kinds().len(), 2);
    assert_eq!(
        schema.channel_kinds().settings_of(1),
        Some(ChannelSettings::new(ChannelMode::OrderedReliable, ChannelDirection::Bidirectional))
    );
    assert_eq!(schema.channel_kinds().settings_of(2), None);
    // fragments are always registered first
    assert_eq!(schema.message_kinds().len(), 2);
    let empty = Schema::builder().build();
    assert_eq!(empty.channel_kinds().len(), 0);
    assert_eq!(empty.message_kinds().len(), 1);
}

#[test]
fn protocol_builder_registers_in_order() {
    let protocol = Protocol::builder()
        .add_channel::<Chat>(ChannelDirection::ServerToClient, ChannelMode::SequencedUnreliable)
        .add_message::<FragmentedMessage>()
        .add_message::<FragmentedMessage>()
        .build();
    assert_eq!(protocol.channel_kinds().len(), 1);
    assert_eq!(
        protocol.channel_kinds().settings_of(0),
        Some(ChannelSettings::new(ChannelMode::SequencedUnreliable, ChannelDirection::ServerToClient))
    );
    assert_eq!(protocol.message_kinds().len(), 3);
}

#[test]
fn manager_queues_whole_and_fragmented_messages() {
    let kinds = three_channels();
    let mut client: MessageManager<FragmentedMessage> = MessageManager::new(HostType::Client, &kinds);
    assert!(!client.has_outgoing_messages());
    assert_eq!(client.msg_tx_count(), 0);
    client.queue_message(0, blob(vec![1, 2, 3]));
    assert!(client.has_outgoing_messages());
    // 104 header bits and 7200 payload bits: three fragments on the reliable channel
    client.queue_message(1, blob(vec![7; 900]));
    assert_eq!(client.msg_tx_queue_count(), 1 + 3);
    assert_eq!(client.msg_tx_count(), 1);
    let now = Instant::now();
    client.collect_messages(&now, Duration::from_secs(3600));
    assert_eq!(client.msg_tx_count(), 1 + 3);
    // nothing is due again an hour later than never
    client.collect_messages(&now, Duration::from_secs(3600));
    assert_eq!(client.msg_tx_count(), 1 + 3);
    // a short message on the reliable channel goes whole
    client.queue_message(1, blob(vec![9]));
    assert_eq!(client.msg_tx_queue_count(), 1 + 4);
}

#[test]
fn manager_keeps_senders_where_it_may_send() {
    let kinds = three_channels();
    let mut server: MessageManager<FragmentedMessage> = MessageManager::new(HostType::Server, &kinds);
    // the server sends on the bidirectional and the server-to-client channels
    server.queue_message(1, blob(vec![1]));
    server.queue_message(2, blob(vec![2]));
    assert_eq!(server.msg_tx_queue_count(), 2);
    assert_eq!(server.msg_tx_count(), 1);
    assert!(server.has_outgoing_messages());
}

#[test]
fn manager_writes_ready_messages_into_a_packet() {
    let kinds = three_channels();
    let mut client: MessageManager<FragmentedMessage> = MessageManager::new(HostType::Client, &kinds);
    let message = blob(vec![1, 2, 3]);
    let length = message.bit_length();
    client.queue_message(0, message);
    let mut writer = BitWriter::new();
    let free = writer.bits_free();
    client.write_messages(&mut writer, SeqNum(0));
    assert!(!client.has_outgoing_messages());
    // channel bit, channel id, message bit, whole-message bit, the message, closing bit,
    // closing bit
    assert_eq!(writer.bits_free(), free - (1 + 16 + 1 + 1 + length + 1 + 1));
    let bytes = writer.to_bytes();
    // channel 0 is announced by a 1 and then sixteen 0 bits
    assert_eq!(bytes[0], 0b1000_0000);
    assert_eq!(bytes[1], 0);
    // the id's last bit, then the message bit, then the whole-message bit
    assert_eq!(bytes[2] & 0b1110_0000, 0b0100_0000);
}

#[test]
fn manager_with_nothing_ready_writes_only_the_closing_bit() {
    let kinds = three_channels();
    let mut client: MessageManager<FragmentedMessage> = MessageManager::new(HostType::Client, &kinds);
    let mut writer = BitWriter::new();
    let free = writer.bits_free();
    client.write_messages(&mut writer, SeqNum(3));
    assert_eq!(writer.bits_free(), free - 1);
    assert_eq!(writer.to_bytes(), vec![0u8]);
}

#[test]
fn delivered_packet_stops_resends() {
    let kinds = three_channels();
    let now = Instant::now();
    let mut acked: MessageManager<FragmentedMessage> = MessageManager::new(HostType::Client, &kinds);
    let mut lost: MessageManager<FragmentedMessage> = MessageManager::new(HostType::Client, &kinds);
    for manager in [&mut acked, &mut lost] {
        manager.queue_message(1, blob(vec![9]));
        manager.collect_messages(&now, Duration::from_secs(3600));
        assert_eq!(manager.msg_tx_count(), 1);
        let mut writer = BitWriter::new();
        manager.write_messages(&mut writer, SeqNum(5));
        assert!(!manager.has_outgoing_messages());
    }
    // another packet's delivery acknowledges nothing
    acked.notify_packet_delivered(SeqNum(4));
    acked.collect_messages(&now, Duration::ZERO);
    assert_eq!(acked.msg_tx_count(), 2);
    let mut writer = BitWriter::new();
    acked.write_messages(&mut writer, SeqNum(6));
    // the message went out in packets 5 and 6; packet 6 arrives
    acked.notify_packet_delivered(SeqNum(6));
    acked.collect_messages(&now, Duration::ZERO);
    assert_eq!(acked.msg_tx_count(), 2);
    assert!(!acked.has_outgoing_messages());
    // without an ack the message is due again at once
    lost.collect_messages(&now, Duration::ZERO);
    assert_eq!(lost.msg_tx_count(), 2);
    assert!(lost.has_outgoing_messages());
}

#[test]
fn acknowledged_headers_stop_resends() {
    let kinds = three_channels();
    let now = Instant::now();
    let mut client: MessageManager<FragmentedMessage> = MessageManager::new(HostType::Client, &kinds);
    let mut client_acks = AckManager::new();
    let mut server_acks = AckManager::new();
    client.queue_message(1, blob(vec![4]));
    client.collect_messages(&now, Duration::from_secs(3600));
    // packet 0 carries the message
    let header = client_acks.next_outgoing_packet_header(PacketType::Data);
    let mut writer = BitWriter::new();
    client.write_messages(&mut writer, header.sender_packet_index);
    // the server hears packet 0 and says so in its next header
    assert_eq!(server_acks.process_incoming_header(&header), vec![]);
    let reply = server_acks.next_outgoing_packet_header(PacketType::Data);
    let delivered = client_acks.process_incoming_header(&reply);
    assert_eq!(delivered, vec![SeqNum(0)]);
    client.notify_packets_delivered(&delivered);
    client.collect_messages(&now, Duration::ZERO);
    assert_eq!(client.msg_tx_count(), 1);
    assert!(!client.has_outgoing_messages());
}

fn whole_bytes(p: &Payload<FragmentedMessage>) -> Vec<u8> {
    match p {
        Payload::Whole(m) => m.bytes.clone(),
        Payload::Fragment(_) => panic!("a fragment where a whole message was sent"),
    }
}

#[test]
fn messages_written_by_one_end_are_read_by_the_other() {
    let kinds = three_channels();
    let now = Instant::now();
    let mut client: MessageManager<FragmentedMessage> = MessageManager::new(HostType::Client, &kinds);
    let mut server: MessageManager<FragmentedMessage> = MessageManager::new(HostType::Server, &kinds);
    client.queue_message(0, blob(vec![1, 2, 3]));
    client.queue_message(1, blob(vec![4]));
    client.queue_message(1, blob(vec![5, 6]));
    client.collect_messages(&now, Duration::from_secs(3600));
    let mut writer = BitWriter::new();
    client.write_messages(&mut writer, SeqNum(0));
    let mut reader = BitReader::new(writer.to_bytes());
    assert!(server.read_messages(&mut reader).is_ok());
    let got = server.receive_messages();
    assert_eq!(got.len(), 3);
    assert_eq!(whole_bytes(&got[0]), vec![1, 2, 3]);
    assert_eq!(whole_bytes(&got[1]), vec![4]);
    assert_eq!(whole_bytes(&got[2]), vec![5, 6]);
    // the receivers were emptied
    assert!(server.receive_messages().is_empty());
    assert_eq!(server.msg_rx_count(), 1);

    // a resent reliable message is not taken twice
    client.collect_messages(&now, Duration::ZERO);
    let mut again = BitWriter::new();
    client.write_messages(&mut again, SeqNum(1));
    let mut reader = BitReader::new(again.to_bytes());
    assert!(server.read_messages(&mut reader).is_ok());
    assert!(server.receive_messages().is_empty());
}

#[test]
fn reading_a_channel_without_a_receiver_fails() {
    let kinds = three_channels();
    let mut server: MessageManager<FragmentedMessage> = MessageManager::new(HostType::Server, &kinds);
    // channel 2 only carries messages from the server, so the server has no receiver
    let mut writer = BitWriter::new();
    true.ser(&mut writer);
    2u16.ser(&mut writer);
    false.ser(&mut writer);
    false.ser(&mut writer);
    let mut reader = BitReader::new(writer.to_bytes());
    assert!(server.read_messages(&mut reader).is_err());
    // nor does an empty packet hold a list of channels
    let mut empty = BitReader::new(vec![]);
    assert!(server.read_messages(&mut empty).is_err());
    // a closing bit alone is an empty list
    let mut closed = BitReader::new(vec![0]);
    assert!(server.read_messages(&mut closed).is_ok());
    assert!(server.receive_messages().is_empty());
}

#[test]
fn ordered_channel_hands_messages_over_in_order() {
    let kinds = three_channels();
    let now = Instant::now();
    let mut client: MessageManager<FragmentedMessage> = MessageManager::new(HostType::Client, &kinds);
    let mut server: MessageManager<FragmentedMessage> = MessageManager::new(HostType::Server, &kinds);
    // channel 1 is ordered reliable
    client.queue_message(1, blob(vec![1]));
    client.queue_message(1, blob(vec![2]));
    client.collect_messages(&now, Duration::from_secs(3600));
    // each packet has room for one message
    let mut first = BitWriter::with_capacity(160);
    client.write_messages(&mut first, SeqNum(0));
    let mut second = BitWriter::with_capacity(160);
    client.write_messages(&mut second, SeqNum(1));
    assert!(!client.has_outgoing_messages());
    // the second packet arrives first: its message waits for the first
    let mut reader = BitReader::new(second.to_bytes());
    assert!(server.read_messages(&mut reader).is_ok());
    assert!(server.receive_messages().is_empty());
    let mut reader = BitReader::new(first.to_bytes());
    assert!(server.read_messages(&mut reader).is_ok());
    let got = server.receive_messages();
    assert_eq!(got.len(), 2);
    assert_eq!(whole_bytes(&got[0]), vec![1]);
    assert_eq!(whole_bytes(&got[1]), vec![2]);
}
