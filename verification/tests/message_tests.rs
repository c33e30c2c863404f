use naia_lite::bit_reader::BitReader;
use naia_lite::bit_writer::BitWriter;
use naia_lite::fragment::{FragmentId, FragmentIndex, FragmentedMessage, MessageFragmenter};
use naia_lite::message::Message;
use naia_lite::packet::{ConnectRequest, Data, Disconnect, Ping, pong_for};
use naia_lite::senders::{ReliableSender, SequencedUnreliableSender, UnorderedUnreliableSender};
use naia_lite::seq_num::SeqNum;
use naia_lite::serde::Serde;
use std::time::{Duration, Instant};

fn blob(bytes: Vec<u8>) -> FragmentedMessage {
    FragmentedMessage::new(FragmentId::zero(), FragmentIndex::zero(), bytes)
}

#[test]
fn unordered_sender_writes_what_fits() {
    let mut sender = UnorderedUnreliableSender::new();
    sender.send(blob(vec![1, 2]));
    sender.send(blob(vec![3]));
    sender.send(blob(vec![4, 5, 6]));
    assert!(sender.has_messages());
    // each message: 104 header bits and 8 bits per byte, after a continuation bit
    assert_eq!(blob(vec![1, 2]).bit_length(), 120);
    let mut writer = BitWriter::with_capacity(240);
    let mut has_written = false;
    assert_eq!(sender.write_messages(&mut writer, &mut has_written), None);
    assert!(has_written);
    // two messages fit: 1 + 120 and 1 + 112 bits
    assert_eq!(writer.bits_free(), 6);
    let mut reader = BitReader::new(writer.to_bytes());
    assert_eq!(reader.read_bit(), Ok(true));
    assert_eq!(FragmentId::de(&mut reader), Ok(FragmentId::zero()));
    assert_eq!(FragmentIndex::de(&mut reader), Ok(FragmentIndex::zero()));
    assert_eq!(FragmentIndex::de(&mut reader), Ok(FragmentIndex::zero()));
    assert_eq!(u32::de(&mut reader), Ok(2));
    assert_eq!(reader.read_byte(), Ok(1));
    assert_eq!(reader.read_byte(), Ok(2));
    assert_eq!(reader.read_bit(), Ok(true));
    assert_eq!(FragmentId::de(&mut reader), Ok(FragmentId::zero()));
    assert_eq!(FragmentIndex::de(&mut reader), Ok(FragmentIndex::zero()));
    assert_eq!(FragmentIndex::de(&mut reader), Ok(FragmentIndex::zero()));
    assert_eq!(u32::de(&mut reader), Ok(1));
    assert_eq!(reader.read_byte(), Ok(3));
    assert!(sender.has_messages());
    assert_eq!(sender.msg_tx_count(), 3);
    assert_eq!(sender.msg_tx_queue_count(), 3);
}

#[test]
fn sequenced_sender_numbers_messages() {
    let mut sender = SequencedUnreliableSender::new();
    assert!(!sender.has_messages());
    sender.send("a");
    sender.send("b");
    assert!(sender.has_messages());
    assert_eq!(sender.msg_tx_count(), 2);
    assert_eq!(sender.msg_tx_queue_count(), 2);
    // an unreliable channel neither resends nor waits for acks
    sender.collect_messages(&Instant::now(), Duration::from_secs(0));
    sender.ack(&SeqNum(0));
    assert!(sender.has_messages());
    assert_eq!(sender.msg_tx_count(), 2);
}

#[test]
fn reliable_sender_resends_until_acked() {
    let mut sender = ReliableSender::new();
    sender.send("a");
    sender.send("b");
    assert!(!sender.has_messages());
    let now = Instant::now();
    sender.collect_messages(&now, Duration::from_secs(3600));
    assert!(sender.has_messages());
    assert_eq!(sender.msg_tx_count(), 2);
    // nothing is due again yet
    sender.collect_messages(&now, Duration::from_secs(3600));
    assert_eq!(sender.msg_tx_count(), 2);
    sender.ack(&SeqNum(0));
    sender.collect_messages(&now, Duration::from_secs(0));
    assert_eq!(sender.msg_tx_count(), 3);
    sender.ack(&SeqNum(1));
    sender.ack(&SeqNum(7));
    sender.collect_messages(&now, Duration::from_secs(0));
    assert_eq!(sender.msg_tx_count(), 3);
    assert_eq!(sender.msg_tx_queue_count(), 2);
}

#[test]
fn fragmenter_splits_long_messages() {
    let mut fragmenter = MessageFragmenter::new();
    // 104 header bits and 7200 payload bits make 7304 bits: fragments of 3200 bits
    let long = blob(vec![0xab; 900]);
    let fragments = fragmenter.fragment_message(&long);
    assert_eq!(fragments.len(), 3);
    assert_eq!(fragments[0].bytes.len(), 400);
    assert_eq!(fragments[1].bytes.len(), 400);
    assert_eq!(fragments[2].bytes.len(), 113);
    assert!(fragments.iter().all(|f| f.is_fragment()));
    // the payload starts after the 13 header bytes
    assert_eq!(fragments[0].bytes[9], 0x84);
    assert_eq!(fragments[0].bytes[10], 0x03);
    assert_eq!(fragments[0].bytes[12], 0);
    assert!(fragments[0].bytes[13..].iter().all(|b| *b == 0xab));
    assert!(fragments[2].bytes.iter().all(|b| *b == 0xab));
    // joined in order, the fragments give back the message's own bytes
    let joined: Vec<u8> = fragments.iter().flat_map(|f| f.bytes.clone()).collect();
    let mut expected: Vec<u8> = vec![0, 0, 0, 0, 0, 0, 0, 0, 0, 0x84, 0x03, 0, 0];
    expected.extend(vec![0xab; 900]);
    assert_eq!(joined, expected);
    let short = fragmenter.fragment_message(&blob(vec![1]));
    assert_eq!(short.len(), 1);
    assert_eq!(short[0].bytes.len(), 14);
    assert_eq!(short[0].bytes[13], 1);
    assert_ne!(short[0].id, fragments[0].id);
}

#[test]
fn packet_bodies_roundtrip() {
    let mut writer = BitWriter::new();
    let data = Data { ack_index: SeqNum(77), ack_bitfield: 0xdead_beef };
    let request = ConnectRequest { client_timestamp_ns: 1, server_timestamp_ns: 2 };
    let ping = Ping { timestamp_ns: 99 };
    data.ser(&mut writer);
    request.ser(&mut writer);
    ping.ser(&mut writer);
    Disconnect.ser(&mut writer);
    assert_eq!(data.bit_length(), 48);
    assert_eq!(request.bit_length(), 128);
    let mut reader = BitReader::new(writer.to_bytes());
    assert_eq!(Data::de(&mut reader), Ok(data));
    assert_eq!(ConnectRequest::de(&mut reader), Ok(request));
    let read_ping = Ping::de(&mut reader).unwrap();
    assert_eq!(read_ping, ping);
    assert_eq!(pong_for(&read_ping).timestamp_ns, 99);
    assert_eq!(Disconnect::de(&mut reader), Ok(Disconnect));
}

#[test]
fn reliable_sender_collects_unsent_and_due_messages() {
    let mut sender = ReliableSender::new();
    sender.send("a");
    sender.send("b");
    let now = Instant::now();
    // never written: both go out whatever the clock says
    sender.collect_due(&now, &vec![false, false]);
    assert_eq!(sender.msg_tx_count(), 2);
    // written before: only the one whose resend time has passed goes out again
    sender.collect_due(&now, &vec![false, true]);
    assert_eq!(sender.msg_tx_count(), 3);
    sender.ack(&SeqNum(1));
    sender.collect_due(&now, &vec![true, true]);
    assert_eq!(sender.msg_tx_count(), 4);
}
