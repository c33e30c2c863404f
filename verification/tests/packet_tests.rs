use naia_lite::bit_reader::BitReader;
use naia_lite::bit_write::BitWrite;
use naia_lite::bit_writer::BitWriter;
use naia_lite::packet::{
    EncryptRequest, EncryptResponse, HandshakeReject, PacketHeader, PacketType, PacketWriter,
    RejectReason, DH_KEY_SIZE, ENCRYPT_TAG_SIZE,
};
use naia_lite::seq_num::SeqNum;
use naia_lite::serde::Serde;

#[test]
fn key_and_tag_sizes_match_the_crypto_types() {
    assert_eq!(DH_KEY_SIZE, std::mem::size_of::<x25519_dalek::PublicKey>());
    assert_eq!(ENCRYPT_TAG_SIZE, std::mem::size_of::<chacha20poly1305::Tag>());
    // a request is at least twice the size of a response, against amplification
    assert!(2 * std::mem::size_of::<EncryptResponse>() < std::mem::size_of::<EncryptRequest>());
}

#[test]
fn packet_type_takes_four_bits_low_first() {
    let mut writer = BitWriter::new();
    PacketType::Data.ser(&mut writer);
    assert_eq!(PacketType::Data.bit_length(), 4);
    // 8 = 0b1000, least significant bit first: 0, 0, 0, 1
    assert_eq!(writer.to_bytes(), vec![0b0001_0000]);
    let mut reader = BitReader::new(writer.to_bytes());
    assert_eq!(PacketType::de(&mut reader), Ok(PacketType::Data));
}

#[test]
fn packet_type_out_of_range_is_refused() {
    // 0b1111 = 15 is no packet type
    let mut reader = BitReader::new(vec![0b1111_0000]);
    assert!(PacketType::de(&mut reader).is_err());
    let mut reader = BitReader::new(vec![]);
    assert!(PacketType::de(&mut reader).is_err());
}

#[test]
fn every_packet_type_roundtrips() {
    let all = [
        PacketType::HandshakeReject,
        PacketType::EncryptRequest,
        PacketType::EncryptResponse,
        PacketType::ConnectRequest,
        PacketType::ConnectResponse,
        PacketType::Ping,
        PacketType::Pong,
        PacketType::Heartbeat,
        PacketType::Data,
        PacketType::Disconnect,
    ];
    let mut writer = BitWriter::new();
    for t in all.iter() {
        t.ser(&mut writer);
    }
    let mut reader = BitReader::new(writer.to_bytes());
    for (i, t) in all.iter().enumerate() {
        assert_eq!(t.to_u8() as usize, i);
        assert_eq!(PacketType::de(&mut reader), Ok(*t));
    }
}

#[test]
fn header_is_padded_to_three_bytes() {
    let header = PacketHeader { packet_type: PacketType::Ping, packet_seq: SeqNum(0x1234) };
    assert_eq!(header.byte_length(), 3);
    assert_eq!(header.bit_length(), 24);
    let mut writer = BitWriter::new();
    header.ser(&mut writer);
    // type 5 low bit first (1010), then 0x34 and 0x12, then four zero bits
    assert_eq!(writer.to_bytes(), vec![0b1010_0011, 0b0100_0001, 0b0010_0000]);
    let mut reader = BitReader::new(writer.to_bytes());
    assert_eq!(PacketHeader::de(&mut reader), Ok(header));
}

#[test]
fn header_with_nonzero_padding_is_refused() {
    let mut reader = BitReader::new(vec![0b1010_0011, 0b0100_0001, 0b0010_0001]);
    assert!(PacketHeader::de(&mut reader).is_err());
    let mut reader = BitReader::new(vec![0b1010_0011, 0b0100_0001]);
    assert!(PacketHeader::de(&mut reader).is_err());
}

#[test]
fn handshake_reject_roundtrips() {
    let mut writer = BitWriter::new();
    let reject = HandshakeReject { reason: RejectReason::ServerFull };
    reject.ser(&mut writer);
    HandshakeReject { reason: RejectReason::Version }.ser(&mut writer);
    assert_eq!(reject.bit_length(), 2);
    // 2 then 3, two bits each, low bit first: 01 11
    assert_eq!(writer.to_bytes(), vec![0b0111_0000]);
    let mut reader = BitReader::new(writer.to_bytes());
    assert_eq!(HandshakeReject::de(&mut reader), Ok(reject));
    assert_eq!(HandshakeReject::de(&mut reader), Ok(HandshakeReject { reason: RejectReason::Version }));
}

#[test]
fn encrypt_messages_roundtrip() {
    let request = EncryptRequest {
        client_public_key: [7u8; 32],
        client_timestamp_ns: 123_456_789,
        padding: [0u8; EncryptRequest::PADDING_SIZE],
    };
    let response = EncryptResponse {
        server_public_key: [9u8; 32],
        client_timestamp_ns: 123_456_789,
        server_timestamp_ns: 42,
    };
    assert_eq!(request.bit_length(), 8 * (32 + 8 + 256));
    assert_eq!(response.bit_length(), 8 * (32 + 8 + 8));
    let mut writer = BitWriter::with_capacity(3000);
    request.ser(&mut writer);
    let bytes = writer.to_bytes();
    assert_eq!(bytes.len(), 296);
    assert_eq!(&bytes[0..32], &[7u8; 32]);
    assert_eq!(bytes[32], 0x15);
    let mut reader = BitReader::new(bytes);
    assert_eq!(EncryptRequest::de(&mut reader), Ok(request));
    let mut writer = BitWriter::new();
    response.ser(&mut writer);
    let mut reader = BitReader::new(writer.to_bytes());
    assert_eq!(EncryptResponse::de(&mut reader), Ok(response));
    let mut short = BitReader::new(vec![1u8; 40]);
    assert!(EncryptResponse::de(&mut short).is_err());
}

#[test]
fn packet_writer_reserves_the_tag_when_encrypted() {
    let header = PacketHeader { packet_type: PacketType::Data, packet_seq: SeqNum(3) };
    let mut writer = PacketWriter::new(header);
    assert_eq!(writer.packet_type(), PacketType::Data);
    assert_eq!(writer.packet_seq(), SeqNum(3));
    assert_eq!(writer.slice().len(), 3 + ENCRYPT_TAG_SIZE);
    assert!(writer.slice()[3..].iter().all(|b| *b == 0));
    writer.write_byte(0xee);
    writer.write(&7u8);
    assert_eq!(writer.slice().len(), 3 + ENCRYPT_TAG_SIZE + 2);
    assert_eq!(writer.slice()[3 + ENCRYPT_TAG_SIZE], 0xee);
    writer.inner_mut().write_bit(true);
    assert_eq!(writer.slice().len(), 3 + ENCRYPT_TAG_SIZE + 3);

    let plain = PacketWriter::new(PacketHeader {
        packet_type: PacketType::EncryptRequest,
        packet_seq: SeqNum(0),
    });
    assert_eq!(plain.slice().len(), 3);
    let mut reader = BitReader::new(plain.slice().to_vec());
    assert_eq!(
        PacketHeader::de(&mut reader),
        Ok(PacketHeader { packet_type: PacketType::EncryptRequest, packet_seq: SeqNum(0) })
    );
}
