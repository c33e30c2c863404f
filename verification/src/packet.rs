//! The kinds of packets exchanged by a connection.
use vstd::prelude::*;
use crate::bit_reader::BitReader;
use crate::bit_write::BitWrite;
use crate::error::SerdeErr;
use crate::seq_num::SeqNum;
use crate::bit_writer::BitWriter;
use crate::bits::{byte_bits, packs, lemma_zero_byte};
use crate::constants::MTU_SIZE_BITS;
use crate::serde::{Serde, lemma_le_bytes_len, lemma_low_roundtrip, lemma_low_value_bound, low_bits, low_value, read_low_bits, write_low_bits};

verus! {

/// The different types of packets that can be sent and received.
#[derive(Clone, Copy, Debug, PartialEq, Eq, Structural)]
pub enum PacketType {
    /// (unencrypted) Used to stop a handshake in progress.
    HandshakeReject,
    /// Step 1: (unencrypted) An initial handshake message sent by the Client to the Server.
    EncryptRequest,
    /// Step 2: (unencrypted) The Server's response to the Client's initial handshake
    /// message.
    EncryptResponse,
    /// Step 3: The final handshake message sent by the Client.
    ConnectRequest,
    /// Step 4: The final handshake message sent by the Server, indicating that the
    /// connection has been established.
    ConnectResponse,
    /// A Ping message, used to calculate RTT. Must be responded to with a Pong message.
    Ping,
    /// A Pong message, used to calculate RTT. Must be the response to all Ping messages.
    Pong,
    /// A packet sent to maintain the connection by preventing a timeout.
    Heartbeat,
    /// A packet containing Message data.
    Data,
    /// Used to request a graceful disconnect.
    Disconnect,
}

/// The position of a packet type in the list of packet types.
pub open spec fn packet_type_index(t: PacketType) -> u8 {
    match t {
        PacketType::HandshakeReject => 0,
        PacketType::EncryptRequest => 1,
        PacketType::EncryptResponse => 2,
        PacketType::ConnectRequest => 3,
        PacketType::ConnectResponse => 4,
        PacketType::Ping => 5,
        PacketType::Pong => 6,
        PacketType::Heartbeat => 7,
        PacketType::Data => 8,
        PacketType::Disconnect => 9,
    }
}

impl PacketType {
    /// Whether packets of this type are encrypted: all but the first three handshake
    /// steps.
    pub fn is_encrypted(&self) -> (r: bool)
        ensures
            r == !(*self == PacketType::HandshakeReject || *self == PacketType::EncryptRequest
                || *self == PacketType::EncryptResponse),
    {
        match self {
            PacketType::HandshakeReject | PacketType::EncryptRequest
            | PacketType::EncryptResponse => false,
            _ => true,
        }
    }

    /// The position of the type in the list of packet types.
    pub fn to_u8(self) -> (r: u8)
        ensures
            r == packet_type_index(self),
    {
        match self {
            PacketType::HandshakeReject => 0,
            PacketType::EncryptRequest => 1,
            PacketType::EncryptResponse => 2,
            PacketType::ConnectRequest => 3,
            PacketType::ConnectResponse => 4,
            PacketType::Ping => 5,
            PacketType::Pong => 6,
            PacketType::Heartbeat => 7,
            PacketType::Data => 8,
            PacketType::Disconnect => 9,
        }
    }
}

} // verus!

verus! {

/// Two values decoded one after the other from the start of `bits`, with the number of
/// bits they take together.
pub open spec fn decode_pair<A: Serde, B: Serde>(bits: Seq<bool>) -> Option<(A, B, nat)> {
    match A::decoding(bits) {
        Some((a, n)) => match B::decoding(bits.skip(n as int)) {
            Some((b, m)) => Some((a, b, n + m)),
            None => None,
        },
        None => None,
    }
}

/// Two encodings one after the other decode to the two values.
pub proof fn lemma_decode_pair<A: Serde, B: Serde>(a: A, b: B, rest: Seq<bool>)
    ensures
        decode_pair::<A, B>(a.encoding() + b.encoding() + rest) == Some(
            (a, b, a.encoding().len() + b.encoding().len()),
        ),
{
    a.lemma_decode_encoding(b.encoding() + rest);
    assert(a.encoding() + b.encoding() + rest =~= a.encoding() + (b.encoding() + rest));
    assert((a.encoding() + b.encoding() + rest).skip(a.encoding().len() as int) =~= b.encoding() + rest);
    b.lemma_decode_encoding(rest);
}

/// Reads two values one after the other.
fn read_pair<A: Serde, B: Serde>(reader: &mut BitReader) -> (r: Result<(A, B), SerdeErr>)
    requires
        old(reader).wf(),
    ensures
        final(reader).wf(),
        final(reader).bits() == old(reader).bits(),
        match decode_pair::<A, B>(old(reader).remaining()) {
            Some((a, b, n)) => r == Ok::<(A, B), SerdeErr>((a, b)) && final(reader).position() == old(reader).position() + n,
            None => r is Err,
        },
{
    let ghost rem0 = reader.remaining();
    let a = match A::de(reader) {
        Ok(a) => a,
        Err(e) => {
            return Err(e);
        },
    };
    proof {
        reader.lemma_wf();
        old(reader).lemma_wf();
        let n = (reader.position() - old(reader).position()) as int;
        assert(reader.remaining() =~= rem0.skip(n));
    }
    let b = match B::de(reader) {
        Ok(b) => b,
        Err(e) => {
            return Err(e);
        },
    };
    Ok((a, b))
}

/// Client-to-server step 3 of the handshake.
#[derive(Clone, Copy, Debug, PartialEq, Eq, Structural)]
pub struct ConnectRequest {
    /// client's transmission timestamp (monotonic nanoseconds since an arbitrary epoch)
    pub client_timestamp_ns: u64,
    /// server's transmission timestamp from the encrypt response (verbatim)
    pub server_timestamp_ns: u64,
}

/// Server-to-client step 4 of the handshake.
#[derive(Clone, Copy, Debug, PartialEq, Eq, Structural)]
pub struct ConnectResponse {
    /// client's transmission timestamp from the connect request (verbatim)
    pub client_timestamp_ns: u64,
}

/// A ping, answered by a pong with the same timestamp.
#[derive(Clone, Copy, Debug, PartialEq, Eq, Structural)]
pub struct Ping {
    pub timestamp_ns: u64,
}

/// The answer to a ping.
#[derive(Clone, Copy, Debug, PartialEq, Eq, Structural)]
pub struct Pong {
    pub timestamp_ns: u64,
}

/// A request to disconnect gracefully.
#[derive(Clone, Copy, Debug, PartialEq, Eq, Structural)]
pub struct Disconnect;

/// The ack information at the start of a data packet.
#[derive(Clone, Copy, Debug, PartialEq, Eq, Structural)]
pub struct Data {
    /// This is the last acknowledged packet index.
    pub ack_index: SeqNum,
    /// This is an bitfield of all last 32 acknowledged packets
    pub ack_bitfield: u32,
}

impl Serde for ConnectRequest {
    open spec fn encoding(&self) -> Seq<bool> {
        self.client_timestamp_ns.encoding() + self.server_timestamp_ns.encoding()
    }

    open spec fn decoding(bits: Seq<bool>) -> Option<(ConnectRequest, nat)> {
        match decode_pair::<u64, u64>(bits) {
            Some((a, b, n)) => Some((ConnectRequest { client_timestamp_ns: a, server_timestamp_ns: b }, n)),
            None => None,
        }
    }

    proof fn lemma_decode_encoding(&self, rest: Seq<bool>) {
        lemma_decode_pair(self.client_timestamp_ns, self.server_timestamp_ns, rest);
        assert(self.encoding() + rest =~= self.client_timestamp_ns.encoding() + self.server_timestamp_ns.encoding() + rest);
    }

    fn ser<W: BitWrite>(&self, writer: &mut W) {
        self.client_timestamp_ns.ser(writer);
        self.server_timestamp_ns.ser(writer);
        assert(writer.written() =~= old(writer).written() + self.encoding());
    }

    fn de(reader: &mut BitReader) -> (r: Result<ConnectRequest, SerdeErr>) {
        match read_pair::<u64, u64>(reader) {
            Ok((a, b)) => Ok(ConnectRequest { client_timestamp_ns: a, server_timestamp_ns: b }),
            Err(e) => Err(e),
        }
    }

    fn bit_length(&self) -> (r: u32) {
        proof {
            lemma_le_bytes_len(self.client_timestamp_ns as nat, 8);
            lemma_le_bytes_len(self.server_timestamp_ns as nat, 8);
        }
        let a = self.client_timestamp_ns.bit_length();
        let b = self.server_timestamp_ns.bit_length();
        a + b
    }
}

impl Serde for Data {
    open spec fn encoding(&self) -> Seq<bool> {
        self.ack_index.encoding() + self.ack_bitfield.encoding()
    }

    open spec fn decoding(bits: Seq<bool>) -> Option<(Data, nat)> {
        match decode_pair::<SeqNum, u32>(bits) {
            Some((a, b, n)) => Some((Data { ack_index: a, ack_bitfield: b }, n)),
            None => None,
        }
    }

    proof fn lemma_decode_encoding(&self, rest: Seq<bool>) {
        lemma_decode_pair(self.ack_index, self.ack_bitfield, rest);
        assert(self.encoding() + rest =~= self.ack_index.encoding() + self.ack_bitfield.encoding() + rest);
    }

    fn ser<W: BitWrite>(&self, writer: &mut W) {
        self.ack_index.ser(writer);
        self.ack_bitfield.ser(writer);
        assert(writer.written() =~= old(writer).written() + self.encoding());
    }

    fn de(reader: &mut BitReader) -> (r: Result<Data, SerdeErr>) {
        match read_pair::<SeqNum, u32>(reader) {
            Ok((a, b)) => Ok(Data { ack_index: a, ack_bitfield: b }),
            Err(e) => Err(e),
        }
    }

    fn bit_length(&self) -> (r: u32) {
        proof {
            lemma_le_bytes_len(self.ack_index.0 as nat, 2);
            lemma_le_bytes_len(self.ack_bitfield as nat, 4);
        }
        let a = self.ack_index.bit_length();
        let b = self.ack_bitfield.bit_length();
        a + b
    }
}

impl Serde for ConnectResponse {
    open spec fn encoding(&self) -> Seq<bool> {
        self.client_timestamp_ns.encoding()
    }

    open spec fn decoding(bits: Seq<bool>) -> Option<(ConnectResponse, nat)> {
        match u64::decoding(bits) {
            Some((a, n)) => Some((ConnectResponse { client_timestamp_ns: a }, n)),
            None => None,
        }
    }

    proof fn lemma_decode_encoding(&self, rest: Seq<bool>) {
        self.client_timestamp_ns.lemma_decode_encoding(rest);
    }

    fn ser<W: BitWrite>(&self, writer: &mut W) {
        self.client_timestamp_ns.ser(writer);
    }

    fn de(reader: &mut BitReader) -> (r: Result<ConnectResponse, SerdeErr>) {
        match u64::de(reader) {
            Ok(a) => Ok(ConnectResponse { client_timestamp_ns: a }),
            Err(e) => Err(e),
        }
    }

    fn bit_length(&self) -> (r: u32) {
        self.client_timestamp_ns.bit_length()
    }
}

impl Serde for Ping {
    open spec fn encoding(&self) -> Seq<bool> {
        self.timestamp_ns.encoding()
    }

    open spec fn decoding(bits: Seq<bool>) -> Option<(Ping, nat)> {
        match u64::decoding(bits) {
            Some((a, n)) => Some((Ping { timestamp_ns: a }, n)),
            None => None,
        }
    }

    proof fn lemma_decode_encoding(&self, rest: Seq<bool>) {
        self.timestamp_ns.lemma_decode_encoding(rest);
    }

    fn ser<W: BitWrite>(&self, writer: &mut W) {
        self.timestamp_ns.ser(writer);
    }

    fn de(reader: &mut BitReader) -> (r: Result<Ping, SerdeErr>) {
        match u64::de(reader) {
            Ok(a) => Ok(Ping { timestamp_ns: a }),
            Err(e) => Err(e),
        }
    }

    fn bit_length(&self) -> (r: u32) {
        self.timestamp_ns.bit_length()
    }
}

impl Serde for Pong {
    open spec fn encoding(&self) -> Seq<bool> {
        self.timestamp_ns.encoding()
    }

    open spec fn decoding(bits: Seq<bool>) -> Option<(Pong, nat)> {
        match u64::decoding(bits) {
            Some((a, n)) => Some((Pong { timestamp_ns: a }, n)),
            None => None,
        }
    }

    proof fn lemma_decode_encoding(&self, rest: Seq<bool>) {
        self.timestamp_ns.lemma_decode_encoding(rest);
    }

    fn ser<W: BitWrite>(&self, writer: &mut W) {
        self.timestamp_ns.ser(writer);
    }

    fn de(reader: &mut BitReader) -> (r: Result<Pong, SerdeErr>) {
        match u64::de(reader) {
            Ok(a) => Ok(Pong { timestamp_ns: a }),
            Err(e) => Err(e),
        }
    }

    fn bit_length(&self) -> (r: u32) {
        self.timestamp_ns.bit_length()
    }
}

impl Serde for Disconnect {
    open spec fn encoding(&self) -> Seq<bool> {
        Seq::empty()
    }

    open spec fn decoding(bits: Seq<bool>) -> Option<(Disconnect, nat)> {
        Some((Disconnect, 0))
    }

    proof fn lemma_decode_encoding(&self, rest: Seq<bool>) {
    }

    fn ser<W: BitWrite>(&self, writer: &mut W) {
        assert(writer.written() =~= old(writer).written() + Seq::<bool>::empty());
    }

    fn de(reader: &mut BitReader) -> (r: Result<Disconnect, SerdeErr>) {
        Ok(Disconnect)
    }

    fn bit_length(&self) -> (r: u32) {
        0
    }
}

/// The answer a pong gives to a ping: the same timestamp.
pub fn pong_for(ping: &Ping) -> (r: Pong)
    ensures
        r.timestamp_ns == ping.timestamp_ns,
{
    Pong { timestamp_ns: ping.timestamp_ns }
}

} // verus!

verus! {

/// The packet type at position `v` in the list of packet types, if there is one.
pub open spec fn packet_type_of(v: nat) -> Option<PacketType> {
    if v == 0 {
        Some(PacketType::HandshakeReject)
    } else if v == 1 {
        Some(PacketType::EncryptRequest)
    } else if v == 2 {
        Some(PacketType::EncryptResponse)
    } else if v == 3 {
        Some(PacketType::ConnectRequest)
    } else if v == 4 {
        Some(PacketType::ConnectResponse)
    } else if v == 5 {
        Some(PacketType::Ping)
    } else if v == 6 {
        Some(PacketType::Pong)
    } else if v == 7 {
        Some(PacketType::Heartbeat)
    } else if v == 8 {
        Some(PacketType::Data)
    } else if v == 9 {
        Some(PacketType::Disconnect)
    } else {
        None
    }
}

/// A packet type travels as its position in the list of types, in four bits, least
/// significant first.
impl Serde for PacketType {
    open spec fn encoding(&self) -> Seq<bool> {
        low_bits(packet_type_index(*self) as nat, 4)
    }

    open spec fn decoding(bits: Seq<bool>) -> Option<(PacketType, nat)> {
        if bits.len() >= 4 {
            match packet_type_of(low_value(bits.take(4))) {
                Some(t) => Some((t, 4)),
                None => None,
            }
        } else {
            None
        }
    }

    proof fn lemma_decode_encoding(&self, rest: Seq<bool>) {
        assert((self.encoding() + rest).take(4) =~= self.encoding());
        lemma_low_roundtrip(packet_type_index(*self) as nat, 4);
        vstd::arithmetic::power2::lemma2_to64();
    }

    fn ser<W: BitWrite>(&self, writer: &mut W) {
        write_low_bits(writer, self.to_u8(), 4);
    }

    fn de(reader: &mut BitReader) -> (r: Result<PacketType, SerdeErr>) {
        proof {
            lemma_low_value_bound(old(reader).remaining().take(4));
            vstd::arithmetic::power2::lemma2_to64();
        }
        match read_low_bits(reader, 4) {
            Ok(v) => {
                if v == 0 {
                    Ok(PacketType::HandshakeReject)
                } else if v == 1 {
                    Ok(PacketType::EncryptRequest)
                } else if v == 2 {
                    Ok(PacketType::EncryptResponse)
                } else if v == 3 {
                    Ok(PacketType::ConnectRequest)
                } else if v == 4 {
                    Ok(PacketType::ConnectResponse)
                } else if v == 5 {
                    Ok(PacketType::Ping)
                } else if v == 6 {
                    Ok(PacketType::Pong)
                } else if v == 7 {
                    Ok(PacketType::Heartbeat)
                } else if v == 8 {
                    Ok(PacketType::Data)
                } else if v == 9 {
                    Ok(PacketType::Disconnect)
                } else {
                    Err(SerdeErr)
                }
            },
            Err(e) => Err(e),
        }
    }

    fn bit_length(&self) -> (r: u32) {
        4
    }
}

/// Why a handshake was refused.
#[derive(Clone, Copy, Debug, PartialEq, Eq, Structural)]
pub enum RejectReason {
    AuthFailed,
    Disconnect,
    ServerFull,
    Version,
}

/// The position of a reject reason in the list of reasons.
pub open spec fn reject_reason_index(r: RejectReason) -> u8 {
    match r {
        RejectReason::AuthFailed => 0,
        RejectReason::Disconnect => 1,
        RejectReason::ServerFull => 2,
        RejectReason::Version => 3,
    }
}

/// The reject reason at position `v`, if there is one.
pub open spec fn reject_reason_of(v: nat) -> Option<RejectReason> {
    if v == 0 {
        Some(RejectReason::AuthFailed)
    } else if v == 1 {
        Some(RejectReason::Disconnect)
    } else if v == 2 {
        Some(RejectReason::ServerFull)
    } else if v == 3 {
        Some(RejectReason::Version)
    } else {
        None
    }
}

/// A reject reason travels as its position in the list of reasons, in two bits, least
/// significant first.
impl Serde for RejectReason {
    open spec fn encoding(&self) -> Seq<bool> {
        low_bits(reject_reason_index(*self) as nat, 2)
    }

    open spec fn decoding(bits: Seq<bool>) -> Option<(RejectReason, nat)> {
        if bits.len() >= 2 {
            match reject_reason_of(low_value(bits.take(2))) {
                Some(t) => Some((t, 2)),
                None => None,
            }
        } else {
            None
        }
    }

    proof fn lemma_decode_encoding(&self, rest: Seq<bool>) {
        assert((self.encoding() + rest).take(2) =~= self.encoding());
        lemma_low_roundtrip(reject_reason_index(*self) as nat, 2);
        vstd::arithmetic::power2::lemma2_to64();
    }

    fn ser<W: BitWrite>(&self, writer: &mut W) {
        let index: u8 = match self {
            RejectReason::AuthFailed => 0,
            RejectReason::Disconnect => 1,
            RejectReason::ServerFull => 2,
            RejectReason::Version => 3,
        };
        write_low_bits(writer, index, 2);
    }

    fn de(reader: &mut BitReader) -> (r: Result<RejectReason, SerdeErr>) {
        proof {
            lemma_low_value_bound(old(reader).remaining().take(2));
            vstd::arithmetic::power2::lemma2_to64();
        }
        match read_low_bits(reader, 2) {
            Ok(v) => {
                if v == 0 {
                    Ok(RejectReason::AuthFailed)
                } else if v == 1 {
                    Ok(RejectReason::Disconnect)
                } else if v == 2 {
                    Ok(RejectReason::ServerFull)
                } else {
                    Ok(RejectReason::Version)
                }
            },
            Err(e) => Err(e),
        }
    }

    fn bit_length(&self) -> (r: u32) {
        2
    }
}

/// Server-to-client: the handshake is refused.
#[derive(Clone, Copy, Debug, PartialEq, Eq, Structural)]
pub struct HandshakeReject {
    pub reason: RejectReason,
}

impl Serde for HandshakeReject {
    open spec fn encoding(&self) -> Seq<bool> {
        self.reason.encoding()
    }

    open spec fn decoding(bits: Seq<bool>) -> Option<(HandshakeReject, nat)> {
        match RejectReason::decoding(bits) {
            Some((reason, n)) => Some((HandshakeReject { reason }, n)),
            None => None,
        }
    }

    proof fn lemma_decode_encoding(&self, rest: Seq<bool>) {
        self.reason.lemma_decode_encoding(rest);
    }

    fn ser<W: BitWrite>(&self, writer: &mut W) {
        self.reason.ser(writer)
    }

    fn de(reader: &mut BitReader) -> (r: Result<HandshakeReject, SerdeErr>) {
        match RejectReason::de(reader) {
            Ok(reason) => Ok(HandshakeReject { reason }),
            Err(e) => Err(e),
        }
    }

    fn bit_length(&self) -> (r: u32) {
        self.reason.bit_length()
    }
}

} // verus!

verus! {

/// The bytes of an x25519 public key, as exchanged in the handshake.
pub const DH_KEY_SIZE: usize = 32;

/// The bytes of the authentication tag of an encrypted packet.
pub const ENCRYPT_TAG_SIZE: usize = 16;

/// The header at the start of every packet: its type and its sequence number.
#[derive(Clone, Copy, Debug, PartialEq, Eq, Structural)]
pub struct PacketHeader {
    /// Packet type
    pub packet_type: PacketType,
    /// Packet sequence number, incremented for each packet sent
    pub packet_seq: SeqNum,
}

/// The header's fields, one after the other.
pub open spec fn header_fields(h: PacketHeader) -> Seq<bool> {
    h.packet_type.encoding() + h.packet_seq.encoding()
}

/// The zero bits that bring `n` bits up to a whole number of bytes.
pub open spec fn pad_len(n: nat) -> nat {
    (8 * ((n + 7) / 8) - n) as nat
}

/// `n` zero bits.
pub open spec fn zeros(n: nat) -> Seq<bool> {
    Seq::new(n, |i: int| false)
}

impl PacketHeader {
    fn field_bits(&self) -> (r: usize)
        ensures
            r == header_fields(*self).len(),
            r == 20,
    {
        proof {
            lemma_le_bytes_len(self.packet_seq.0 as nat, 2);
        }
        (self.packet_type.bit_length() + self.packet_seq.bit_length()) as usize
    }

    fn padded_bytes(&self) -> (r: usize)
        ensures
            r == (header_fields(*self).len() + 7) / 8,
            r == 3,
    {
        (self.field_bits() + 7) / 8
    }

    fn padded_bits(&self) -> (r: usize)
        ensures
            r == 8 * ((header_fields(*self).len() + 7) / 8),
            r == 24,
    {
        8 * self.padded_bytes()
    }

    fn pad_bits(&self) -> (r: usize)
        ensures
            r == pad_len(header_fields(*self).len()),
    {
        self.padded_bits() - self.field_bits()
    }

    /// The bytes the header takes in a packet: its fields padded to a whole byte.
    pub fn byte_length(&self) -> (r: usize)
        ensures
            8 * r == self.encoding().len(),
            r == 3,
    {
        self.padded_bytes()
    }
}

/// A header travels as its fields, then zero bits up to the next byte boundary; reading
/// one refuses padding that is not zero.
impl Serde for PacketHeader {
    open spec fn encoding(&self) -> Seq<bool> {
        header_fields(*self) + zeros(pad_len(header_fields(*self).len()))
    }

    open spec fn decoding(bits: Seq<bool>) -> Option<(PacketHeader, nat)> {
        match decode_pair::<PacketType, SeqNum>(bits) {
            Some((t, s, n)) => if bits.len() >= n + pad_len(n) && forall|i: int| n <= i < n + pad_len(n) ==> !#[trigger] bits[i] {
                Some((PacketHeader { packet_type: t, packet_seq: s }, n + pad_len(n)))
            } else {
                None
            },
            None => None,
        }
    }

    proof fn lemma_decode_encoding(&self, rest: Seq<bool>) {
        let f = header_fields(*self);
        let pads = zeros(pad_len(f.len()));
        lemma_decode_pair(self.packet_type, self.packet_seq, pads + rest);
        let all = self.encoding() + rest;
        assert(all =~= self.packet_type.encoding() + self.packet_seq.encoding() + (pads + rest));
        assert forall|i: int| f.len() <= i < f.len() + pads.len() implies !#[trigger] all[i] by {
            assert(all[i] == pads[i - f.len()]);
        }
    }

    fn ser<W: BitWrite>(&self, writer: &mut W) {
        let ghost f = header_fields(*self);
        self.packet_type.ser(writer);
        self.packet_seq.ser(writer);
        let pad = self.pad_bits();
        proof {
            assert(writer.written() =~= old(writer).written() + f + zeros(0));
        }
        let mut i: usize = 0;
        while i < pad
            invariant
                i <= pad,
                pad == pad_len(f.len()),
                f == header_fields(*self),
                writer.inv(),
                writer.limit() == old(writer).limit(),
                writer.written() == old(writer).written() + f + zeros(i as nat),
                writer.room() == old(writer).room() - f.len() - i,
                writer.budget() == old(writer).budget() - f.len() - i,
                old(writer).room() >= f.len() + pad,
                old(writer).budget() >= f.len() + pad,
            decreases pad - i,
        {
            writer.write_bit(false);
            proof {
                assert(zeros((i + 1) as nat) =~= zeros(i as nat).push(false));
            }
            i = i + 1;
        }
        assert(writer.written() =~= old(writer).written() + self.encoding());
    }

    fn de(reader: &mut BitReader) -> (r: Result<PacketHeader, SerdeErr>) {
        let ghost rem0 = old(reader).remaining();
        let (packet_type, packet_seq) = match read_pair::<PacketType, SeqNum>(reader) {
            Ok(pair) => pair,
            Err(e) => {
                return Err(e);
            },
        };
        let header = PacketHeader { packet_type, packet_seq };
        let ghost n: nat = (reader.position() - old(reader).position()) as nat;
        proof {
            packet_type.lemma_decode_encoding(Seq::empty());
            packet_seq.lemma_decode_encoding(Seq::empty());
            lemma_le_bytes_len(packet_seq.0 as nat, 2);
            old(reader).lemma_wf();
            reader.lemma_wf();
            assert(n == 20);
        }
        let pad = header.pad_bits();
        let mut i: usize = 0;
        while i < pad
            invariant
                i <= pad,
                pad == pad_len(n),
                n == 20,
                reader.wf(),
                reader.bits() == old(reader).bits(),
                rem0 == old(reader).remaining(),
                rem0.len() == old(reader).bits().len() - old(reader).position(),
                old(reader).position() <= old(reader).bits().len(),
                reader.position() == old(reader).position() + n + i,
                rem0.len() >= n + i,
                decode_pair::<PacketType, SeqNum>(rem0) == Some((packet_type, packet_seq, n)),
                forall|j: int| n <= j < n + i ==> !#[trigger] rem0[j],
            decreases pad - i,
        {
            proof {
                assert(reader.remaining() =~= rem0.skip(n + i));
            }
            match reader.read_bit() {
                Ok(bit) => {
                    if bit {
                        return Err(SerdeErr);
                    }
                },
                Err(e) => {
                    return Err(e);
                },
            }
            i = i + 1;
        }
        Ok(header)
    }

    fn bit_length(&self) -> (r: u32) {
        let bits = self.padded_bits();
        assert(self.encoding().len() == header_fields(*self).len() + pad_len(header_fields(*self).len()));
        bits as u32
    }
}

/// Writes one packet: its header, room for the authentication tag when the packet type
/// is encrypted, then the body.
pub struct PacketWriter {
    header: PacketHeader,
    writer: BitWriter,
}

/// The bits a packet starts with: the header, then a zeroed tag when encrypted.
pub open spec fn packet_prefix(header: PacketHeader) -> Seq<bool> {
    header.encoding() + if header.packet_type == PacketType::HandshakeReject || header.packet_type
        == PacketType::EncryptRequest || header.packet_type == PacketType::EncryptResponse {
        Seq::<bool>::empty()
    } else {
        zeros((8 * ENCRYPT_TAG_SIZE) as nat)
    }
}

/// A header takes three bytes; with the tag of an encrypted packet, nineteen.
pub proof fn lemma_packet_prefix_len(header: PacketHeader)
    ensures
        header.encoding().len() == 24,
        packet_prefix(header).len() <= 152,
{
    lemma_le_bytes_len(header.packet_seq.0 as nat, 2);
}

impl PacketWriter {
    /// The header of the packet.
    pub closed spec fn header(&self) -> PacketHeader {
        self.header
    }

    /// The writer that holds the packet's bits.
    pub closed spec fn inner(&self) -> BitWriter {
        self.writer
    }

    /// Starts a packet with `header`, followed by a zeroed tag when its type is encrypted.
    pub fn new(header: PacketHeader) -> (r: Self)
        ensures
            r.header() == header,
            r.inner().inv(),
            r.inner().written() == packet_prefix(header),
            r.inner().capacity() == MTU_SIZE_BITS - packet_prefix(header).len(),
            r.inner().room() == MTU_SIZE_BITS - packet_prefix(header).len(),
    {
        let mut writer = BitWriter::new();
        proof {
            lemma_le_bytes_len(header.packet_seq.0 as nat, 2);
        }
        header.ser(&mut writer);
        if header.packet_type.is_encrypted() {
            let ghost w0 = writer.written();
            let mut i: usize = 0;
            while i < ENCRYPT_TAG_SIZE
                invariant
                    i <= ENCRYPT_TAG_SIZE,
                    writer.inv(),
                    writer.written() == w0 + zeros(8 * i as nat),
                    w0.len() == 24,
                    writer.capacity() == MTU_SIZE_BITS - 24 - 8 * i,
                    writer.room() == MTU_SIZE_BITS - 24 - 8 * i,
                decreases ENCRYPT_TAG_SIZE - i,
            {
                writer.write_byte(0);
                proof {
                    assert forall|k: int| 0 <= k < 8 implies #[trigger] byte_bits(0u8)[k] == zeros(8)[k] by {
                        lemma_zero_byte(k as u8);
                    }
                    assert(byte_bits(0u8) =~= zeros(8));
                    assert(zeros(8 * (i + 1) as nat) =~= zeros(8 * i as nat) + zeros(8));
                }
                i = i + 1;
            }
            assert(writer.written() =~= packet_prefix(header));
        } else {
            assert(writer.written() =~= packet_prefix(header));
        }
        PacketWriter { header, writer }
    }

    /// The type of the packet.
    pub fn packet_type(&self) -> (r: PacketType)
        ensures
            r == self.header().packet_type,
    {
        self.header.packet_type
    }

    /// The sequence number of the packet.
    pub fn packet_seq(&self) -> (r: SeqNum)
        ensures
            r == self.header().packet_seq,
    {
        self.header.packet_seq
    }

    /// The packet's bytes so far.
    pub fn slice(&self) -> (r: &[u8])
        requires
            self.inner().inv(),
        ensures
            packs(self.inner().written(), r@),
    {
        self.writer.slice()
    }

    /// The writer that holds the packet's bits, for writing the body.
    pub fn inner_mut(&mut self) -> (r: &mut BitWriter)
        ensures
            *r == old(self).inner(),
            final(self).inner() == *final(r),
            final(self).header() == old(self).header(),
    {
        &mut self.writer
    }

    /// Writes a value into the body.
    pub fn write<T: Serde>(&mut self, value: &T)
        requires
            old(self).inner().inv(),
            old(self).inner().room() >= value.encoding().len(),
            old(self).inner().budget() >= value.encoding().len(),
        ensures
            final(self).inner().inv(),
            final(self).inner().written() == old(self).inner().written() + value.encoding(),
            final(self).inner().room() == old(self).inner().room() - value.encoding().len(),
            final(self).inner().budget() == old(self).inner().budget() - value.encoding().len(),
            final(self).header() == old(self).header(),
    {
        value.ser(&mut self.writer)
    }
}

impl BitWrite for PacketWriter {
    open spec fn inv(&self) -> bool {
        self.inner().inv()
    }

    open spec fn written(&self) -> Seq<bool> {
        self.inner().written()
    }

    open spec fn room(&self) -> nat {
        self.inner().room()
    }

    open spec fn budget(&self) -> nat {
        self.inner().budget()
    }

    open spec fn limit(&self) -> nat {
        self.inner().limit()
    }

    fn write_bit(&mut self, bit: bool)
        ensures
            final(self).header() == old(self).header(),
    {
        self.writer.write_bit(bit)
    }

    fn write_byte(&mut self, byte: u8)
        ensures
            final(self).header() == old(self).header(),
    {
        self.writer.write_byte(byte)
    }
}

} // verus!

verus! {

/// Three values decoded one after the other from the start of `bits`, with the number
/// of bits they take together.
pub open spec fn decode_triple<A: Serde, B: Serde, C: Serde>(bits: Seq<bool>) -> Option<(A, B, C, nat)> {
    match decode_pair::<A, B>(bits) {
        Some((a, b, n)) => match C::decoding(bits.skip(n as int)) {
            Some((c, m)) => Some((a, b, c, n + m)),
            None => None,
        },
        None => None,
    }
}

/// Three encodings one after the other decode to the three values.
pub proof fn lemma_decode_triple<A: Serde, B: Serde, C: Serde>(a: A, b: B, c: C, rest: Seq<bool>)
    ensures
        decode_triple::<A, B, C>(a.encoding() + b.encoding() + c.encoding() + rest) == Some(
            (a, b, c, a.encoding().len() + b.encoding().len() + c.encoding().len()),
        ),
{
    let all = a.encoding() + b.encoding() + c.encoding() + rest;
    lemma_decode_pair(a, b, c.encoding() + rest);
    assert(all =~= a.encoding() + b.encoding() + (c.encoding() + rest));
    assert(all.skip((a.encoding().len() + b.encoding().len()) as int) =~= c.encoding() + rest);
    c.lemma_decode_encoding(rest);
}

/// Reads three values one after the other.
fn read_triple<A: Serde, B: Serde, C: Serde>(reader: &mut BitReader) -> (r: Result<(A, B, C), SerdeErr>)
    requires
        old(reader).wf(),
    ensures
        final(reader).wf(),
        final(reader).bits() == old(reader).bits(),
        match decode_triple::<A, B, C>(old(reader).remaining()) {
            Some((a, b, c, n)) => r == Ok::<(A, B, C), SerdeErr>((a, b, c)) && final(reader).position()
                == old(reader).position() + n,
            None => r is Err,
        },
{
    let ghost rem0 = reader.remaining();
    let (a, b) = match read_pair::<A, B>(reader) {
        Ok(pair) => pair,
        Err(e) => {
            return Err(e);
        },
    };
    proof {
        reader.lemma_wf();
        old(reader).lemma_wf();
        let n = (reader.position() - old(reader).position()) as int;
        assert(reader.remaining() =~= rem0.skip(n));
    }
    let c = match C::de(reader) {
        Ok(c) => c,
        Err(e) => {
            return Err(e);
        },
    };
    Ok((a, b, c))
}

/// Client-to-server step 1 of the handshake.
#[derive(Clone, Copy, Debug, PartialEq, Eq)]
pub struct EncryptRequest {
    /// client's public key for the DH exchange
    pub client_public_key: [u8; 32],
    /// client's transmission timestamp (monotonic nanoseconds since an arbitrary epoch)
    pub client_timestamp_ns: u64,
    /// Arbitrary padding to ensure EncryptRequest is larger than EncryptResponse to
    /// mitigate amplification attacks.
    pub padding: [u8; 256],
}

impl EncryptRequest {
    /// The bytes of padding in a request.
    pub const PADDING_SIZE: usize = 256;
}

/// Server-to-client step 2 of the handshake.
#[derive(Clone, Copy, Debug, PartialEq, Eq)]
pub struct EncryptResponse {
    /// server's public key for the DH exchange
    pub server_public_key: [u8; 32],
    /// client's transmission timestamp from the encrypt request (verbatim)
    pub client_timestamp_ns: u64,
    /// server's transmission timestamp (monotonic nanoseconds since an arbitrary epoch)
    pub server_timestamp_ns: u64,
}

impl Serde for EncryptRequest {
    open spec fn encoding(&self) -> Seq<bool> {
        self.client_public_key.encoding() + self.client_timestamp_ns.encoding() + self.padding.encoding()
    }

    open spec fn decoding(bits: Seq<bool>) -> Option<(EncryptRequest, nat)> {
        match decode_triple::<[u8; 32], u64, [u8; 256]>(bits) {
            Some((k, t, p, n)) => Some((EncryptRequest { client_public_key: k, client_timestamp_ns: t, padding: p }, n)),
            None => None,
        }
    }

    proof fn lemma_decode_encoding(&self, rest: Seq<bool>) {
        lemma_decode_triple(self.client_public_key, self.client_timestamp_ns, self.padding, rest);
    }

    fn ser<W: BitWrite>(&self, writer: &mut W) {
        self.client_public_key.ser(writer);
        self.client_timestamp_ns.ser(writer);
        self.padding.ser(writer);
        assert(writer.written() =~= old(writer).written() + self.encoding());
    }

    fn de(reader: &mut BitReader) -> (r: Result<EncryptRequest, SerdeErr>) {
        match read_triple::<[u8; 32], u64, [u8; 256]>(reader) {
            Ok((k, t, p)) => Ok(EncryptRequest { client_public_key: k, client_timestamp_ns: t, padding: p }),
            Err(e) => Err(e),
        }
    }

    fn bit_length(&self) -> (r: u32) {
        proof {
            lemma_le_bytes_len(self.client_timestamp_ns as nat, 8);
        }
        self.client_public_key.bit_length() + self.client_timestamp_ns.bit_length() + self.padding.bit_length()
    }
}

impl Serde for EncryptResponse {
    open spec fn encoding(&self) -> Seq<bool> {
        self.server_public_key.encoding() + self.client_timestamp_ns.encoding() + self.server_timestamp_ns.encoding()
    }

    open spec fn decoding(bits: Seq<bool>) -> Option<(EncryptResponse, nat)> {
        match decode_triple::<[u8; 32], u64, u64>(bits) {
            Some((k, c, s, n)) => Some((EncryptResponse { server_public_key: k, client_timestamp_ns: c, server_timestamp_ns: s }, n)),
            None => None,
        }
    }

    proof fn lemma_decode_encoding(&self, rest: Seq<bool>) {
        lemma_decode_triple(self.server_public_key, self.client_timestamp_ns, self.server_timestamp_ns, rest);
    }

    fn ser<W: BitWrite>(&self, writer: &mut W) {
        self.server_public_key.ser(writer);
        self.client_timestamp_ns.ser(writer);
        self.server_timestamp_ns.ser(writer);
        assert(writer.written() =~= old(writer).written() + self.encoding());
    }

    fn de(reader: &mut BitReader) -> (r: Result<EncryptResponse, SerdeErr>) {
        match read_triple::<[u8; 32], u64, u64>(reader) {
            Ok((k, c, s)) => Ok(EncryptResponse { server_public_key: k, client_timestamp_ns: c, server_timestamp_ns: s }),
            Err(e) => Err(e),
        }
    }

    fn bit_length(&self) -> (r: u32) {
        proof {
            lemma_le_bytes_len(self.client_timestamp_ns as nat, 8);
            lemma_le_bytes_len(self.server_timestamp_ns as nat, 8);
        }
        self.server_public_key.bit_length() + self.client_timestamp_ns.bit_length() + self.server_timestamp_ns.bit_length()
    }
}

} // verus!

