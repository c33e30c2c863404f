//! Packet acknowledgement: which sent packets the remote host has received, and the ack
//! information carried by each outgoing packet.
use vstd::prelude::*;
use std::collections::HashMap;
use crate::packet::PacketType;
use crate::seq_num::{SeqNum, seq_gt_spec, wrap16};
use crate::sequence_buffer::{SequenceBuffer, forward_dist, set_result, slots_for};

verus! {

broadcast use vstd::std_specs::hash::group_hash_axioms;

/// How many packets before the acked one each header also acknowledges.
pub const REDUNDANT_PACKET_ACKS_SIZE: u16 = 32;

const DEFAULT_SEND_PACKETS_SIZE: usize = 256;

/// The ack information at the front of each packet.
#[derive(Clone, Copy, Debug, PartialEq, Eq, Structural)]
pub struct StandardHeader {
    pub packet_type: PacketType,
    pub sender_packet_index: SeqNum,
    pub sender_ack_index: SeqNum,
    pub sender_ack_bitfield: u32,
}

impl StandardHeader {
    /// A header with the given fields.
    pub fn new(
        packet_type: PacketType,
        sender_packet_index: SeqNum,
        sender_ack_index: SeqNum,
        sender_ack_bitfield: u32,
    ) -> (r: Self)
        ensures
            r == (StandardHeader { packet_type, sender_packet_index, sender_ack_index, sender_ack_bitfield }),
    {
        StandardHeader { packet_type, sender_packet_index, sender_ack_index, sender_ack_bitfield }
    }
}

/// What is remembered of a sent packet until it is acknowledged.
#[derive(Clone, Copy, Debug, PartialEq, Eq, Structural)]
pub struct SentPacket {
    pub packet_type: PacketType,
}

/// Bit `j` of an ack bitfield.
pub open spec fn ack_bit(bf: u32, j: int) -> bool {
    ((bf >> (j as u32)) & 1u32) == 1u32
}

/// Whether a header with ack index `ack` and bitfield `bf` acknowledges packet `p`: `p`
/// is `ack`, or `k` packets before it for `1 <= k <= 32` with bit `k - 1` set.
pub open spec fn acked_by(ack: SeqNum, bf: u32, p: SeqNum) -> bool {
    let k = forward_dist(p.0, ack.0);
    k == 0 || (1 <= k <= 32 && ack_bit(bf, k - 1))
}

/// Whether a sent packet of this record is data that a header acknowledging `p` reports
/// as delivered.
pub open spec fn reports(sent: Map<u16, SentPacket>, p: u16) -> bool {
    sent.contains_key(p) && sent[p].packet_type == PacketType::Data
}

/// The data packets `ack - 1` to `ack - upto` that a header reports as delivered, in
/// that order.
pub open spec fn reported_before(sent: Map<u16, SentPacket>, ack: SeqNum, bf: u32, upto: int) -> Seq<SeqNum>
    decreases upto,
{
    if upto <= 0 {
        Seq::empty()
    } else {
        let p = wrap16(ack.0 - upto);
        reported_before(sent, ack, bf, upto - 1) + if reports(sent, p) && ack_bit(bf, upto - 1) {
            seq![SeqNum(p)]
        } else {
            Seq::empty()
        }
    }
}

/// The data packets a header with ack index `ack` and bitfield `bf` reports as
/// delivered: `ack` first, then the acknowledged packets before it, nearest first.
pub open spec fn reported(sent: Map<u16, SentPacket>, ack: SeqNum, bf: u32) -> Seq<SeqNum> {
    (if reports(sent, ack.0) { seq![ack] } else { Seq::empty() }) + reported_before(sent, ack, bf, 32)
}

/// The sent packets still awaiting an ack after a header with ack index `ack`: every
/// packet from `ack - 32` to `ack` is forgotten, acknowledged or not.
pub open spec fn after_ack(sent: Map<u16, SentPacket>, ack: SeqNum) -> Map<u16, SentPacket> {
    sent.remove_keys(Set::new(|p: u16| forward_dist(p, ack.0) <= 32))
}

proof fn lemma_shift_bit(bf: u32, j: u32)
    by (bit_vector)
    requires
        j < 32,
    ensures
        ((bf >> j) & 1u32 == 1u32) == (((bf >> j) & 1u32) == 1u32),
        (bf >> j) >> 1u32 == bf >> ((j + 1) as u32),
{
}

proof fn lemma_set_mask_bit(bf: u32, k: u32, j: u32)
    by (bit_vector)
    requires
        k < 32,
        j < 32,
    ensures
        (((bf | (1u32 << k)) >> j) & 1u32 == 1u32) == (j == k || ((bf >> j) & 1u32 == 1u32)),
        (1u32 << k) << 1u32 == (if k < 31 { 1u32 << ((k + 1) as u32) } else { 0u32 }),
{
}

proof fn lemma_zero_bits(j: u32)
    by (bit_vector)
    requires
        j < 32,
    ensures
        ((0u32 >> j) & 1u32) != 1u32,
{
}

/// Keeps track of sent and received packets, and of the ack information that goes into
/// the header of each outgoing packet.
pub struct AckManager {
    next_packet_index: SeqNum,
    last_recv_packet_index: SeqNum,
    sent_packets: HashMap<u16, SentPacket>,
    received_packets: SequenceBuffer,
}

impl AckManager {
    /// The manager's internal invariant.
    pub closed spec fn wf(&self) -> bool {
        &&& self.received_packets.wf()
        &&& self.received_packets.entries().len() == 64
        &&& self.received_packets.window() == 33
    }

    /// A well-formed manager's record of received packets is a well-formed buffer of 64
    /// slots that keeps the 33 most recent packet indices.
    pub proof fn lemma_wf_received(&self)
        requires
            self.wf(),
        ensures
            self.received().wf(),
            self.received().entries().len() == 64,
            self.received().window() == 33,
    {
    }

    /// The index the next outgoing packet gets.
    pub closed spec fn next_index(&self) -> SeqNum {
        self.next_packet_index
    }

    /// The newest ack index heard from the remote host.
    pub closed spec fn last_acked(&self) -> SeqNum {
        self.last_recv_packet_index
    }

    /// The sent packets awaiting an ack, by index.
    pub closed spec fn sent(&self) -> Map<u16, SentPacket> {
        self.sent_packets@
    }

    /// The record of received packets.
    pub closed spec fn received(&self) -> SequenceBuffer {
        self.received_packets
    }

    /// Creates a manager that has sent and received nothing.
    pub fn new() -> (r: Self)
        ensures
            r.wf(),
            r.next_index() == SeqNum(0),
            r.last_acked() == SeqNum(65535),
            r.sent() == Map::<u16, SentPacket>::empty(),
            r.received().entries() == Seq::new(64, |i: int| None::<SeqNum>),
            r.received().window() == 33,
            r.received().spec_sequence_num() == SeqNum(0),
    {
        proof {
            vstd::arithmetic::power2::lemma2_to64();
            reveal_with_fuel(slots_for, 8);
            assert(slots_for(33, 0) == 64);
        }
        Self {
            next_packet_index: SeqNum(0),
            last_recv_packet_index: SeqNum(65535),
            sent_packets: HashMap::with_capacity(DEFAULT_SEND_PACKETS_SIZE),
            received_packets: SequenceBuffer::with_capacity(REDUNDANT_PACKET_ACKS_SIZE + 1),
        }
    }

    /// The index of the next outgoing packet.
    pub fn next_sender_packet_index(&self) -> (r: SeqNum)
        ensures
            r == self.next_index(),
    {
        self.next_packet_index
    }

    /// Processes the header of an incoming packet: records the packet as received, and
    /// forgets every sent packet the header covers. Returns the data packets it
    /// acknowledges, whose messages are then delivered.
    #[verifier::spinoff_prover]
    #[verifier::rlimit(40)]
    pub fn process_incoming_header(&mut self, header: &StandardHeader) -> (r: Vec<SeqNum>)
        requires
            old(self).wf(),
        ensures
            final(self).wf(),
            r@ == reported(old(self).sent(), header.sender_ack_index, header.sender_ack_bitfield),
            forall|i: int| 0 <= i < r@.len() ==> {
                let p = #[trigger] r@[i];
                &&& old(self).sent().contains_key(p.0)
                &&& old(self).sent()[p.0].packet_type == PacketType::Data
                &&& acked_by(header.sender_ack_index, header.sender_ack_bitfield, p)
            },
            forall|p: SeqNum| acked_by(header.sender_ack_index, header.sender_ack_bitfield, p) && old(self).sent().contains_key(
                p.0,
            ) && old(self).sent()[p.0].packet_type == PacketType::Data ==> #[trigger] r@.contains(p),
            final(self).sent() == after_ack(old(self).sent(), header.sender_ack_index),
            final(self).next_index() == old(self).next_index(),
            final(self).last_acked() == (if seq_gt_spec(header.sender_ack_index.0, old(self).last_acked().0) {
                header.sender_ack_index
            } else {
                old(self).last_acked()
            }),
            ({
                let (_, e, s) = set_result(
                    old(self).received().entries(),
                    old(self).received().window(),
                    old(self).received().spec_sequence_num(),
                    header.sender_packet_index,
                );
                final(self).received().entries() == e && final(self).received().spec_sequence_num() == s
            }),
    {
        let sender_packet_index = header.sender_packet_index;
        let sender_ack_index = header.sender_ack_index;
        let mut sender_ack_bitfield = header.sender_ack_bitfield;
        let ghost sent0 = self.sent_packets@;
        let ghost bf0 = header.sender_ack_bitfield;

        self.received_packets.set(sender_packet_index);

        if sender_ack_index > self.last_recv_packet_index {
            self.last_recv_packet_index = sender_ack_index;
        }

        let mut delivered: Vec<SeqNum> = Vec::new();
        let ack_key = sender_ack_index.0;
        match self.sent_packets.get(&ack_key) {
            Some(sent_packet) => {
                if sent_packet.packet_type == PacketType::Data {
                    delivered.push(sender_ack_index);
                }
                self.sent_packets.remove(&ack_key);
            },
            None => {},
        }
        assert(delivered@ == (if reports(sent0, ack_key) { seq![sender_ack_index] } else { Seq::<SeqNum>::empty() }));
        let ghost head = delivered@;

        let mut i: u16 = 1;
        assert(bf0 >> 0u32 == bf0) by (bit_vector);
        while i <= REDUNDANT_PACKET_ACKS_SIZE
            invariant
                1 <= i <= 33,
                self.next_packet_index == old(self).next_packet_index,
                self.last_recv_packet_index == (if seq_gt_spec(header.sender_ack_index.0, old(self).last_acked().0) {
                    header.sender_ack_index
                } else {
                    old(self).last_acked()
                }),
                ({
                    let (_, e, s) = set_result(
                        old(self).received().entries(),
                        old(self).received().window(),
                        old(self).received().spec_sequence_num(),
                        header.sender_packet_index,
                    );
                    self.received_packets.entries() == e && self.received_packets.spec_sequence_num() == s
                }),
                self.received_packets.wf(),
                self.received_packets.entries().len() == 64,
                self.received_packets.window() == 33,
                sender_ack_bitfield == bf0 >> ((i - 1) as u32),
                delivered@ == head + reported_before(sent0, sender_ack_index, bf0, i - 1),
                self.sent_packets@ == sent0.remove_keys(
                    Set::new(|p: u16| forward_dist(p, sender_ack_index.0) < i),
                ),
            decreases 33 - i,
        {
            let sent_packet_index = sender_ack_index.minus(i);
            let key = sent_packet_index.0;
            let ghost before = self.sent_packets@;
            proof {
                lemma_shift_bit(bf0, (i - 1) as u32);
                assert(forward_dist(key, sender_ack_index.0) == i);
                assert(before.contains_key(key) == sent0.contains_key(key));
            }
            match self.sent_packets.get(&key) {
                Some(sent_packet) => {
                    if sender_ack_bitfield & 1 == 1 {
                        if sent_packet.packet_type == PacketType::Data {
                            delivered.push(sent_packet_index);
                        }
                        self.sent_packets.remove(&key);
                    } else {
                        self.sent_packets.remove(&key);
                    }
                },
                None => {},
            }
            sender_ack_bitfield = sender_ack_bitfield >> 1;
            proof {
                assert(self.sent_packets@ =~= sent0.remove_keys(
                    Set::new(|p: u16| forward_dist(p, sender_ack_index.0) < i + 1),
                ));
                assert(delivered@ =~= head + reported_before(sent0, sender_ack_index, bf0, i as int));
            }
            i = i + 1;
        }
        proof {
            assert(self.sent_packets@ =~= after_ack(sent0, sender_ack_index));
            law_reported_are_acked_data(sent0, sender_ack_index, bf0);
            law_acked_data_reported(sent0, sender_ack_index, bf0);
        }
        delivered
    }

    /// Records the packet with the given packet index as sent.
    fn track_packet(&mut self, packet_type: PacketType, packet_index: SeqNum)
        requires
            old(self).wf(),
        ensures
            final(self).wf(),
            final(self).sent() == old(self).sent().insert(packet_index.0, SentPacket { packet_type }),
            final(self).next_index() == old(self).next_index(),
            final(self).last_acked() == old(self).last_acked(),
            final(self).received() == old(self).received(),
    {
        self.sent_packets.insert(packet_index.0, SentPacket { packet_type });
    }

    /// Bumps the local packet index.
    fn increment_local_packet_index(&mut self)
        requires
            old(self).wf(),
        ensures
            final(self).wf(),
            final(self).next_index().0 == wrap16(old(self).next_index().0 + 1),
            final(self).sent() == old(self).sent(),
            final(self).last_acked() == old(self).last_acked(),
            final(self).received() == old(self).received(),
    {
        self.next_packet_index.incr();
    }

    /// The header for the next outgoing packet, which is then tracked as sent.
    pub fn next_outgoing_packet_header(&mut self, packet_type: PacketType) -> (r: StandardHeader)
        requires
            old(self).wf(),
        ensures
            final(self).wf(),
            r.packet_type == packet_type,
            r.sender_packet_index == old(self).next_index(),
            r.sender_ack_index.0 == wrap16(old(self).received().spec_sequence_num().0 - 1),
            forall|j: int| 0 <= j < 32 ==> ack_bit(r.sender_ack_bitfield, j) == #[trigger] old(self).received().holds(
                SeqNum(wrap16(r.sender_ack_index.0 - (j + 1))),
            ),
            final(self).sent() == old(self).sent().insert(old(self).next_index().0, SentPacket { packet_type }),
            final(self).next_index().0 == wrap16(old(self).next_index().0 + 1),
            final(self).last_acked() == old(self).last_acked(),
            final(self).received() == old(self).received(),
    {
        let next_packet_index = self.next_sender_packet_index();
        let outgoing = StandardHeader::new(
            packet_type,
            next_packet_index,
            self.last_received_packet_index(),
            self.ack_bitfield(),
        );
        self.track_packet(packet_type, next_packet_index);
        self.increment_local_packet_index();
        outgoing
    }

    fn last_received_packet_index(&self) -> (r: SeqNum)
        requires
            self.wf(),
        ensures
            r.0 == wrap16(self.received().spec_sequence_num().0 - 1),
    {
        self.received_packets.sequence_num()
    }

    fn ack_bitfield(&self) -> (r: u32)
        requires
            self.wf(),
        ensures
            forall|j: int| 0 <= j < 32 ==> ack_bit(r, j) == #[trigger] self.received().holds(
                SeqNum(wrap16(wrap16(self.received().spec_sequence_num().0 - 1) - (j + 1))),
            ),
    {
        let last_received_remote_packet_index = self.last_received_packet_index();
        let mut ack_bitfield: u32 = 0;
        let mut mask: u32 = 1;
        let mut i: u16 = 1;
        proof {
            assert(1u32 << 0u32 == 1u32) by (bit_vector);
            assert forall|j: int| 0 <= j < 32 implies !ack_bit(0u32, j) by {
                lemma_zero_bits(j as u32);
            }
        }
        while i <= REDUNDANT_PACKET_ACKS_SIZE
            invariant
                1 <= i <= 33,
                self.wf(),
                i <= 32 ==> mask == 1u32 << ((i - 1) as u32),
                last_received_remote_packet_index.0 == wrap16(self.received().spec_sequence_num().0 - 1),
                forall|j: int| 0 <= j < i - 1 ==> ack_bit(ack_bitfield, j) == #[trigger] self.received().holds(
                    SeqNum(wrap16(last_received_remote_packet_index.0 - (j + 1))),
                ),
                forall|j: int| i - 1 <= j < 32 ==> !#[trigger] ack_bit(ack_bitfield, j),
            decreases 33 - i,
        {
            let received_packet_index = last_received_remote_packet_index.minus(i);
            let held = self.received_packets.is_set(received_packet_index);
            let ghost bf_before = ack_bitfield;
            if held {
                ack_bitfield = ack_bitfield | mask;
            }
            proof {
                assert forall|j: int| 0 <= j < 32 implies #[trigger] ack_bit(ack_bitfield, j) == (if j == i - 1 {
                    held
                } else {
                    ack_bit(bf_before, j)
                }) by {
                    lemma_set_mask_bit(bf_before, (i - 1) as u32, j as u32);
                }
                lemma_set_mask_bit(bf_before, (i - 1) as u32, 0);
            }
            mask = mask << 1;
            i = i + 1;
        }
        ack_bitfield
    }
}

proof fn lemma_reported_before_has(sent: Map<u16, SentPacket>, ack: SeqNum, bf: u32, upto: int, k: int)
    requires
        1 <= k <= upto,
        reports(sent, wrap16(ack.0 - k)),
        ack_bit(bf, k - 1),
    ensures
        reported_before(sent, ack, bf, upto).contains(SeqNum(wrap16(ack.0 - k))),
    decreases upto,
{
    let q = SeqNum(wrap16(ack.0 - k));
    if k == upto {
        let l = reported_before(sent, ack, bf, upto - 1);
        assert(reported_before(sent, ack, bf, upto) == l + seq![q]);
        assert((l + seq![q])[l.len() as int] == q);
    } else {
        lemma_reported_before_has(sent, ack, bf, upto - 1, k);
        let l = reported_before(sent, ack, bf, upto - 1);
        let x = choose|x: int| 0 <= x < l.len() && l[x] == q;
        assert(reported_before(sent, ack, bf, upto)[x] == q);
    }
}

proof fn lemma_reported_before_only(sent: Map<u16, SentPacket>, ack: SeqNum, bf: u32, upto: int, q: SeqNum)
    requires
        reported_before(sent, ack, bf, upto).contains(q),
    ensures
        reports(sent, q.0),
        exists|k: int| 1 <= k <= upto && #[trigger] acked_back(ack, bf, q, k),
    decreases upto,
{
    if upto > 0 {
        let l = reported_before(sent, ack, bf, upto - 1);
        let p = wrap16(ack.0 - upto);
        let x = choose|x: int| 0 <= x < reported_before(sent, ack, bf, upto).len() && reported_before(sent, ack, bf, upto)[x] == q;
        if x < l.len() {
            assert(l[x] == q);
            lemma_reported_before_only(sent, ack, bf, upto - 1, q);
        } else {
            assert(q.0 == p && ack_bit(bf, upto - 1));
            assert(acked_back(ack, bf, q, upto));
        }
    }
}

/// Whether `q` is the packet `k` before `ack`, and bit `k - 1` of `bf` is set.
spec fn acked_back(ack: SeqNum, bf: u32, q: SeqNum, k: int) -> bool {
    q.0 == wrap16(ack.0 - k) && ack_bit(bf, k - 1)
}

/// The packet `k` before `a`, for `0 <= k <= 32`, lies `k` behind `a`.
proof fn lemma_back_dist(a: u16, k: int)
    requires
        0 <= k <= 32,
    ensures
        forward_dist(wrap16(a - k), a) == k,
{
}

/// Every packet a header reports as delivered was sent as data, is still awaited, and
/// is acknowledged by the header: its ack index or one of the 32 before it whose bit is
/// set.
pub proof fn law_reported_are_acked_data(sent: Map<u16, SentPacket>, ack: SeqNum, bf: u32)
    ensures
        forall|i: int| 0 <= i < reported(sent, ack, bf).len() ==> {
            let p = #[trigger] reported(sent, ack, bf)[i];
            &&& sent.contains_key(p.0)
            &&& sent[p.0].packet_type == PacketType::Data
            &&& acked_by(ack, bf, p)
        },
{
    let head = if reports(sent, ack.0) { seq![ack] } else { Seq::<SeqNum>::empty() };
    let tail = reported_before(sent, ack, bf, 32);
    assert forall|i: int| 0 <= i < reported(sent, ack, bf).len() implies {
        let p = #[trigger] reported(sent, ack, bf)[i];
        &&& sent.contains_key(p.0)
        &&& sent[p.0].packet_type == PacketType::Data
        &&& acked_by(ack, bf, p)
    } by {
        let p = reported(sent, ack, bf)[i];
        if i < head.len() {
            assert(p == ack);
            assert(forward_dist(ack.0, ack.0) == 0);
        } else {
            assert(tail[i - head.len()] == p);
            assert(tail.contains(p));
            lemma_reported_before_only(sent, ack, bf, 32, p);
            let k = choose|k: int| 1 <= k <= 32 && #[trigger] acked_back(ack, bf, p, k);
            lemma_back_dist(ack.0, k);
        }
    }
}

/// A header reports as delivered every data packet still awaited that it acknowledges.
pub proof fn law_acked_data_reported(sent: Map<u16, SentPacket>, ack: SeqNum, bf: u32)
    ensures
        forall|p: SeqNum| acked_by(ack, bf, p) && sent.contains_key(p.0) && sent[p.0].packet_type == PacketType::Data
            ==> #[trigger] reported(sent, ack, bf).contains(p),
{
    assert forall|p: SeqNum| acked_by(ack, bf, p) && sent.contains_key(p.0) && sent[p.0].packet_type == PacketType::Data
        implies #[trigger] reported(sent, ack, bf).contains(p) by {
        law_acked_data_reported_once(sent, ack, bf, p, ack, bf);
    }
}

/// A packet that a header acknowledges, and that was sent as data, is reported as
/// delivered, and is then forgotten, so that no later header reports it again.
pub proof fn law_acked_data_reported_once(sent: Map<u16, SentPacket>, ack: SeqNum, bf: u32, p: SeqNum, ack2: SeqNum, bf2: u32)
    requires
        acked_by(ack, bf, p),
        reports(sent, p.0),
    ensures
        reported(sent, ack, bf).contains(p),
        !reported(after_ack(sent, ack), ack2, bf2).contains(p),
{
    let k = forward_dist(p.0, ack.0);
    let head = if reports(sent, ack.0) { seq![ack] } else { Seq::<SeqNum>::empty() };
    let tail = reported_before(sent, ack, bf, 32);
    if k == 0 {
        assert(p == ack);
        assert((head + tail)[0] == p);
    } else {
        assert(wrap16(ack.0 - k) == p.0);
        lemma_reported_before_has(sent, ack, bf, 32, k);
        let x = choose|x: int| 0 <= x < tail.len() && tail[x] == p;
        assert((head + tail)[head.len() + x] == p);
    }
    let after = after_ack(sent, ack);
    assert(!after.contains_key(p.0));
    let head2 = if reports(after, ack2.0) { seq![ack2] } else { Seq::<SeqNum>::empty() };
    let tail2 = reported_before(after, ack2, bf2, 32);
    if reported(after, ack2, bf2).contains(p) {
        let x = choose|x: int| 0 <= x < (head2 + tail2).len() && (head2 + tail2)[x] == p;
        if x >= head2.len() {
            assert(tail2[x - head2.len()] == p);
            lemma_reported_before_only(after, ack2, bf2, 32, p);
        }
    }
}

/// A header built from a record of received packets acknowledges every packet the record
/// holds among the 33 before the next expected one.
pub proof fn law_received_packets_acked(held: spec_fn(SeqNum) -> bool, next: SeqNum, bf: u32, p: SeqNum)
    requires
        forall|j: int| 0 <= j < 32 ==> ack_bit(bf, j) == #[trigger] held(SeqNum(wrap16(wrap16(next.0 - 1) - (j + 1)))),
        held(p),
        forward_dist(p.0, wrap16(next.0 - 1)) <= 32,
    ensures
        acked_by(SeqNum(wrap16(next.0 - 1)), bf, p),
{
    let last = wrap16(next.0 - 1);
    let k = forward_dist(p.0, last);
    if k > 0 {
        assert(wrap16(last - k) == p.0);
        assert(SeqNum(wrap16(last - ((k - 1) + 1))) == p);
        assert(ack_bit(bf, k - 1) == held(SeqNum(wrap16(last - ((k - 1) + 1)))));
    }
}

} // verus!
