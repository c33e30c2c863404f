//! The per-connection bookkeeping of channels: one sender and one receiver for each
//! channel an end may send or receive on, and the splitting of long messages.
use vstd::prelude::*;
use std::time::{Duration, Instant};
use crate::bit_reader::BitReader;
use crate::bit_write::BitWrite;
use crate::error::SerdeErr;
use crate::channel::{ChannelMode, ChannelSettings, ReceiverKind, SenderKind, kinds_match, law_senders_meet_receivers, mode_reliable, other_end, receiver_spec, sender_spec};
use crate::constants::FRAGMENTATION_LIMIT_BITS;
use crate::fragment::{FragmentId, FragmentedMessage, MessageFragmenter, carries, fragment_count};
use crate::message::{Message, framed_run, parsed_all, read_framed};
use crate::receivers::{SequencedUnreliableReceiver, UnorderedUnreliableReceiver};
use crate::reliable_receiver::{Arranger, ReliableMessageReceiver, SequencedReliableReceiver, lemma_run_steps_concat, lemma_run_steps_push, message_stepper, run_steps};
use crate::schema::ChannelKinds;
use crate::bit_writer::BitWriter;
use crate::serde::Serde;
use crate::senders::{ReliableSender, SendingEntry, SequencedUnreliableSender, UnorderedUnreliableSender, after_acks, collected, countable, fitting, frames, indices_of, lemma_fitting_fits, lemma_after_acks_concat, lemma_after_acks_push};
use crate::seq_num::{HostType, SeqNum, seq_gt_spec, wrap16, lemma_wrap16_add};
use crate::serde::lemma_le_bytes_len;

verus! {

/// What a channel carries: a whole message, or one fragment of a long one.
#[derive(Clone, Debug)]
pub enum Payload<M> {
    Whole(M),
    Fragment(FragmentedMessage),
}

impl<M: Message> Message for Payload<M> {
    open spec fn encoding(&self) -> Seq<bool> {
        match self {
            Payload::Whole(m) => seq![false] + m.encoding(),
            Payload::Fragment(f) => seq![true] + f.encoding(),
        }
    }

    fn bit_length(&self) -> (r: u32) {
        match self {
            Payload::Whole(m) => m.bit_length() + 1,
            Payload::Fragment(f) => f.bit_length() + 1,
        }
    }

    open spec fn fragment_flag(&self) -> bool {
        match self {
            Payload::Whole(m) => m.fragment_flag(),
            Payload::Fragment(f) => f.fragment_flag(),
        }
    }

    fn is_fragment(&self) -> (r: bool) {
        match self {
            Payload::Whole(m) => m.is_fragment(),
            Payload::Fragment(f) => f.is_fragment(),
        }
    }

    fn encoding_shorter_than(&self, limit: u64) -> (r: bool) {
        if limit == 0 {
            false
        } else {
            match self {
                Payload::Whole(m) => m.encoding_shorter_than(limit - 1),
                Payload::Fragment(f) => f.encoding_shorter_than(limit - 1),
            }
        }
    }

    fn write<W: BitWrite>(&self, writer: &mut W) {
        match self {
            Payload::Whole(m) => {
                writer.write_bit(false);
                m.write(writer);
            },
            Payload::Fragment(f) => {
                writer.write_bit(true);
                f.write(writer);
            },
        }
        assert(writer.written() =~= old(writer).written() + self.encoding());
    }

    open spec fn decoded_len(bits: Seq<bool>) -> Option<nat> {
        if bits.len() == 0 {
            None
        } else if bits[0] {
            match FragmentedMessage::decoded_len(bits.drop_first()) {
                Some(n) => Some(n + 1),
                None => None,
            }
        } else {
            match M::decoded_len(bits.drop_first()) {
                Some(n) => Some(n + 1),
                None => None,
            }
        }
    }

    open spec fn parses(bits: Seq<bool>, m: Payload<M>, n: nat) -> bool {
        &&& bits.len() > 0
        &&& n >= 1
        &&& match m {
            Payload::Whole(w) => !bits[0] && M::parses(bits.drop_first(), w, (n - 1) as nat),
            Payload::Fragment(f) => bits[0] && FragmentedMessage::parses(bits.drop_first(), f, (n - 1) as nat),
        }
    }

    proof fn lemma_parses_encoding(&self, rest: Seq<bool>) {
        match self {
            Payload::Whole(m) => {
                assert((self.encoding() + rest).drop_first() =~= m.encoding() + rest);
                m.lemma_parses_encoding(rest);
            },
            Payload::Fragment(f) => {
                assert((self.encoding() + rest).drop_first() =~= f.encoding() + rest);
                f.lemma_parses_encoding(rest);
            },
        }
    }

    fn read(reader: &mut BitReader) -> (r: Result<Payload<M>, SerdeErr>) {
        let ghost rem = reader.remaining();
        let tag = match reader.read_bit() {
            Ok(b) => b,
            Err(e) => {
                return Err(e);
            },
        };
        proof {
            reader.lemma_wf();
            assert(reader.remaining() =~= rem.drop_first());
        }
        if tag {
            match FragmentedMessage::read(reader) {
                Ok(f) => Ok(Payload::Fragment(f)),
                Err(e) => Err(e),
            }
        } else {
            match M::read(reader) {
                Ok(m) => Ok(Payload::Whole(m)),
                Err(e) => Err(e),
            }
        }
    }
}

/// The sender kept for one channel.
pub enum SenderSlot<M> {
    UnorderedUnreliable(UnorderedUnreliableSender<Payload<M>>),
    SequencedUnreliable(SequencedUnreliableSender<Payload<M>>),
    Reliable(ReliableSender<Payload<M>>),
}

/// The receiver kept for one channel.
pub enum ReceiverSlot<M> {
    UnorderedUnreliable(UnorderedUnreliableReceiver<Payload<M>>),
    SequencedUnreliable(SequencedUnreliableReceiver<Payload<M>>),
    UnorderedReliable(ReliableMessageReceiver<Payload<M>>),
    SequencedReliable(SequencedReliableReceiver<Payload<M>>),
    OrderedReliable(ReliableMessageReceiver<Payload<M>>),
}

impl<M: Message + Clone> SenderSlot<M> {
    /// Which kind of sender this is.
    pub open spec fn kind(&self) -> SenderKind {
        match self {
            SenderSlot::UnorderedUnreliable(_) => SenderKind::UnorderedUnreliable,
            SenderSlot::SequencedUnreliable(_) => SenderKind::SequencedUnreliable,
            SenderSlot::Reliable(_) => SenderKind::Reliable,
        }
    }

    /// Whether the sender has nothing queued and has counted nothing.
    pub open spec fn is_fresh(&self) -> bool {
        match self {
            SenderSlot::UnorderedUnreliable(s) => s.queue().len() == 0 && s.tx_count() == 0,
            SenderSlot::SequencedUnreliable(s) => s.queue().len() == 0 && s.next_index() == SeqNum(0)
                && s.tx_count() == 0,
            SenderSlot::Reliable(s) => s.sending().len() == 0 && s.outgoing().len() == 0
                && s.next_index() == SeqNum(0) && s.tx_count() == 0 && s.tx_queue_count() == 0,
        }
    }

    /// Whether the sender has messages ready to be written.
    pub open spec fn pending(&self) -> bool {
        match self {
            SenderSlot::UnorderedUnreliable(s) => s.queue().len() > 0,
            SenderSlot::SequencedUnreliable(s) => s.queue().len() > 0,
            SenderSlot::Reliable(s) => s.outgoing().len() > 0,
        }
    }

    /// The sender's count of messages sent.
    pub open spec fn sent_count(&self) -> u64 {
        match self {
            SenderSlot::UnorderedUnreliable(s) => s.tx_count(),
            SenderSlot::SequencedUnreliable(s) => s.tx_count(),
            SenderSlot::Reliable(s) => s.tx_count(),
        }
    }

    /// The sender's count of messages queued.
    pub open spec fn queued_count(&self) -> u64 {
        match self {
            SenderSlot::UnorderedUnreliable(s) => s.tx_count(),
            SenderSlot::SequencedUnreliable(s) => s.tx_count(),
            SenderSlot::Reliable(s) => s.tx_queue_count(),
        }
    }

    /// Every message ready to be written counts its bits in a `u32`.
    pub open spec fn countable_out(&self) -> bool {
        match self {
            SenderSlot::UnorderedUnreliable(s) => countable(s.queue()),
            SenderSlot::SequencedUnreliable(s) => countable(s.queue()),
            SenderSlot::Reliable(s) => countable(s.outgoing()),
        }
    }

    /// The first message ready to be written, after its continuation bit, fits in `cap`
    /// bits, or none is ready.
    pub open spec fn first_fits(&self, cap: int) -> bool {
        match self {
            SenderSlot::UnorderedUnreliable(s) => s.queue().len() == 0 || 1 + s.queue()[0].encoding().len() <= cap,
            SenderSlot::SequencedUnreliable(s) => s.queue().len() == 0 || 1 + s.queue()[0].encoding().len()
                <= cap,
            SenderSlot::Reliable(s) => s.outgoing().len() == 0 || 1 + s.outgoing()[0].encoding().len() <= cap,
        }
    }

    /// How many of the messages ready to be written fit, one after the other, in `cap`
    /// bits.
    pub open spec fn fit_count(&self, cap: int) -> nat {
        match self {
            SenderSlot::UnorderedUnreliable(s) => fitting(s.queue(), cap),
            SenderSlot::SequencedUnreliable(s) => fitting(s.queue(), cap),
            SenderSlot::Reliable(s) => fitting(s.outgoing(), cap),
        }
    }

    /// The first `k` messages ready to be written, framed.
    pub open spec fn out_frames(&self, k: int) -> Seq<bool> {
        match self {
            SenderSlot::UnorderedUnreliable(s) => frames(s.queue(), k),
            SenderSlot::SequencedUnreliable(s) => frames(s.queue(), k),
            SenderSlot::Reliable(s) => frames(s.outgoing(), k),
        }
    }

    /// The numbers of the first `k` messages ready to be written, on the channels that
    /// number them.
    pub open spec fn out_indices(&self, k: int) -> Option<Seq<SeqNum>> {
        match self {
            SenderSlot::UnorderedUnreliable(_) => None,
            SenderSlot::SequencedUnreliable(s) => Some(indices_of(s.queue().take(k))),
            SenderSlot::Reliable(s) => Some(indices_of(s.outgoing().take(k))),
        }
    }

    /// `post` is this sender with its first `k` ready messages written and nothing else
    /// changed.
    pub open spec fn wrote(&self, post: SenderSlot<M>, k: int) -> bool {
        match self {
            SenderSlot::UnorderedUnreliable(a) => post matches SenderSlot::UnorderedUnreliable(b)
                && b.queue() == a.queue().skip(k) && b.tx_count() == a.tx_count(),
            SenderSlot::SequencedUnreliable(a) => post matches SenderSlot::SequencedUnreliable(b)
                && b.queue() == a.queue().skip(k) && b.next_index() == a.next_index()
                && b.tx_count() == a.tx_count(),
            SenderSlot::Reliable(a) => post matches SenderSlot::Reliable(b)
                && b.outgoing() == a.outgoing().skip(k) && b.sending() == a.sending()
                && b.next_index() == a.next_index() && b.tx_count() == a.tx_count()
                && b.tx_queue_count() == a.tx_queue_count(),
        }
    }

    /// The messages that fit in `cap` bits take at most `cap` bits.
    pub proof fn lemma_fit_frames(&self, cap: int)
        requires
            cap >= 0,
        ensures
            self.out_frames(self.fit_count(cap) as int).len() <= cap,
    {
        match self {
            SenderSlot::UnorderedUnreliable(s) => lemma_fitting_fits(s.queue(), cap),
            SenderSlot::SequencedUnreliable(s) => lemma_fitting_fits(s.queue(), cap),
            SenderSlot::Reliable(s) => lemma_fitting_fits(s.outgoing(), cap),
        }
    }

    /// Writing nothing leaves a sender as it is.
    pub proof fn lemma_wrote_nothing(&self)
        ensures
            self.wrote(*self, 0),
    {
        match self {
            SenderSlot::UnorderedUnreliable(a) => assert(a.queue().skip(0) =~= a.queue()),
            SenderSlot::SequencedUnreliable(a) => assert(a.queue().skip(0) =~= a.queue()),
            SenderSlot::Reliable(a) => assert(a.outgoing().skip(0) =~= a.outgoing()),
        }
    }

    /// A sender with messages ready whose first one fits writes at least one.
    pub proof fn lemma_first_written(&self, cap: int)
        requires
            self.pending(),
            self.first_fits(cap),
        ensures
            self.fit_count(cap) > 0,
    {
    }

    /// Whether every message ready to be written counts its bits in a `u32`.
    pub fn out_countable(&self) -> (r: bool)
        ensures
            r == self.countable_out(),
    {
        match self {
            SenderSlot::UnorderedUnreliable(s) => s.queue_countable(),
            SenderSlot::SequencedUnreliable(s) => s.queue_countable(),
            SenderSlot::Reliable(s) => s.outgoing_countable(),
        }
    }

    /// Whether the first message ready to be written, after its continuation bit, fits
    /// in `cap` bits, or none is ready.
    pub fn first_out_fits(&self, cap: u32) -> (r: bool)
        ensures
            r == self.first_fits(cap as int),
    {
        match self {
            SenderSlot::UnorderedUnreliable(s) => s.first_fits(cap),
            SenderSlot::SequencedUnreliable(s) => s.first_fits(cap),
            SenderSlot::Reliable(s) => s.first_fits(cap),
        }
    }

    /// Whether messages are ready to be written.
    pub fn has_messages(&self) -> (r: bool)
        ensures
            r == self.pending(),
    {
        match self {
            SenderSlot::UnorderedUnreliable(s) => s.has_messages(),
            SenderSlot::SequencedUnreliable(s) => s.has_messages(),
            SenderSlot::Reliable(s) => s.has_messages(),
        }
    }

    /// The sender's count of messages sent.
    pub fn msg_tx_count(&self) -> (r: u64)
        ensures
            r == self.sent_count(),
    {
        match self {
            SenderSlot::UnorderedUnreliable(s) => s.msg_tx_count(),
            SenderSlot::SequencedUnreliable(s) => s.msg_tx_count(),
            SenderSlot::Reliable(s) => s.msg_tx_count(),
        }
    }

    /// The sender's count of messages queued.
    pub fn msg_tx_queue_count(&self) -> (r: u64)
        ensures
            r == self.queued_count(),
    {
        match self {
            SenderSlot::UnorderedUnreliable(s) => s.msg_tx_queue_count(),
            SenderSlot::SequencedUnreliable(s) => s.msg_tx_queue_count(),
            SenderSlot::Reliable(s) => s.msg_tx_queue_count(),
        }
    }
}

impl<M> ReceiverSlot<M> {
    /// Which kind of receiver this is.
    pub open spec fn kind(&self) -> ReceiverKind {
        match self {
            ReceiverSlot::UnorderedUnreliable(_) => ReceiverKind::UnorderedUnreliable,
            ReceiverSlot::SequencedUnreliable(_) => ReceiverKind::SequencedUnreliable,
            ReceiverSlot::UnorderedReliable(_) => ReceiverKind::UnorderedReliable,
            ReceiverSlot::SequencedReliable(_) => ReceiverKind::SequencedReliable,
            ReceiverSlot::OrderedReliable(_) => ReceiverKind::OrderedReliable,
        }
    }

    /// The receiver's own invariant: a reliable receiver is well formed.
    pub open spec fn ready(&self) -> bool {
        match self {
            ReceiverSlot::UnorderedReliable(r) => r.wf(),
            ReceiverSlot::SequencedReliable(r) => r.wf(),
            ReceiverSlot::OrderedReliable(r) => r.wf(),
            _ => true,
        }
    }

    /// The receiver's count of messages received; only the unordered unreliable
    /// receiver keeps one, the others count nothing.
    pub open spec fn received_count(&self) -> u64 {
        match self {
            ReceiverSlot::UnorderedUnreliable(r) => r.rx_count(),
            _ => 0,
        }
    }

    /// The receiver's count of messages received.
    pub fn msg_rx_count(&self) -> (r: u64)
        ensures
            r == self.received_count(),
    {
        match self {
            ReceiverSlot::UnorderedUnreliable(r) => r.msg_rx_count(),
            _ => 0,
        }
    }

    /// The receiver's count of received messages dropped: no receiver drops any.
    pub fn msg_rx_drop_count(&self) -> (r: u64)
        ensures
            r == 0,
    {
        match self {
            ReceiverSlot::UnorderedUnreliable(r) => r.msg_rx_drop_count(),
            _ => 0,
        }
    }

    /// The receiver's count of messages missed: no receiver counts any.
    pub fn msg_rx_miss_count(&self) -> (r: u64)
        ensures
            r == 0,
    {
        match self {
            ReceiverSlot::UnorderedUnreliable(r) => r.msg_rx_miss_count(),
            _ => 0,
        }
    }
}

/// The receivers' counts of messages received, added up.
pub open spec fn received_total<M>(receivers: Seq<Option<ReceiverSlot<M>>>) -> int
    decreases receivers.len(),
{
    if receivers.len() == 0 {
        0
    } else {
        received_total(receivers.drop_last()) + match receivers.last() {
            Some(r) => r.received_count() as int,
            None => 0,
        }
    }
}

proof fn lemma_received_total_grows<M>(receivers: Seq<Option<ReceiverSlot<M>>>, i: int)
    requires
        0 <= i < receivers.len(),
    ensures
        received_total(receivers.take(i)) <= received_total(receivers.take(i + 1)) <= received_total(receivers),
    decreases receivers.len(),
{
    assert(receivers.take(i + 1).drop_last() =~= receivers.take(i));
    if i + 1 < receivers.len() {
        lemma_received_total_grows(receivers.drop_last(), i);
        assert(receivers.drop_last().take(i) =~= receivers.take(i));
        assert(receivers.drop_last().take(i + 1) =~= receivers.take(i + 1));
    } else {
        assert(receivers.take(i + 1) =~= receivers);
    }
}

proof fn lemma_received_total_zero<M>(receivers: Seq<Option<ReceiverSlot<M>>>)
    requires
        forall|i: int| 0 <= i < receivers.len() ==> (#[trigger] receivers[i] matches Some(r) ==> r.received_count() == 0),
    ensures
        received_total(receivers) == 0,
    decreases receivers.len(),
{
    if receivers.len() > 0 {
        let init = receivers.drop_last();
        assert forall|i: int| 0 <= i < init.len() implies (#[trigger] init[i] matches Some(r) ==> r.received_count() == 0) by {
            assert(init[i] == receivers[i]);
        }
        lemma_received_total_zero(init);
        assert(receivers.last() == receivers[receivers.len() - 1]);
    }
}

/// The kind of sender in a slot, if any.
pub open spec fn sender_kind_of<M: Message + Clone>(slot: Option<SenderSlot<M>>) -> Option<SenderKind> {
    match slot {
        Some(s) => Some(s.kind()),
        None => None,
    }
}

/// The kind of receiver in a slot, if any.
pub open spec fn receiver_kind_of<M>(slot: Option<ReceiverSlot<M>>) -> Option<ReceiverKind> {
    match slot {
        Some(r) => Some(r.kind()),
        None => None,
    }
}

/// The sender a channel in `mode` gets, when there is one.
pub open spec fn sender_kind_for(mode: ChannelMode) -> SenderKind {
    match mode {
        ChannelMode::UnorderedUnreliable => SenderKind::UnorderedUnreliable,
        ChannelMode::SequencedUnreliable => SenderKind::SequencedUnreliable,
        _ => SenderKind::Reliable,
    }
}

/// The reliable sender's entries after `payloads` are queued on it, numbered from
/// `next` on.
pub open spec fn queued_entries<M>(payloads: Seq<Payload<M>>, next: SeqNum) -> Seq<SendingEntry<Payload<M>>> {
    Seq::new(payloads.len(), |i: int| Some((SeqNum(wrap16(next.0 + i)), None::<Instant>, payloads[i])))
}

/// The sequenced sender's queue entries after `payloads` are queued on it, numbered
/// from `next` on.
pub open spec fn numbered<M>(payloads: Seq<Payload<M>>, next: SeqNum) -> Seq<(SeqNum, Payload<M>)> {
    Seq::new(payloads.len(), |i: int| (SeqNum(wrap16(next.0 + i)), payloads[i]))
}

/// `post` is the sender `pre` with `payloads` queued, in order.
pub open spec fn queued_on<M: Message + Clone>(pre: SenderSlot<M>, post: SenderSlot<M>, payloads: Seq<Payload<M>>) -> bool {
    match (pre, post) {
        (SenderSlot::UnorderedUnreliable(a), SenderSlot::UnorderedUnreliable(b)) => {
            &&& b.queue() == a.queue() + payloads
            &&& b.tx_count() == (a.tx_count() + payloads.len()) % 0x1_0000_0000_0000_0000
        },
        (SenderSlot::SequencedUnreliable(a), SenderSlot::SequencedUnreliable(b)) => {
            &&& b.queue() == a.queue() + numbered(payloads, a.next_index())
            &&& b.next_index().0 == wrap16(a.next_index().0 + payloads.len())
            &&& b.tx_count() == (a.tx_count() + payloads.len()) % 0x1_0000_0000_0000_0000
        },
        (SenderSlot::Reliable(a), SenderSlot::Reliable(b)) => {
            &&& b.sending() == a.sending() + queued_entries(payloads, a.next_index())
            &&& b.next_index().0 == wrap16(a.next_index().0 + payloads.len())
            &&& b.outgoing() == a.outgoing()
            &&& b.tx_count() == a.tx_count()
            &&& b.tx_queue_count() == a.tx_queue_count() + payloads.len()
        },
        _ => false,
    }
}

/// Each fragment as a payload.
pub open spec fn as_fragments<M>(frags: Seq<FragmentedMessage>) -> Seq<Payload<M>> {
    Seq::new(frags.len(), |i: int| Payload::<M>::Fragment(frags[i]))
}

/// `frags` are the fragments of a message encoded as `bits`, all under identifier `id`,
/// each knowing its position and their number.
pub open spec fn fragments_of(frags: Seq<FragmentedMessage>, bits: Seq<bool>, id: FragmentId) -> bool {
    &&& carries(frags, bits)
    &&& forall|i: int| 0 <= i < frags.len() ==> {
        &&& (#[trigger] frags[i]).id == id
        &&& frags[i].index.value() == i
        &&& frags[i].total.value() == frags.len()
    }
}

/// Keeps, for one end of a connection, a sender for each channel it may send on and a
/// receiver for each channel the other end may send on, and splits long messages.
pub struct MessageManager<M> {
    channel_senders: Vec<Option<SenderSlot<M>>>,
    channel_receivers: Vec<Option<ReceiverSlot<M>>>,
    channel_settings: Vec<ChannelSettings>,
    packet_to_message_map: Vec<(SeqNum, u16, Vec<SeqNum>)>,
    message_fragmenter: MessageFragmenter,
}

impl<M: Message + Clone> MessageManager<M> {
    /// The sender of each channel, by network id.
    pub closed spec fn senders(&self) -> Seq<Option<SenderSlot<M>>> {
        self.channel_senders@
    }

    /// The receiver of each channel, by network id.
    pub closed spec fn receivers(&self) -> Seq<Option<ReceiverSlot<M>>> {
        self.channel_receivers@
    }

    /// The settings of each channel, by network id.
    pub closed spec fn settings(&self) -> Seq<ChannelSettings> {
        self.channel_settings@
    }

    /// What was written into each packet on the channels that track their messages: the
    /// packet's number, the channel, and the numbers of the messages written, in the
    /// order written.
    pub closed spec fn in_flight(&self) -> Seq<(SeqNum, u16, Seq<SeqNum>)> {
        Seq::new(
            self.packet_to_message_map@.len(),
            |i: int| (self.packet_to_message_map@[i].0, self.packet_to_message_map@[i].1, self.packet_to_message_map@[i].2@),
        )
    }

    /// The identifier the next fragmented message gets.
    pub closed spec fn next_fragment_id(&self) -> FragmentId {
        self.message_fragmenter.next_id()
    }

    /// One sender and one receiver slot per channel, each sender of the kind its
    /// channel's mode calls for.
    pub open spec fn wf(&self) -> bool {
        &&& self.senders().len() == self.settings().len()
        &&& self.receivers().len() == self.settings().len()
        &&& forall|i: int| 0 <= i < self.senders().len() ==> (#[trigger] self.senders()[i] matches Some(s)
            ==> s.kind() == sender_kind_for(self.settings()[i].mode))
        &&& forall|i: int| 0 <= i < self.receivers().len() ==> (#[trigger] self.receivers()[i] matches Some(r)
            ==> r.ready())
    }

    /// `channel` has a sender, `message` is short enough to count its bits in a `u32`,
    /// only goes whole or on a reliable channel, and fits the sender's queue count.
    pub open spec fn can_queue(&self, channel: u16, message: M) -> bool {
        &&& self.wf()
        &&& channel < self.senders().len()
        &&& self.senders()[channel as int] is Some
        &&& message.encoding().len() <= u32::MAX
        &&& message.encoding().len() > FRAGMENTATION_LIMIT_BITS ==> mode_reliable(
            self.settings()[channel as int].mode,
        )
        &&& self.senders()[channel as int]->0 matches SenderSlot::Reliable(s) ==> s.tx_queue_count()
            + fragment_count(message.encoding().len()) <= u64::MAX
    }

    /// Every reliable sender has room in its count for all its waiting messages.
    pub open spec fn can_collect(&self) -> bool {
        &&& self.wf()
        &&& forall|i: int| 0 <= i < self.senders().len() ==> (#[trigger] self.senders()[i] matches Some(
            SenderSlot::Reliable(s),
        ) ==> s.tx_count() + s.sending().len() <= u64::MAX)
    }

    /// Freshly set up by `host` for channels with `settings`: a fresh sender where `host`
    /// may send, a receiver where the other end may send, each of the kind the channel
    /// calls for, and fragment identifiers starting at 0.
    pub open spec fn set_up_for(&self, host: HostType, settings: Seq<ChannelSettings>) -> bool {
        &&& self.wf()
        &&& self.settings() == settings
        &&& forall|i: int| 0 <= i < self.senders().len() ==> sender_kind_of(#[trigger] self.senders()[i])
            == sender_spec(self.settings()[i], host)
        &&& forall|i: int| 0 <= i < self.senders().len() ==> (#[trigger] self.senders()[i] matches Some(s)
            ==> s.is_fresh())
        &&& forall|i: int| 0 <= i < self.receivers().len() ==> receiver_kind_of(#[trigger] self.receivers()[i])
            == receiver_spec(self.settings()[i], host)
        &&& forall|i: int| 0 <= i < self.receivers().len() ==> (#[trigger] self.receivers()[i] matches Some(r)
            ==> r.received_count() == 0)
        &&& received_total(self.receivers()) == 0
        &&& sent_total(self.senders()) == 0
        &&& queued_total(self.senders()) == 0
        &&& self.in_flight().len() == 0
        &&& self.next_fragment_id().value() == 0
    }

    /// Sets up the senders and receivers `host` keeps for the channels of
    /// `channel_kinds`: a sender where `host` may send, a receiver where the other end
    /// may send, each of the kind the channel's mode calls for.
    pub fn new(host_type: HostType, channel_kinds: &ChannelKinds) -> (r: Self)
        ensures
            r.set_up_for(host_type, channel_kinds.settings()),
    {
        let n = channel_kinds.len();
        let mut channel_senders: Vec<Option<SenderSlot<M>>> = Vec::new();
        let mut channel_receivers: Vec<Option<ReceiverSlot<M>>> = Vec::new();
        let mut channel_settings: Vec<ChannelSettings> = Vec::new();
        let mut i: usize = 0;
        while i < n
            invariant
                n == channel_kinds.settings().len(),
                i <= n,
                channel_settings@ == channel_kinds.settings().take(i as int),
                channel_senders@.len() == i,
                channel_receivers@.len() == i,
                forall|j: int| 0 <= j < i ==> sender_kind_of(#[trigger] channel_senders@[j])
                    == sender_spec(channel_kinds.settings()[j], host_type),
                forall|j: int| 0 <= j < i ==> (#[trigger] channel_senders@[j] matches Some(s)
                    ==> s.is_fresh() && s.kind() == sender_kind_for(channel_kinds.settings()[j].mode)),
                forall|j: int| 0 <= j < i ==> receiver_kind_of(#[trigger] channel_receivers@[j])
                    == receiver_spec(channel_kinds.settings()[j], host_type),
                forall|j: int| 0 <= j < i ==> (#[trigger] channel_receivers@[j] matches Some(r)
                    ==> r.received_count() == 0 && r.ready()),
            decreases n - i,
        {
            let settings = channel_kinds.settings_at(i);
            let sender: Option<SenderSlot<M>> = match settings.sender_for(host_type) {
                Some(SenderKind::UnorderedUnreliable) => Some(
                    SenderSlot::UnorderedUnreliable(UnorderedUnreliableSender::new()),
                ),
                Some(SenderKind::SequencedUnreliable) => Some(
                    SenderSlot::SequencedUnreliable(SequencedUnreliableSender::new()),
                ),
                Some(SenderKind::Reliable) => Some(SenderSlot::Reliable(ReliableSender::new())),
                None => None,
            };
            let receiver: Option<ReceiverSlot<M>> = match settings.receiver_for(host_type) {
                Some(ReceiverKind::UnorderedUnreliable) => Some(
                    ReceiverSlot::UnorderedUnreliable(UnorderedUnreliableReceiver::new()),
                ),
                Some(ReceiverKind::SequencedUnreliable) => Some(
                    ReceiverSlot::SequencedUnreliable(SequencedUnreliableReceiver::new()),
                ),
                Some(ReceiverKind::UnorderedReliable) => Some(
                    ReceiverSlot::UnorderedReliable(ReliableMessageReceiver::with_arranger(Arranger::Unordered)),
                ),
                Some(ReceiverKind::SequencedReliable) => Some(
                    ReceiverSlot::SequencedReliable(SequencedReliableReceiver::new()),
                ),
                Some(ReceiverKind::OrderedReliable) => Some(
                    ReceiverSlot::OrderedReliable(ReliableMessageReceiver::ordered()),
                ),
                None => None,
            };
            channel_senders.push(sender);
            channel_receivers.push(receiver);
            channel_settings.push(settings);
            proof {
                assert(channel_kinds.settings().take(i + 1) =~= channel_kinds.settings().take(i as int).push(settings));
            }
            i = i + 1;
        }
        proof {
            assert(channel_kinds.settings().take(n as int) =~= channel_kinds.settings());
        }
        let r = MessageManager {
            channel_senders,
            channel_receivers,
            channel_settings,
            packet_to_message_map: Vec::new(),
            message_fragmenter: MessageFragmenter::new(),
        };
        proof {
            lemma_fresh_totals_zero(r.senders());
            lemma_received_total_zero(r.receivers());
        }
        r
    }

    /// Whether some channel has messages ready to be written.
    pub fn has_outgoing_messages(&self) -> (r: bool)
        ensures
            r == exists|i: int| 0 <= i < self.senders().len() && (#[trigger] self.senders()[i] matches Some(s)
                && s.pending()),
    {
        let mut i: usize = 0;
        while i < self.channel_senders.len()
            invariant
                i <= self.senders().len(),
                forall|j: int| 0 <= j < i ==> !(#[trigger] self.senders()[j] matches Some(s) && s.pending()),
            decreases self.senders().len() - i,
        {
            match &self.channel_senders[i] {
                Some(sender) => {
                    if sender.has_messages() {
                        assert(self.senders()[i as int] matches Some(s) && s.pending());
                        return true;
                    }
                },
                None => {},
            }
            i = i + 1;
        }
        false
    }

    /// Collects, on every reliable channel, the messages due to be written again (see
    /// `ReliableSender::collect_messages`); the other channels have nothing to collect.
    pub fn collect_messages(&mut self, now: &Instant, resend: Duration)
        requires
            old(self).can_collect(),
        ensures
            messages_collected(*old(self), *final(self), *now),
    {
        let mut i: usize = 0;
        while i < self.channel_senders.len()
            invariant
                i <= self.senders().len(),
                self.wf(),
                self.senders().len() == old(self).senders().len(),
                self.settings() == old(self).settings(),
                self.receivers() == old(self).receivers(),
                self.next_fragment_id() == old(self).next_fragment_id(),
                self.in_flight() == old(self).in_flight(),
                forall|j: int| 0 <= j < old(self).senders().len() ==> (#[trigger] old(self).senders()[j] matches Some(
                    SenderSlot::Reliable(s),
                ) ==> s.tx_count() + s.sending().len() <= u64::MAX),
                forall|j: int| i <= j < self.senders().len() ==> #[trigger] self.senders()[j] == old(self).senders()[j],
                forall|j: int| 0 <= j < i ==> match #[trigger] old(self).senders()[j] {
                    Some(SenderSlot::Reliable(a)) => self.senders()[j] matches Some(SenderSlot::Reliable(b))
                        && collected(a, b, *now),
                    other => self.senders()[j] == other,
                },
            decreases self.senders().len() - i,
        {
            let ghost before = self.channel_senders@;
            let mut slot: Option<SenderSlot<M>> = None;
            std::mem::swap(&mut slot, &mut self.channel_senders[i]);
            match slot {
                Some(SenderSlot::Reliable(mut sender)) => {
                    sender.collect_messages(now, resend);
                    slot = Some(SenderSlot::Reliable(sender));
                },
                _ => {},
            }
            self.channel_senders.set(i, slot);
            proof {
                assert(self.channel_senders@ == before.update(i as int, slot));
            }
            i = i + 1;
        }
    }

    /// Writes into packet `packet_seq` the messages the channels have ready, channel by
    /// channel in id order (see `channel_plan`), keeping one bit for the closing `false`
    /// bit that ends the list of channels, and records under `packet_seq` the numbers of
    /// the messages written on each channel that numbers them.
    #[verifier::spinoff_prover]
    #[verifier::rlimit(60)]
    pub fn write_messages(&mut self, writer: &mut BitWriter, packet_seq: SeqNum)
        requires
            old(self).wf(),
            old(self).senders().len() <= 0x1_0000,
            forall|j: int| 0 <= j < old(self).senders().len() ==> (#[trigger] old(self).senders()[j] matches Some(s)
                ==> s.countable_out()),
            old(writer).inv(),
            1 <= old(writer).capacity(),
            channel_plan(old(self).senders(), 0, old(writer).capacity() - 1).0.len() + 1 <= old(writer).space(),
            first_ready_fits(old(self).senders(), 0, old(writer).capacity() - 1),
        ensures
            messages_written(*old(self), *final(self), old(writer).capacity() - 1, packet_seq),
            ({
                let plan = channel_plan(old(self).senders(), 0, old(writer).capacity() - 1);
                &&& final(writer).inv()
                &&& final(writer).written() == old(writer).written() + plan.0 + seq![false]
                &&& final(writer).capacity() == old(writer).capacity() - plan.0.len() - 1
            }),
    {
        proof {
            writer.lemma_capacity_bound();
            writer.lemma_room();
        }
        writer.reserve_bits(1);
        let mut has_written = false;
        let n = self.channel_senders.len();
        let ghost space0 = writer.space() as int;
        let ghost olds = self.senders();
        let ghost c0 = writer.capacity() as int;
        let ghost w0 = writer.written();
        let ghost f0 = self.in_flight();
        let ghost plan0 = channel_plan(olds, 0, c0);
        let ghost done_bits: Seq<bool> = Seq::empty();
        let ghost done_counts: Seq<nat> = Seq::empty();
        let ghost done_recs: Seq<(u16, Seq<SeqNum>)> = Seq::empty();
        proof {
            assert(done_bits + plan0.0 =~= plan0.0);
            assert(done_counts + plan0.1 =~= plan0.1);
            assert(done_recs + plan0.2 =~= plan0.2);
            assert(f0 + tagged(done_recs, packet_seq) =~= f0);
        }
        let mut i: usize = 0;
        while i < n
            invariant
                n == olds.len(),
                i <= n,
                n <= 0x1_0000,
                olds == old(self).senders(),
                old(self).wf(),
                forall|j: int| 0 <= j < n ==> (#[trigger] olds[j] matches Some(s) ==> s.countable_out()),
                self.senders().len() == n,
                self.settings() == old(self).settings(),
                self.receivers() == old(self).receivers(),
                self.next_fragment_id() == old(self).next_fragment_id(),
                writer.inv(),
                writer.space() + done_bits.len() == space0,
                plan0.0.len() + 1 <= space0,
                c0 < u32::MAX,
                writer.written() == w0 + done_bits,
                writer.capacity() == c0 - done_bits.len(),
                w0 == old(writer).written(),
                c0 == old(writer).capacity() - 1,
                plan0 == channel_plan(olds, 0, c0),
                done_counts.len() == i,
                plan0.0 == done_bits + channel_plan(olds, i as int, writer.capacity() as int).0,
                plan0.1 == done_counts + channel_plan(olds, i as int, writer.capacity() as int).1,
                plan0.2 == done_recs + channel_plan(olds, i as int, writer.capacity() as int).2,
                has_written || first_ready_fits(olds, i as int, writer.capacity() as int),
                forall|j: int| 0 <= j < i ==> match #[trigger] olds[j] {
                    Some(s) => self.senders()[j] matches Some(t) && s.wrote(t, done_counts[j] as int),
                    None => self.senders()[j] is None,
                },
                forall|j: int| i <= j < n ==> #[trigger] self.senders()[j] == olds[j],
                f0 == old(self).in_flight(),
                self.in_flight() == f0 + tagged(done_recs, packet_seq),
            decreases n - i,
        {
            let ghost cap = writer.capacity() as int;
            let pending = match &self.channel_senders[i] {
                Some(sender) => sender.has_messages(),
                None => false,
            };
            if !pending {
                proof {
                    assert(!(olds[i as int] is Some && olds[i as int]->0.pending()));
                    let rest = channel_plan(olds, i + 1, cap);
                    assert(done_counts + channel_plan(olds, i as int, cap).1 =~= done_counts.push(0) + rest.1);
                    done_counts = done_counts.push(0);
                    if olds[i as int] is Some {
                        olds[i as int]->0.lemma_wrote_nothing();
                    }
                }
                i = i + 1;
            } else {
                let id: u16 = i as u16;
                proof {
                    lemma_le_bytes_len(id as nat, 2);
                    assert(id.encoding().len() == 16);
                    assert(channel_bits(i as int) == id.encoding());
                }
                let mut counter = writer.counter();
                proof {
                    counter.lemma_capacity_is_limit();
                }
                counter.write_bit(false);
                counter.write_bit(false);
                id.ser(&mut counter);
                proof {
                    counter.lemma_capacity_is_limit();
                }
                if counter.overflowed() {
                    proof {
                        assert(cap < 18);
                        let zeros = Seq::new((n - i) as nat, |j: int| 0nat);
                        assert(channel_plan(olds, i as int, cap).1 == zeros);
                        lemma_plan_counts(olds, n as int, cap);
                        assert forall|j: int| 0 <= j < n implies match #[trigger] olds[j] {
                            Some(s) => self.senders()[j] matches Some(t) && s.wrote(t, (done_counts + zeros)[j] as int),
                            None => self.senders()[j] is None,
                        } by {
                            if j >= i && olds[j] is Some {
                                olds[j]->0.lemma_wrote_nothing();
                            }
                        }
                        assert(plan0.0 =~= done_bits + channel_plan(olds, n as int, cap).0);
                        assert(plan0.1 =~= (done_counts + zeros) + channel_plan(olds, n as int, cap).1);
                        assert(plan0.2 =~= done_recs + channel_plan(olds, n as int, cap).2);
                        done_counts = done_counts + zeros;
                    }
                    i = n;
                } else {
                    let ghost s0 = olds[i as int]->0;
                    let ghost k = s0.fit_count(cap - 18);
                    let ghost body = seq![true] + channel_bits(i as int) + s0.out_frames(k as int) + seq![false];
                    let ghost before = writer.written();
                    proof {
                        writer.lemma_room();
                    }
                    writer.reserve_bits(1);
                    proof {
                        writer.lemma_room();
                    }
                    writer.write_bit(true);
                    proof {
                        writer.lemma_room();
                    }
                    id.ser(writer);
                    let mut slot: Option<SenderSlot<M>> = None;
                    std::mem::swap(&mut slot, &mut self.channel_senders[i]);
                    assert(slot == Some(s0));
                    let sender = slot.unwrap();
                    proof {
                        writer.lemma_room();
                        assert(writer.capacity() == cap - 18);
                    }
                    let (written_sender, indices) = write_slot(sender, writer, &mut has_written);
                    let ghost ws = written_sender;
                    let ghost recorded = indices;
                    let ghost map_before = self.in_flight();
                    self.channel_senders.set(i, Some(written_sender));
                    match indices {
                        Some(v) => {
                            self.packet_to_message_map.push((packet_seq, id, v));
                        },
                        None => {},
                    }
                    proof {
                        writer.lemma_room();
                    }
                    writer.release_bits(1);
                    proof {
                        writer.lemma_room();
                    }
                    writer.write_bit(false);
                    proof {
                        assert(self.senders()[i as int] == Some(ws));
                        assert(s0.wrote(ws, k as int));
                        assert(writer.written() =~= before + body);
                        let rest = channel_plan(olds, i + 1, cap - body.len());
                        let recs = match s0.out_indices(k as int) {
                            Some(v) => seq![(i as u16, v)],
                            None => Seq::<(u16, Seq<SeqNum>)>::empty(),
                        };
                        assert(plan0.0 =~= (done_bits + body) + rest.0);
                        assert(plan0.1 =~= done_counts.push(k) + rest.1);
                        assert(plan0.2 =~= (done_recs + recs) + rest.2);
                        match recorded {
                            Some(v) => {
                                assert(self.in_flight() =~= map_before.push((packet_seq, id, v@)));
                                assert(recs == seq![(id, v@)]);
                            },
                            None => {
                                assert(self.in_flight() =~= map_before);
                            },
                        }
                        assert(self.in_flight() =~= f0 + tagged(done_recs + recs, packet_seq));
                        done_bits = done_bits + body;
                        done_counts = done_counts.push(k);
                        done_recs = done_recs + recs;
                        if !has_written {
                            s0.lemma_first_written(cap - 18);
                        }
                    }
                    i = i + 1;
                }
            }
        }
        proof {
            writer.lemma_room();
            lemma_plan_counts(olds, 0, c0);
        }
        writer.release_bits(1);
        proof {
            writer.lemma_room();
        }
        writer.write_bit(false);
        proof {
            assert forall|j: int| 0 <= j < self.senders().len() implies (#[trigger] self.senders()[j] matches Some(t)
                ==> t.kind() == sender_kind_for(self.settings()[j].mode)) by {
                if olds[j] is Some {
                    assert(old(self).senders()[j] == olds[j]);
                }
            }
            assert(done_bits =~= plan0.0);
            assert(done_counts =~= plan0.1);
            assert(done_recs =~= plan0.2);
        }
    }

    /// Acknowledges, on each channel's sender, every message recorded as written into
    /// packet `packet_index`, now that the packet was delivered; those messages are no
    /// longer resent.
    pub fn notify_packet_delivered(&mut self, packet_index: SeqNum)
        requires
            old(self).wf(),
        ensures
            packet_acked(*old(self), *final(self), packet_index),
    {
        let ghost olds = self.senders();
        let ghost recs = self.in_flight();
        let m = self.packet_to_message_map.len();
        let mut r: usize = 0;
        proof {
            assert forall|j: int| 0 <= j < olds.len() implies match #[trigger] olds[j] {
                Some(SenderSlot::Reliable(a)) => self.senders()[j] matches Some(SenderSlot::Reliable(b))
                    && b.sending() == after_acks(a.sending(), acks_for(recs.take(0), packet_index, j))
                    && b.outgoing() == a.outgoing() && b.next_index() == a.next_index()
                    && b.tx_count() == a.tx_count() && b.tx_queue_count() == a.tx_queue_count(),
                other => self.senders()[j] == other,
            } by {
                assert(recs.take(0).len() == 0);
            }
        }
        while r < m
            invariant
                m == recs.len(),
                r <= m,
                recs == old(self).in_flight(),
                olds == old(self).senders(),
                self.in_flight() == recs,
                self.wf(),
                self.settings() == old(self).settings(),
                self.receivers() == old(self).receivers(),
                self.next_fragment_id() == old(self).next_fragment_id(),
                self.senders().len() == olds.len(),
                forall|j: int| 0 <= j < olds.len() ==> match #[trigger] olds[j] {
                    Some(SenderSlot::Reliable(a)) => self.senders()[j] matches Some(SenderSlot::Reliable(b))
                        && b.sending() == after_acks(a.sending(), acks_for(recs.take(r as int), packet_index, j))
                        && b.outgoing() == a.outgoing() && b.next_index() == a.next_index()
                        && b.tx_count() == a.tx_count() && b.tx_queue_count() == a.tx_queue_count(),
                    other => self.senders()[j] == other,
                },
            decreases m - r,
        {
            let ghost rec = recs[r as int];
            proof {
                assert(recs.take(r + 1).drop_last() =~= recs.take(r as int));
                assert(recs.take(r + 1).last() == rec);
            }
            let matches_packet = self.packet_to_message_map[r].0 == packet_index;
            let ch = self.packet_to_message_map[r].1 as usize;
            if matches_packet && ch < self.channel_senders.len() {
                let ghost before = self.senders();
                let mut slot: Option<SenderSlot<M>> = None;
                std::mem::swap(&mut slot, &mut self.channel_senders[ch]);
                match slot {
                    Some(SenderSlot::Reliable(mut sender)) => {
                        let ghost done = acks_for(recs.take(r as int), packet_index, ch as int);
                        assert(before[ch as int] == Some(SenderSlot::Reliable(sender)));
                        assert(olds[ch as int] matches Some(SenderSlot::Reliable(a)));
                        let ghost start = olds[ch as int]->0->Reliable_0.sending();
                        assert(sender.sending() == after_acks(start, done));
                        let len = self.packet_to_message_map[r].2.len();
                        let mut t: usize = 0;
                        proof {
                            assert(done + rec.2.take(0) =~= done);
                        }
                        while t < len
                            invariant
                                t <= len,
                                len == rec.2.len(),
                                self.in_flight() == recs,
                                r < m,
                                m == recs.len(),
                                rec == recs[r as int],
                                self.packet_to_message_map@[r as int].2@ == rec.2,
                                sender.sending() == after_acks(start, done + rec.2.take(t as int)),
                                sender.outgoing() == before[ch as int]->0->Reliable_0.outgoing(),
                                sender.next_index() == before[ch as int]->0->Reliable_0.next_index(),
                                sender.tx_count() == before[ch as int]->0->Reliable_0.tx_count(),
                                sender.tx_queue_count() == before[ch as int]->0->Reliable_0.tx_queue_count(),
                            decreases len - t,
                        {
                            let index = self.packet_to_message_map[r].2[t];
                            sender.ack(&index);
                            proof {
                                lemma_after_acks_push(start, done + rec.2.take(t as int), index);
                                assert(done + rec.2.take(t + 1) =~= (done + rec.2.take(t as int)).push(index));
                            }
                            t = t + 1;
                        }
                        proof {
                            assert(rec.2.take(len as int) =~= rec.2);
                        }
                        slot = Some(SenderSlot::Reliable(sender));
                    },
                    _ => {},
                }
                self.channel_senders.set(ch, slot);
                proof {
                    assert forall|j: int| 0 <= j < olds.len() implies match #[trigger] olds[j] {
                        Some(SenderSlot::Reliable(a)) => self.senders()[j] matches Some(SenderSlot::Reliable(b))
                            && b.sending() == after_acks(a.sending(), acks_for(recs.take(r + 1), packet_index, j))
                            && b.outgoing() == a.outgoing() && b.next_index() == a.next_index()
                            && b.tx_count() == a.tx_count() && b.tx_queue_count() == a.tx_queue_count(),
                        other => self.senders()[j] == other,
                    } by {
                        if j != ch {
                            assert(acks_for(recs.take(r + 1), packet_index, j) =~= acks_for(recs.take(r as int), packet_index, j));
                        } else {
                            assert(rec.0 == packet_index && rec.1 == ch);
                            assert(acks_for(recs.take(r + 1), packet_index, j) =~= acks_for(recs.take(r as int), packet_index, j) + rec.2);
                        }
                    }
                    assert forall|j: int| 0 <= j < self.senders().len() implies (#[trigger] self.senders()[j] matches Some(t)
                        ==> t.kind() == sender_kind_for(self.settings()[j].mode)) by {
                        if j == ch {
                            assert(before[j] matches Some(t) ==> t.kind() == sender_kind_for(self.settings()[j].mode));
                        }
                    }
                }
            } else {
                proof {
                    assert forall|j: int| 0 <= j < olds.len() implies match #[trigger] olds[j] {
                        Some(SenderSlot::Reliable(a)) => self.senders()[j] matches Some(SenderSlot::Reliable(b))
                            && b.sending() == after_acks(a.sending(), acks_for(recs.take(r + 1), packet_index, j))
                            && b.outgoing() == a.outgoing() && b.next_index() == a.next_index()
                            && b.tx_count() == a.tx_count() && b.tx_queue_count() == a.tx_queue_count(),
                        other => self.senders()[j] == other,
                    } by {
                        assert(acks_for(recs.take(r + 1), packet_index, j) =~= acks_for(recs.take(r as int), packet_index, j));
                    }
                }
            }
            r = r + 1;
        }
        proof {
            assert(recs.take(m as int) =~= recs);
        }
    }

    /// Acknowledges the messages of each of `packets` in turn, as `notify_packet_delivered`
    /// does for one; `packets` are those the acknowledgement of an incoming header reports
    /// (see `AckManager::process_incoming_header`).
    pub fn notify_packets_delivered(&mut self, packets: &Vec<SeqNum>)
        requires
            old(self).wf(),
        ensures
            packets_acked(*old(self), *final(self), packets@),
    {
        let ghost recs = self.in_flight();
        let mut i: usize = 0;
        proof {
            assert forall|j: int| 0 <= j < old(self).senders().len() implies match #[trigger] old(self).senders()[j] {
                Some(SenderSlot::Reliable(a)) => self.senders()[j] matches Some(SenderSlot::Reliable(b))
                    && b.sending() == after_acks(a.sending(), acks_for_packets(recs, packets@.take(0), j))
                    && b.outgoing() == a.outgoing() && b.next_index() == a.next_index()
                    && b.tx_count() == a.tx_count() && b.tx_queue_count() == a.tx_queue_count(),
                other => self.senders()[j] == other,
            } by {
                assert(packets@.take(0).len() == 0);
            }
        }
        while i < packets.len()
            invariant
                i <= packets@.len(),
                recs == old(self).in_flight(),
                self.wf(),
                self.settings() == old(self).settings(),
                self.receivers() == old(self).receivers(),
                self.next_fragment_id() == old(self).next_fragment_id(),
                self.in_flight() == recs,
                self.senders().len() == old(self).senders().len(),
                forall|j: int| 0 <= j < old(self).senders().len() ==> match #[trigger] old(self).senders()[j] {
                    Some(SenderSlot::Reliable(a)) => self.senders()[j] matches Some(SenderSlot::Reliable(b))
                        && b.sending() == after_acks(a.sending(), acks_for_packets(recs, packets@.take(i as int), j))
                        && b.outgoing() == a.outgoing() && b.next_index() == a.next_index()
                        && b.tx_count() == a.tx_count() && b.tx_queue_count() == a.tx_queue_count(),
                    other => self.senders()[j] == other,
                },
            decreases packets@.len() - i,
        {
            let ghost mid = *self;
            self.notify_packet_delivered(packets[i]);
            proof {
                assert(packets@.take(i + 1).drop_last() =~= packets@.take(i as int));
                assert(packets@.take(i + 1).last() == packets@[i as int]);
                assert forall|j: int| 0 <= j < old(self).senders().len() implies match #[trigger] old(self).senders()[j] {
                    Some(SenderSlot::Reliable(a)) => self.senders()[j] matches Some(SenderSlot::Reliable(b))
                        && b.sending() == after_acks(a.sending(), acks_for_packets(recs, packets@.take(i + 1), j))
                        && b.outgoing() == a.outgoing() && b.next_index() == a.next_index()
                        && b.tx_count() == a.tx_count() && b.tx_queue_count() == a.tx_queue_count(),
                    other => self.senders()[j] == other,
                } by {
                    match old(self).senders()[j] {
                        Some(SenderSlot::Reliable(a)) => {
                            assert(mid.senders()[j] matches Some(SenderSlot::Reliable(_)));
                            lemma_after_acks_concat(
                                a.sending(),
                                acks_for_packets(recs, packets@.take(i as int), j),
                                acks_for(recs, packets@[i as int], j),
                            );
                        },
                        _ => {
                            assert(mid.senders()[j] == old(self).senders()[j]);
                        },
                    }
                }
            }
            i = i + 1;
        }
        proof {
            assert(packets@.take(i as int) =~= packets@);
        }
    }

    /// Whether every reliable sender's count has room for all its waiting messages, so
    /// that a collection can count them (see `can_collect`).
    pub fn collect_fits(&self) -> (r: bool)
        requires
            self.wf(),
        ensures
            r == self.can_collect(),
    {
        let mut i: usize = 0;
        while i < self.channel_senders.len()
            invariant
                i <= self.senders().len(),
                self.wf(),
                forall|j: int| 0 <= j < i ==> (#[trigger] self.senders()[j] matches Some(SenderSlot::Reliable(s))
                    ==> s.tx_count() + s.sending().len() <= u64::MAX),
            decreases self.senders().len() - i,
        {
            match &self.channel_senders[i] {
                Some(SenderSlot::Reliable(sender)) => {
                    let waiting = sender.waiting_count() as u64;
                    if sender.msg_tx_count().checked_add(waiting).is_none() {
                        return false;
                    }
                },
                _ => {},
            }
            i = i + 1;
        }
        true
    }

    /// Whether the channels' messages can be written into a packet with `capacity` bits
    /// of budget: at most 65536 channels, every ready message counting its bits in a
    /// `u32`, and the first channel with messages ready able to write its first one
    /// (see `write_messages`).
    pub fn can_write(&self, capacity: u32) -> (r: bool)
        requires
            self.wf(),
            capacity >= 1,
        ensures
            r == (self.senders().len() <= 0x1_0000 && (forall|j: int| 0 <= j < self.senders().len() ==> (
            #[trigger] self.senders()[j] matches Some(s) ==> s.countable_out())) && first_ready_fits(
                self.senders(),
                0,
                capacity - 1,
            )),
    {
        if self.channel_senders.len() > 0x1_0000 {
            return false;
        }
        let mut i: usize = 0;
        while i < self.channel_senders.len()
            invariant
                i <= self.senders().len(),
                forall|j: int| 0 <= j < i ==> (#[trigger] self.senders()[j] matches Some(s) ==> s.countable_out()),
            decreases self.senders().len() - i,
        {
            match &self.channel_senders[i] {
                Some(sender) => {
                    if !sender.out_countable() {
                        assert(!(self.senders()[i as int] matches Some(s) ==> s.countable_out()));
                        return false;
                    }
                },
                None => {},
            }
            i = i + 1;
        }
        let cap = capacity - 1;
        let mut i: usize = 0;
        while i < self.channel_senders.len()
            invariant
                i <= self.senders().len(),
                self.senders().len() <= 0x1_0000,
                cap == capacity - 1,
                forall|j: int| 0 <= j < self.senders().len() ==> (#[trigger] self.senders()[j] matches Some(s)
                    ==> s.countable_out()),
                first_ready_fits(self.senders(), 0, cap as int) == first_ready_fits(self.senders(), i as int, cap as int),
            decreases self.senders().len() - i,
        {
            match &self.channel_senders[i] {
                Some(sender) => {
                    assert(self.senders()[i as int] == Some(*sender));
                    if sender.has_messages() {
                        assert(first_ready_fits(self.senders(), i as int, cap as int) == (cap >= 18 ==> sender.first_fits(
                            cap - 18,
                        )));
                        if cap < 18 {
                            return true;
                        }
                        return sender.first_out_fits(cap - 18);
                    }
                    assert(first_ready_fits(self.senders(), i as int, cap as int) == first_ready_fits(
                        self.senders(),
                        i + 1,
                        cap as int,
                    ));
                },
                None => {
                    assert(first_ready_fits(self.senders(), i as int, cap as int) == first_ready_fits(
                        self.senders(),
                        i + 1,
                        cap as int,
                    ));
                },
            }
            i = i + 1;
        }
        true
    }

    /// The receivers' counts of messages received, added up.
    pub fn msg_rx_count(&self) -> (r: u64)
        requires
            received_total(self.receivers()) <= u64::MAX,
        ensures
            r == received_total(self.receivers()),
    {
        let mut total: u64 = 0;
        let mut i: usize = 0;
        while i < self.channel_receivers.len()
            invariant
                i <= self.receivers().len(),
                received_total(self.receivers()) <= u64::MAX,
                total == received_total(self.receivers().take(i as int)),
            decreases self.receivers().len() - i,
        {
            proof {
                lemma_received_total_grows(self.receivers(), i as int);
                assert(self.receivers().take(i + 1).drop_last() =~= self.receivers().take(i as int));
            }
            match &self.channel_receivers[i] {
                Some(receiver) => {
                    total = total + receiver.msg_rx_count();
                },
                None => {},
            }
            i = i + 1;
        }
        proof {
            assert(self.receivers().take(i as int) =~= self.receivers());
        }
        total
    }

    /// The receivers' counts of received messages dropped, added up: no receiver drops
    /// any.
    pub fn msg_rx_drop_count(&self) -> (r: u64)
        ensures
            r == 0,
    {
        let mut total: u64 = 0;
        let mut i: usize = 0;
        while i < self.channel_receivers.len()
            invariant
                total == 0,
            decreases self.receivers().len() - i,
        {
            match &self.channel_receivers[i] {
                Some(receiver) => {
                    total = total + receiver.msg_rx_drop_count();
                },
                None => {},
            }
            i = i + 1;
        }
        total
    }

    /// The receivers' counts of messages missed, added up: no receiver counts any.
    pub fn msg_rx_miss_count(&self) -> (r: u64)
        ensures
            r == 0,
    {
        let mut total: u64 = 0;
        let mut i: usize = 0;
        while i < self.channel_receivers.len()
            invariant
                total == 0,
            decreases self.receivers().len() - i,
        {
            match &self.channel_receivers[i] {
                Some(receiver) => {
                    total = total + receiver.msg_rx_miss_count();
                },
                None => {},
            }
            i = i + 1;
        }
        total
    }

    /// The senders' counts of messages sent, added up.
    pub fn msg_tx_count(&self) -> (r: u64)
        requires
            sent_total(self.senders()) <= u64::MAX,
        ensures
            r == sent_total(self.senders()),
    {
        let mut total: u64 = 0;
        let mut i: usize = 0;
        while i < self.channel_senders.len()
            invariant
                i <= self.senders().len(),
                sent_total(self.senders()) <= u64::MAX,
                total == sent_total(self.senders().take(i as int)),
            decreases self.senders().len() - i,
        {
            proof {
                lemma_totals_grow(self.senders(), i as int);
                assert(self.senders().take(i + 1).drop_last() =~= self.senders().take(i as int));
            }
            match &self.channel_senders[i] {
                Some(sender) => {
                    total = total + sender.msg_tx_count();
                },
                None => {},
            }
            i = i + 1;
        }
        proof {
            assert(self.senders().take(i as int) =~= self.senders());
        }
        total
    }

    /// The senders' counts of messages queued, added up.
    pub fn msg_tx_queue_count(&self) -> (r: u64)
        requires
            queued_total(self.senders()) <= u64::MAX,
        ensures
            r == queued_total(self.senders()),
    {
        let mut total: u64 = 0;
        let mut i: usize = 0;
        while i < self.channel_senders.len()
            invariant
                i <= self.senders().len(),
                queued_total(self.senders()) <= u64::MAX,
                total == queued_total(self.senders().take(i as int)),
            decreases self.senders().len() - i,
        {
            proof {
                lemma_totals_grow(self.senders(), i as int);
                assert(self.senders().take(i + 1).drop_last() =~= self.senders().take(i as int));
            }
            match &self.channel_senders[i] {
                Some(sender) => {
                    total = total + sender.msg_tx_queue_count();
                },
                None => {},
            }
            i = i + 1;
        }
        proof {
            assert(self.senders().take(i as int) =~= self.senders());
        }
        total
    }

    /// Queues `message` on channel `channel`: whole when its encoding is at most
    /// `FRAGMENTATION_LIMIT_BITS` long, else split into fragments under the next
    /// fragment identifier, queued in order. A long message may only go on a reliable
    /// channel.
    pub fn queue_message(&mut self, channel: u16, message: M)
        requires
            old(self).can_queue(channel, message),
        ensures
            message_queued(*old(self), *final(self), channel, message),
    {
        let idx = channel as usize;
        let ghost pre = old(self).senders()[channel as int]->0;
        let mut slot: Option<SenderSlot<M>> = None;
        std::mem::swap(&mut slot, &mut self.channel_senders[idx]);
        let bits = message.bit_length();
        if bits > FRAGMENTATION_LIMIT_BITS {
            let frags = self.message_fragmenter.fragment_message(&message);
            let ghost fs = frags@;
            proof {
                assert(fragments_of(fs, message.encoding(), old(self).next_fragment_id()));
            }
            match slot {
                Some(SenderSlot::Reliable(mut sender)) => {
                    send_fragments(&mut sender, frags);
                    slot = Some(SenderSlot::Reliable(sender));
                    proof {
                        assert(queued_on(pre, slot->0, as_fragments::<M>(fs)));
                    }
                },
                _ => {},
            }
        } else {
            match slot {
                Some(SenderSlot::UnorderedUnreliable(mut sender)) => {
                    let ghost s0 = sender;
                    sender.send(Payload::Whole(message));
                    proof {
                        assert(sender.queue() =~= s0.queue() + seq![Payload::Whole(message)]);
                    }
                    slot = Some(SenderSlot::UnorderedUnreliable(sender));
                },
                Some(SenderSlot::SequencedUnreliable(mut sender)) => {
                    let ghost s0 = sender;
                    sender.send(Payload::Whole(message));
                    proof {
                        let n0 = s0.next_index();
                        assert(n0 == SeqNum(wrap16(n0.0 + 0)));
                        assert(sender.queue() =~= s0.queue() + numbered(seq![Payload::Whole(message)], n0));
                    }
                    slot = Some(SenderSlot::SequencedUnreliable(sender));
                },
                Some(SenderSlot::Reliable(mut sender)) => {
                    let ghost s0 = sender;
                    sender.send(Payload::Whole(message));
                    proof {
                        let n0 = s0.next_index();
                        assert(n0 == SeqNum(wrap16(n0.0 + 0)));
                        assert(sender.sending() =~= s0.sending() + queued_entries(seq![Payload::Whole(message)], n0));
                    }
                    slot = Some(SenderSlot::Reliable(sender));
                },
                None => {},
            }
        }
        self.channel_senders.set(idx, slot);
    }
}

/// The senders' counts of messages sent, added up.
pub open spec fn sent_total<M: Message + Clone>(senders: Seq<Option<SenderSlot<M>>>) -> int
    decreases senders.len(),
{
    if senders.len() == 0 {
        0
    } else {
        sent_total(senders.drop_last()) + match senders.last() {
            Some(s) => s.sent_count() as int,
            None => 0,
        }
    }
}

/// The senders' counts of messages queued, added up.
pub open spec fn queued_total<M: Message + Clone>(senders: Seq<Option<SenderSlot<M>>>) -> int
    decreases senders.len(),
{
    if senders.len() == 0 {
        0
    } else {
        queued_total(senders.drop_last()) + match senders.last() {
            Some(s) => s.queued_count() as int,
            None => 0,
        }
    }
}

proof fn lemma_fresh_totals_zero<M: Message + Clone>(senders: Seq<Option<SenderSlot<M>>>)
    requires
        forall|i: int| 0 <= i < senders.len() ==> (#[trigger] senders[i] matches Some(s) ==> s.is_fresh()),
    ensures
        sent_total(senders) == 0,
        queued_total(senders) == 0,
    decreases senders.len(),
{
    if senders.len() > 0 {
        let init = senders.drop_last();
        assert forall|i: int| 0 <= i < init.len() implies (#[trigger] init[i] matches Some(s) ==> s.is_fresh()) by {
            assert(init[i] == senders[i]);
        }
        lemma_fresh_totals_zero(init);
        assert(senders.last() == senders[senders.len() - 1]);
    }
}

proof fn lemma_totals_grow<M: Message + Clone>(senders: Seq<Option<SenderSlot<M>>>, i: int)
    requires
        0 <= i < senders.len(),
    ensures
        sent_total(senders.take(i)) <= sent_total(senders.take(i + 1)) <= sent_total(senders),
        queued_total(senders.take(i)) <= queued_total(senders.take(i + 1)) <= queued_total(senders),
    decreases senders.len(),
{
    assert(senders.take(i + 1).drop_last() =~= senders.take(i));
    if i + 1 < senders.len() {
        lemma_totals_grow(senders.drop_last(), i);
        assert(senders.drop_last().take(i) =~= senders.take(i));
        assert(senders.drop_last().take(i + 1) =~= senders.take(i + 1));
    } else {
        assert(senders.take(i + 1) =~= senders);
    }
}

/// `post` is `pre` with `message` queued on `channel`: whole when its encoding is at
/// most `FRAGMENTATION_LIMIT_BITS` long, else as its fragments under the next fragment
/// identifier, in order; every other channel untouched.
pub open spec fn message_queued<M: Message + Clone>(pre: MessageManager<M>, post: MessageManager<M>, channel: u16, message: M) -> bool {
    &&& post.wf()
    &&& post.settings() == pre.settings()
    &&& post.receivers() == pre.receivers()
    &&& post.in_flight() == pre.in_flight()
    &&& post.senders().len() == pre.senders().len()
    &&& forall|i: int| 0 <= i < pre.senders().len() && i != channel ==> #[trigger] post.senders()[i]
        == pre.senders()[i]
    &&& post.senders()[channel as int] is Some
    &&& message.encoding().len() <= FRAGMENTATION_LIMIT_BITS ==> {
        &&& queued_on(pre.senders()[channel as int]->0, post.senders()[channel as int]->0, seq![Payload::Whole(message)])
        &&& post.next_fragment_id() == pre.next_fragment_id()
    }
    &&& message.encoding().len() > FRAGMENTATION_LIMIT_BITS ==> {
        &&& exists|frags: Seq<FragmentedMessage>| #[trigger] fragments_of(frags, message.encoding(), pre.next_fragment_id())
            && queued_on(pre.senders()[channel as int]->0, post.senders()[channel as int]->0, as_fragments(frags))
        &&& post.next_fragment_id().value() == (pre.next_fragment_id().value() + 1) % 256
    }
}

/// The bits that name channel `i` in a packet.
pub open spec fn channel_bits(i: int) -> Seq<bool> {
    (i as u16).encoding()
}

/// Records of what went into packet `packet`, one per channel.
pub open spec fn tagged(recs: Seq<(u16, Seq<SeqNum>)>, packet: SeqNum) -> Seq<(SeqNum, u16, Seq<SeqNum>)> {
    Seq::new(recs.len(), |i: int| (packet, recs[i].0, recs[i].1))
}

/// What writing the channels from `i` on does with `cap` bits of budget, one channel
/// after the other: the bits written, how many messages each channel from `i` on
/// writes, and, for each channel that numbers its messages, the numbers written. A
/// channel with messages ready gets a `true` bit, its id, as many messages as fit while
/// a closing bit stays kept, and the closing `false` bit. Writing stops at the first
/// channel with messages ready for which its two bits and its id do not fit.
pub open spec fn channel_plan<M: Message + Clone>(senders: Seq<Option<SenderSlot<M>>>, i: int, cap: int) -> (
    Seq<bool>,
    Seq<nat>,
    Seq<(u16, Seq<SeqNum>)>,
)
    decreases senders.len() - i,
{
    if i < 0 || i >= senders.len() {
        (Seq::empty(), Seq::empty(), Seq::empty())
    } else if senders[i] is Some && senders[i]->0.pending() {
        if cap < 18 {
            (Seq::empty(), Seq::new((senders.len() - i) as nat, |j: int| 0nat), Seq::empty())
        } else {
            let s = senders[i]->0;
            let k = s.fit_count(cap - 18);
            let body = seq![true] + channel_bits(i) + s.out_frames(k as int) + seq![false];
            let rest = channel_plan(senders, i + 1, cap - body.len());
            let recs = match s.out_indices(k as int) {
                Some(v) => seq![(i as u16, v)],
                None => Seq::empty(),
            };
            (body + rest.0, seq![k] + rest.1, recs + rest.2)
        }
    } else {
        let rest = channel_plan(senders, i + 1, cap);
        (rest.0, seq![0nat] + rest.1, rest.2)
    }
}

/// The first channel from `i` on with messages ready can write its first message when
/// its two bits and its id fit in `cap` bits.
pub open spec fn first_ready_fits<M: Message + Clone>(senders: Seq<Option<SenderSlot<M>>>, i: int, cap: int) -> bool
    decreases senders.len() - i,
{
    if i < 0 || i >= senders.len() {
        true
    } else if senders[i] is Some && senders[i]->0.pending() {
        cap >= 18 ==> senders[i]->0.first_fits(cap - 18)
    } else {
        first_ready_fits(senders, i + 1, cap)
    }
}

/// The plan from `i` on gives a count for each channel from `i` on.
proof fn lemma_plan_counts<M: Message + Clone>(senders: Seq<Option<SenderSlot<M>>>, i: int, cap: int)
    requires
        0 <= i <= senders.len(),
    ensures
        channel_plan(senders, i, cap).1.len() == senders.len() - i,
    decreases senders.len() - i,
{
    if i < senders.len() {
        if senders[i] is Some && senders[i]->0.pending() {
            if cap >= 18 {
                let s = senders[i]->0;
                let k = s.fit_count(cap - 18);
                let body = seq![true] + channel_bits(i) + s.out_frames(k as int) + seq![false];
                lemma_plan_counts(senders, i + 1, cap - body.len());
            }
        } else {
            lemma_plan_counts(senders, i + 1, cap);
        }
    }
}

/// What writing the channels plans takes at most the budget.
pub proof fn lemma_plan_fits<M: Message + Clone>(senders: Seq<Option<SenderSlot<M>>>, i: int, cap: int)
    requires
        0 <= i <= senders.len(),
        cap >= 0,
    ensures
        channel_plan(senders, i, cap).0.len() <= cap,
    decreases senders.len() - i,
{
    if i < senders.len() {
        if senders[i] is Some && senders[i]->0.pending() {
            if cap >= 18 {
                let s = senders[i]->0;
                let k = s.fit_count(cap - 18);
                s.lemma_fit_frames(cap - 18);
                lemma_le_bytes_len((i as u16) as nat, 2);
                let body = seq![true] + channel_bits(i) + s.out_frames(k as int) + seq![false];
                assert(body.len() == 18 + s.out_frames(k as int).len());
                lemma_plan_fits(senders, i + 1, cap - body.len());
            }
        } else {
            lemma_plan_fits(senders, i + 1, cap);
        }
    }
}

/// Writes what `slot` has ready, as many messages as fit in the writer's budget.
fn write_slot<M: Message + Clone>(slot: SenderSlot<M>, writer: &mut BitWriter, has_written: &mut bool) -> (r: (
    SenderSlot<M>,
    Option<Vec<SeqNum>>,
))
    requires
        old(writer).inv(),
        slot.out_frames(slot.fit_count(old(writer).capacity() as int) as int).len() <= old(writer).space(),
        slot.countable_out(),
        *old(has_written) || slot.first_fits(old(writer).capacity() as int),
    ensures
        ({
            let k = slot.fit_count(old(writer).capacity() as int);
            &&& final(writer).inv()
            &&& final(writer).written() == old(writer).written() + slot.out_frames(k as int)
            &&& final(writer).capacity() == old(writer).capacity() - slot.out_frames(k as int).len()
            &&& slot.wrote(r.0, k as int)
            &&& match r.1 {
                Some(v) => slot.out_indices(k as int) == Some(v@),
                None => slot.out_indices(k as int) is None,
            }
            &&& *final(has_written) == (*old(has_written) || k > 0)
        }),
{
    match slot {
        SenderSlot::UnorderedUnreliable(mut s) => {
            let r = s.write_messages(writer, has_written);
            (SenderSlot::UnorderedUnreliable(s), r)
        },
        SenderSlot::SequencedUnreliable(mut s) => {
            let r = s.write_messages(writer, has_written);
            (SenderSlot::SequencedUnreliable(s), r)
        },
        SenderSlot::Reliable(mut s) => {
            let r = s.write_messages(writer, has_written);
            (SenderSlot::Reliable(s), r)
        },
    }
}

/// The numbers recorded in `recs` for packet `packet` on channel `channel`, in the
/// order recorded.
pub open spec fn acks_for(recs: Seq<(SeqNum, u16, Seq<SeqNum>)>, packet: SeqNum, channel: int) -> Seq<SeqNum>
    decreases recs.len(),
{
    if recs.len() == 0 {
        Seq::empty()
    } else {
        let last = recs.last();
        acks_for(recs.drop_last(), packet, channel) + if last.0 == packet && last.1 == channel {
            last.2
        } else {
            Seq::empty()
        }
    }
}

/// `post` is `pre` with every message number recorded for `packet` acknowledged on its
/// channel's sender; the unreliable senders, which wait for no ack, are untouched.
pub open spec fn packet_acked<M: Message + Clone>(pre: MessageManager<M>, post: MessageManager<M>, packet: SeqNum) -> bool {
    &&& post.wf()
    &&& post.settings() == pre.settings()
    &&& post.receivers() == pre.receivers()
    &&& post.next_fragment_id() == pre.next_fragment_id()
    &&& post.in_flight() == pre.in_flight()
    &&& post.senders().len() == pre.senders().len()
    &&& forall|j: int| 0 <= j < pre.senders().len() ==> match #[trigger] pre.senders()[j] {
        Some(SenderSlot::Reliable(a)) => post.senders()[j] matches Some(SenderSlot::Reliable(b))
            && b.sending() == after_acks(a.sending(), acks_for(pre.in_flight(), packet, j))
            && b.outgoing() == a.outgoing() && b.next_index() == a.next_index()
            && b.tx_count() == a.tx_count() && b.tx_queue_count() == a.tx_queue_count(),
        other => post.senders()[j] == other,
    }
}

/// `post` is `pre` after writing into packet `packet` with `cap` bits of budget (see
/// `channel_plan`): each sender wrote its planned messages, and the numbers written are
/// recorded under `packet`.
pub open spec fn messages_written<M: Message + Clone>(pre: MessageManager<M>, post: MessageManager<M>, cap: int, packet: SeqNum) -> bool {
    let plan = channel_plan(pre.senders(), 0, cap);
    &&& post.wf()
    &&& post.settings() == pre.settings()
    &&& post.receivers() == pre.receivers()
    &&& post.next_fragment_id() == pre.next_fragment_id()
    &&& post.senders().len() == pre.senders().len()
    &&& forall|j: int| 0 <= j < pre.senders().len() ==> match #[trigger] pre.senders()[j] {
        Some(s) => post.senders()[j] matches Some(t) && s.wrote(t, plan.1[j] as int),
        None => post.senders()[j] is None,
    }
    &&& post.in_flight() == pre.in_flight() + tagged(plan.2, packet)
}

/// The numbers recorded in `recs` for each of `packets` in turn, on channel `channel`.
pub open spec fn acks_for_packets(recs: Seq<(SeqNum, u16, Seq<SeqNum>)>, packets: Seq<SeqNum>, channel: int) -> Seq<SeqNum>
    decreases packets.len(),
{
    if packets.len() == 0 {
        Seq::empty()
    } else {
        acks_for_packets(recs, packets.drop_last(), channel) + acks_for(recs, packets.last(), channel)
    }
}

/// `post` is `pre` with the messages of each of `packets` acknowledged in turn (see
/// `packet_acked`).
pub open spec fn packets_acked<M: Message + Clone>(pre: MessageManager<M>, post: MessageManager<M>, packets: Seq<SeqNum>) -> bool {
    &&& post.wf()
    &&& post.settings() == pre.settings()
    &&& post.receivers() == pre.receivers()
    &&& post.next_fragment_id() == pre.next_fragment_id()
    &&& post.in_flight() == pre.in_flight()
    &&& post.senders().len() == pre.senders().len()
    &&& forall|j: int| 0 <= j < pre.senders().len() ==> match #[trigger] pre.senders()[j] {
        Some(SenderSlot::Reliable(a)) => post.senders()[j] matches Some(SenderSlot::Reliable(b))
            && b.sending() == after_acks(a.sending(), acks_for_packets(pre.in_flight(), packets, j))
            && b.outgoing() == a.outgoing() && b.next_index() == a.next_index()
            && b.tx_count() == a.tx_count() && b.tx_queue_count() == a.tx_queue_count(),
        other => post.senders()[j] == other,
    }
}

/// The numbers of the first `k` ready messages of `slot`, on a channel that numbers
/// them; none on one that does not.
pub open spec fn written_indices<M: Message + Clone>(slot: Option<SenderSlot<M>>, k: int) -> Seq<SeqNum> {
    match slot {
        Some(s) => match s.out_indices(k) {
            Some(v) => v,
            None => Seq::empty(),
        },
        None => Seq::empty(),
    }
}

/// The numbers recorded in two runs of records are those of the first, then those of
/// the second.
proof fn lemma_acks_for_concat(first: Seq<(SeqNum, u16, Seq<SeqNum>)>, then: Seq<(SeqNum, u16, Seq<SeqNum>)>, packet: SeqNum, channel: int)
    ensures
        acks_for(first + then, packet, channel) == acks_for(first, packet, channel) + acks_for(then, packet, channel),
    decreases then.len(),
{
    if then.len() == 0 {
        assert(first + then =~= first);
        assert(acks_for(first, packet, channel) + acks_for(then, packet, channel) =~= acks_for(first, packet, channel));
    } else {
        lemma_acks_for_concat(first, then.drop_last(), packet, channel);
        assert((first + then).drop_last() =~= first + then.drop_last());
        assert((first + then).last() == then.last());
        let x = if then.last().0 == packet && then.last().1 == channel {
            then.last().2
        } else {
            Seq::<SeqNum>::empty()
        };
        assert(acks_for(first, packet, channel) + acks_for(then.drop_last(), packet, channel) + x =~= acks_for(
            first,
            packet,
            channel,
        ) + (acks_for(then.drop_last(), packet, channel) + x));
    }
}

/// The records that writing from channel `i` on makes under `packet` give each channel
/// from `i` on the numbers it wrote, and the channels before `i` nothing.
proof fn lemma_plan_acks<M: Message + Clone>(senders: Seq<Option<SenderSlot<M>>>, i: int, cap: int, packet: SeqNum, j: int)
    requires
        0 <= i <= senders.len(),
        senders.len() <= 0x1_0000,
        0 <= j < senders.len(),
    ensures
        acks_for(tagged(channel_plan(senders, i, cap).2, packet), packet, j) == if j >= i {
            written_indices(senders[j], channel_plan(senders, i, cap).1[j - i] as int)
        } else {
            Seq::<SeqNum>::empty()
        },
    decreases senders.len() - i,
{
    lemma_plan_counts(senders, i, cap);
    if i == senders.len() {
        assert(tagged(channel_plan(senders, i, cap).2, packet).len() == 0);
    } else if senders[i] is Some && senders[i]->0.pending() {
        let s = senders[i]->0;
        if cap < 18 {
            assert(tagged(channel_plan(senders, i, cap).2, packet).len() == 0);
            if j >= i {
                match s.out_indices(0) {
                    Some(v) => {},
                    None => {},
                }
                match senders[j] {
                    Some(t) => {
                        assert(t.out_indices(0) matches Some(v) ==> v =~= Seq::<SeqNum>::empty());
                    },
                    None => {},
                }
            }
        } else {
            let k = s.fit_count(cap - 18);
            let body = seq![true] + channel_bits(i) + s.out_frames(k as int) + seq![false];
            let rest = channel_plan(senders, i + 1, cap - body.len());
            let recs = match s.out_indices(k as int) {
                Some(v) => seq![(i as u16, v)],
                None => Seq::<(u16, Seq<SeqNum>)>::empty(),
            };
            lemma_plan_acks(senders, i + 1, cap - body.len(), packet, j);
            lemma_plan_counts(senders, i + 1, cap - body.len());
            assert(tagged(recs + rest.2, packet) =~= tagged(recs, packet) + tagged(rest.2, packet));
            lemma_acks_for_concat(tagged(recs, packet), tagged(rest.2, packet), packet, j);
            let own = acks_for(tagged(recs, packet), packet, j);
            match s.out_indices(k as int) {
                Some(v) => {
                    let t = tagged(recs, packet);
                    assert(t.len() == 1);
                    assert(t.drop_last() =~= Seq::<(SeqNum, u16, Seq<SeqNum>)>::empty());
                    assert(acks_for(t.drop_last(), packet, j) =~= Seq::<SeqNum>::empty());
                    assert(t.last() == (packet, i as u16, v));
                    assert((i as u16) as int == i);
                    assert(own =~= if i == j { v } else { Seq::<SeqNum>::empty() });
                },
                None => {
                    assert(own =~= Seq::<SeqNum>::empty());
                },
            }
            if j > i {
                assert(channel_plan(senders, i, cap).1[j - i] == rest.1[j - i - 1]);
                assert(own + written_indices(senders[j], rest.1[j - i - 1] as int) =~= written_indices(
                    senders[j],
                    rest.1[j - i - 1] as int,
                ));
            } else if j == i {
                assert(channel_plan(senders, i, cap).1[0] == k);
                assert(own + Seq::<SeqNum>::empty() =~= own);
            } else {
                assert(own + Seq::<SeqNum>::empty() =~= Seq::<SeqNum>::empty());
            }
        }
    } else {
        lemma_plan_acks(senders, i + 1, cap, packet, j);
        lemma_plan_counts(senders, i + 1, cap);
        if j > i {
            assert(channel_plan(senders, i, cap).1[j - i] == channel_plan(senders, i + 1, cap).1[j - i - 1]);
        } else if j == i {
            match senders[j] {
                Some(t) => {
                    assert(t.out_indices(0) matches Some(v) ==> v =~= Seq::<SeqNum>::empty());
                },
                None => {},
            }
        }
    }
}

/// Delivery acknowledges what was written: once a packet the messages were written into
/// is reported delivered, each reliable channel acknowledges exactly the messages it
/// wrote into it, after any recorded before under the same packet number.
pub proof fn law_delivery_acks_what_was_written<M: Message + Clone>(
    pre: MessageManager<M>,
    mid: MessageManager<M>,
    post: MessageManager<M>,
    cap: int,
    packet: SeqNum,
    j: int,
)
    requires
        pre.wf(),
        pre.senders().len() <= 0x1_0000,
        messages_written(pre, mid, cap, packet),
        packet_acked(mid, post, packet),
        0 <= j < pre.senders().len(),
        pre.senders()[j] matches Some(SenderSlot::Reliable(_)),
    ensures
        ({
            let plan = channel_plan(pre.senders(), 0, cap);
            let a = pre.senders()[j]->0->Reliable_0;
            &&& post.senders()[j] matches Some(SenderSlot::Reliable(b)) && b.sending() == after_acks(
                a.sending(),
                acks_for(pre.in_flight(), packet, j) + indices_of(a.outgoing().take(plan.1[j] as int)),
            )
        }),
{
    let plan = channel_plan(pre.senders(), 0, cap);
    lemma_plan_counts(pre.senders(), 0, cap);
    lemma_plan_acks(pre.senders(), 0, cap, packet, j);
    lemma_acks_for_concat(pre.in_flight(), tagged(plan.2, packet), packet, j);
    assert(pre.senders()[j] matches Some(s) && s.wrote(mid.senders()[j]->0, plan.1[j] as int));
    assert(mid.senders()[j] matches Some(SenderSlot::Reliable(_)));
}

/// `post` is `pre` after a collection at `now`: every reliable sender collected (see
/// `collected`), everything else untouched.
pub open spec fn messages_collected<M: Message + Clone>(pre: MessageManager<M>, post: MessageManager<M>, now: Instant) -> bool {
    &&& post.wf()
    &&& post.settings() == pre.settings()
    &&& post.receivers() == pre.receivers()
    &&& post.next_fragment_id() == pre.next_fragment_id()
    &&& post.in_flight() == pre.in_flight()
    &&& post.senders().len() == pre.senders().len()
    &&& forall|i: int| 0 <= i < pre.senders().len() ==> match #[trigger] pre.senders()[i] {
        Some(SenderSlot::Reliable(a)) => post.senders()[i] matches Some(SenderSlot::Reliable(b)) && collected(a, b, now),
        other => post.senders()[i] == other,
    }
}

/// Two ends set up over the same channels, one for `host` and one for the other end,
/// agree on every channel: one has a sender exactly where the other has a receiver, and
/// the two are of matching kinds.
pub proof fn law_ends_agree<M: Message + Clone>(
    a: MessageManager<M>,
    b: MessageManager<M>,
    host: HostType,
    settings: Seq<ChannelSettings>,
    i: int,
)
    requires
        a.set_up_for(host, settings),
        b.set_up_for(other_end(host), settings),
        0 <= i < settings.len(),
    ensures
        a.senders()[i] is Some <==> b.receivers()[i] is Some,
        a.senders()[i] matches Some(s) ==> kinds_match(s.kind(), b.receivers()[i]->0.kind()),
{
    law_senders_meet_receivers(a.settings()[i], host);
    assert(sender_kind_of(a.senders()[i]) == sender_spec(a.settings()[i], host));
    assert(receiver_kind_of(b.receivers()[i]) == receiver_spec(b.settings()[i], other_end(host)));
}

/// Queues the fragments `frags` on a reliable sender, in order.
fn send_fragments<M: Message + Clone>(sender: &mut ReliableSender<Payload<M>>, frags: Vec<FragmentedMessage>)
    requires
        old(sender).tx_queue_count() + frags.len() <= u64::MAX,
    ensures
        final(sender).sending() == old(sender).sending() + queued_entries(as_fragments(frags@), old(sender).next_index()),
        final(sender).next_index().0 == wrap16(old(sender).next_index().0 + frags.len()),
        final(sender).outgoing() == old(sender).outgoing(),
        final(sender).tx_count() == old(sender).tx_count(),
        final(sender).tx_queue_count() == old(sender).tx_queue_count() + frags.len(),
{
    let ghost all = frags@;
    let ghost n0 = old(sender).next_index();
    let ghost mut k: int = 0;
    let mut rest = frags;
    proof {
        assert(all.skip(0) =~= all);
        assert(old(sender).sending() + queued_entries(as_fragments::<M>(all.take(0)), n0) =~= old(sender).sending());
        vstd::arithmetic::div_mod::lemma_small_mod(n0.0 as nat, 65536);
    }
    while rest.len() > 0
        invariant
            0 <= k <= all.len(),
            rest@ == all.skip(k),
            old(sender).tx_queue_count() + all.len() <= u64::MAX,
            n0 == old(sender).next_index(),
            sender.sending() == old(sender).sending() + queued_entries(as_fragments::<M>(all.take(k)), n0),
            sender.next_index().0 == wrap16(n0.0 + k),
            sender.outgoing() == old(sender).outgoing(),
            sender.tx_count() == old(sender).tx_count(),
            sender.tx_queue_count() == old(sender).tx_queue_count() + k,
        decreases rest.len(),
    {
        let ghost before = sender.sending();
        let ghost next = sender.next_index();
        let f = rest.remove(0);
        sender.send(Payload::Fragment(f));
        proof {
            assert(f == all[k]);
            lemma_wrap16_add(n0.0 + k, 1);
            assert(next == SeqNum(wrap16(n0.0 + k)));
            assert(as_fragments::<M>(all.take(k + 1)) =~= as_fragments::<M>(all.take(k)).push(Payload::Fragment(f)));
            assert(queued_entries(as_fragments::<M>(all.take(k + 1)), n0) =~= queued_entries(as_fragments::<M>(all.take(k)), n0).push(
                Some((next, None::<Instant>, Payload::Fragment(f))),
            ));
            assert(sender.sending() =~= old(sender).sending() + queued_entries(as_fragments::<M>(all.take(k + 1)), n0));
            k = k + 1;
            assert(rest@ =~= all.skip(k));
        }
    }
    proof {
        assert(all.take(k) =~= all);
    }
}

/// A sequenced unreliable receiver's newest index and kept messages after `item`
/// arrives: it is kept only when newer than every message kept before.
pub open spec fn sequenced_step<P>(v: (Option<SeqNum>, Seq<P>), item: (SeqNum, P)) -> (Option<SeqNum>, Seq<P>) {
    if (match v.0 {
        Some(n) => seq_gt_spec(item.0.0, n.0),
        None => true,
    }) {
        (Some(item.0), v.1.push(item.1))
    } else {
        v
    }
}

/// `sequenced_step` as a value.
pub open spec fn sequenced_stepper<P>() -> spec_fn((Option<SeqNum>, Seq<P>), (SeqNum, P)) -> (Option<SeqNum>, Seq<P>) {
    |v: (Option<SeqNum>, Seq<P>), item: (SeqNum, P)| sequenced_step(v, item)
}

/// `post` is the receiver `pre` after taking the messages `plain`, on an unordered
/// unreliable channel, or the numbered messages `numbered`, on the others, one after
/// the other.
pub open spec fn slot_took<M>(
    pre: ReceiverSlot<M>,
    post: ReceiverSlot<M>,
    plain: Seq<Payload<M>>,
    numbered: Seq<(SeqNum, Payload<M>)>,
) -> bool {
    &&& post.ready()
    &&& match pre {
        ReceiverSlot::UnorderedUnreliable(a) => post matches ReceiverSlot::UnorderedUnreliable(b)
            && b.incoming() == a.incoming() + plain
            && b.rx_count() == (a.rx_count() + plain.len()) % 0x1_0000_0000_0000_0000,
        ReceiverSlot::SequencedUnreliable(a) => post matches ReceiverSlot::SequencedUnreliable(b)
            && (b.newest(), b.incoming()) == run_steps(sequenced_stepper(), (a.newest(), a.incoming()), numbered),
        ReceiverSlot::UnorderedReliable(a) => post matches ReceiverSlot::UnorderedReliable(b)
            && b.view() == run_steps(message_stepper(), a.view(), numbered),
        ReceiverSlot::SequencedReliable(a) => post matches ReceiverSlot::SequencedReliable(b)
            && b.view() == run_steps(message_stepper(), a.view(), numbered),
        ReceiverSlot::OrderedReliable(a) => post matches ReceiverSlot::OrderedReliable(b)
            && b.view() == run_steps(message_stepper(), a.view(), numbered),
    }
}

/// Taking two runs of messages is taking the first, then the second.
proof fn lemma_slot_took_concat<M>(
    pre: ReceiverSlot<M>,
    mid: ReceiverSlot<M>,
    post: ReceiverSlot<M>,
    p1: Seq<Payload<M>>,
    n1: Seq<(SeqNum, Payload<M>)>,
    p2: Seq<Payload<M>>,
    n2: Seq<(SeqNum, Payload<M>)>,
)
    requires
        slot_took(pre, mid, p1, n1),
        slot_took(mid, post, p2, n2),
    ensures
        slot_took(pre, post, p1 + p2, n1 + n2),
{
    match pre {
        ReceiverSlot::UnorderedUnreliable(a) => {
            let b = mid->UnorderedUnreliable_0;
            let c = post->UnorderedUnreliable_0;
            assert(c.incoming() =~= a.incoming() + (p1 + p2));
            vstd::arithmetic::div_mod::lemma_add_mod_noop(
                (a.rx_count() + p1.len()) as int,
                p2.len() as int,
                0x1_0000_0000_0000_0000,
            );
            vstd::arithmetic::div_mod::lemma_mod_twice((a.rx_count() + p1.len()) as int, 0x1_0000_0000_0000_0000);
            vstd::arithmetic::div_mod::lemma_add_mod_noop(
                (a.rx_count() + p1.len()) % 0x1_0000_0000_0000_0000,
                p2.len() as int,
                0x1_0000_0000_0000_0000,
            );
        },
        ReceiverSlot::SequencedUnreliable(a) => {
            lemma_run_steps_concat(sequenced_stepper(), (a.newest(), a.incoming()), n1, n2);
        },
        ReceiverSlot::UnorderedReliable(a) => {
            lemma_run_steps_concat(message_stepper(), a.view(), n1, n2);
        },
        ReceiverSlot::SequencedReliable(a) => {
            lemma_run_steps_concat(message_stepper(), a.view(), n1, n2);
        },
        ReceiverSlot::OrderedReliable(a) => {
            lemma_run_steps_concat(message_stepper(), a.view(), n1, n2);
        },
    }
}

/// Taking nothing leaves a receiver as it is.
proof fn lemma_slot_took_nothing<M>(slot: ReceiverSlot<M>)
    requires
        slot.ready(),
    ensures
        slot_took(slot, slot, Seq::empty(), Seq::empty()),
{
    match slot {
        ReceiverSlot::UnorderedUnreliable(a) => {
            assert(a.incoming() + Seq::<Payload<M>>::empty() =~= a.incoming());
        },
        _ => {},
    }
}

/// Hands the messages `msgs` to the receiver of an unordered unreliable channel.
fn deliver_plain<M>(slot: ReceiverSlot<M>, msgs: Vec<Payload<M>>) -> (r: ReceiverSlot<M>)
    requires
        slot is UnorderedUnreliable,
    ensures
        slot_took(slot, r, msgs@, Seq::empty()),
{
    match slot {
        ReceiverSlot::UnorderedUnreliable(mut receiver) => {
            let ghost a = receiver;
            let ghost all = msgs@;
            let mut rest = msgs;
            let ghost done: int = 0;
            proof {
                assert(a.incoming() + all.take(0) =~= a.incoming());
                vstd::arithmetic::div_mod::lemma_small_mod(a.rx_count() as nat, 0x1_0000_0000_0000_0000);
            }
            while rest.len() > 0
                invariant
                    0 <= done <= all.len(),
                    rest@ == all.skip(done),
                    receiver.incoming() == a.incoming() + all.take(done),
                    receiver.rx_count() == (a.rx_count() + done) % 0x1_0000_0000_0000_0000,
                decreases rest@.len(),
            {
                let m = rest.remove(0);
                proof {
                    assert(m == all[done]);
                }
                receiver.recv_message(m);
                proof {
                    assert(all.take(done + 1) =~= all.take(done).push(all[done]));
                    assert(receiver.incoming() =~= a.incoming() + all.take(done + 1));
                    vstd::arithmetic::div_mod::lemma_add_mod_noop(a.rx_count() + done, 1, 0x1_0000_0000_0000_0000);
                    vstd::arithmetic::div_mod::lemma_mod_twice(a.rx_count() + done, 0x1_0000_0000_0000_0000);
                    vstd::arithmetic::div_mod::lemma_small_mod(1, 0x1_0000_0000_0000_0000);
                    assert(all.skip(done).drop_first() =~= all.skip(done + 1));
                    done = done + 1;
                }
            }
            proof {
                assert(all.take(done) =~= all);
            }
            ReceiverSlot::UnorderedUnreliable(receiver)
        },
        other => other,
    }
}

/// Hands the numbered messages `msgs` to the receiver of a channel that numbers them.
fn deliver_numbered<M>(slot: ReceiverSlot<M>, msgs: Vec<(SeqNum, Payload<M>)>) -> (r: ReceiverSlot<M>)
    requires
        !(slot is UnorderedUnreliable),
        slot.ready(),
    ensures
        slot_took(slot, r, Seq::empty(), msgs@),
{
    let ghost all = msgs@;
    let ghost slot0 = slot;
    let mut rest = msgs;
    let ghost done: int = 0;
    let mut cur = slot;
    proof {
        assert(all.take(0) =~= Seq::<(SeqNum, Payload<M>)>::empty());
        lemma_slot_took_nothing(slot0);
    }
    while rest.len() > 0
        invariant
            0 <= done <= all.len(),
            rest@ == all.skip(done),
            slot_took(slot0, cur, Seq::empty(), all.take(done)),
            !(slot0 is UnorderedUnreliable),
        decreases rest@.len(),
    {
        let item = rest.remove(0);
        proof {
            assert(item == all[done]);
            assert(all.take(done + 1) =~= all.take(done).push(item));
            assert(all.skip(done).drop_first() =~= all.skip(done + 1));
        }
        let ghost before = cur;
        let ghost it = item;
        cur = match cur {
            ReceiverSlot::SequencedUnreliable(mut receiver) => {
                receiver.buffer_message(item.0, item.1);
                ReceiverSlot::SequencedUnreliable(receiver)
            },
            ReceiverSlot::UnorderedReliable(mut receiver) => {
                receiver.buffer_message(item.0, item.1);
                ReceiverSlot::UnorderedReliable(receiver)
            },
            ReceiverSlot::SequencedReliable(mut receiver) => {
                receiver.buffer_message(item.0, item.1);
                ReceiverSlot::SequencedReliable(receiver)
            },
            ReceiverSlot::OrderedReliable(mut receiver) => {
                receiver.buffer_message(item.0, item.1);
                ReceiverSlot::OrderedReliable(receiver)
            },
            other => other,
        };
        proof {
            match slot0 {
                ReceiverSlot::SequencedUnreliable(a) => {
                    lemma_run_steps_push(sequenced_stepper(), (a.newest(), a.incoming()), all.take(done), it);
                },
                ReceiverSlot::UnorderedReliable(a) => {
                    lemma_run_steps_push(message_stepper(), a.view(), all.take(done), it);
                },
                ReceiverSlot::SequencedReliable(a) => {
                    lemma_run_steps_push(message_stepper(), a.view(), all.take(done), it);
                },
                ReceiverSlot::OrderedReliable(a) => {
                    lemma_run_steps_push(message_stepper(), a.view(), all.take(done), it);
                },
                _ => {},
            }
            done = done + 1;
        }
    }
    proof {
        assert(all.take(done) =~= all);
    }
    cur
}

/// The sections of channel messages at the start of `bits`, for a receiving end whose
/// channels have receivers of kinds `kinds`, up to the closing `false` bit: each a
/// `true` bit, the channel's id, and its messages framed by continuation bits (see
/// `framed_run`), numbered on every channel but an unordered unreliable one. Gives, for
/// each section, the channel and where each of its messages lies, and the number of
/// bits the sections take; `None` when the bits hold no such list, or name a channel
/// without a receiver.
#[verifier::opaque]
pub open spec fn message_section<M: Message>(kinds: Seq<Option<ReceiverKind>>, bits: Seq<bool>) -> Option<(
    Seq<(u16, Seq<(Seq<bool>, nat)>)>,
    nat,
)>
    decreases bits.len(),
{
    if bits.len() == 0 {
        None
    } else if !bits[0] {
        Some((Seq::empty(), 1))
    } else {
        let after = bits.drop_first();
        match u16::decoding(after) {
            None => None,
            Some((id, n_id)) => {
                let body = after.skip(n_id as int);
                if id >= kinds.len() || kinds[id as int] is None {
                    None
                } else {
                    let run = if kinds[id as int] == Some(ReceiverKind::UnorderedUnreliable) {
                        framed_run::<Payload<M>>(body)
                    } else {
                        framed_run::<(SeqNum, Payload<M>)>(body)
                    };
                    match run {
                        None => None,
                        Some((items, k)) => if 1 + n_id + k > bits.len() {
                            None
                        } else {
                            match message_section::<M>(kinds, body.skip(k as int)) {
                                None => None,
                                Some((secs, m)) => Some((seq![(id, items)] + secs, 1 + n_id + k + m)),
                            }
                        },
                    }
                }
            },
        }
    }
}

/// Whether `msgs` are the messages the sections `secs` hold, section by section: plain
/// messages on an unordered unreliable channel, numbered ones on the others.
pub open spec fn sections_read<M: Message>(
    kinds: Seq<Option<ReceiverKind>>,
    secs: Seq<(u16, Seq<(Seq<bool>, nat)>)>,
    msgs: Seq<(u16, Seq<Payload<M>>, Seq<(SeqNum, Payload<M>)>)>,
) -> bool {
    &&& msgs.len() == secs.len()
    &&& forall|i: int| 0 <= i < secs.len() ==> {
        &&& (#[trigger] msgs[i]).0 == secs[i].0
        &&& if kinds[secs[i].0 as int] == Some(ReceiverKind::UnorderedUnreliable) {
            parsed_all(secs[i].1, msgs[i].1) && msgs[i].2.len() == 0
        } else {
            parsed_all(secs[i].1, msgs[i].2) && msgs[i].1.len() == 0
        }
    }
}

/// The plain messages of the sections for channel `j`, in order.
pub open spec fn plain_for<M>(msgs: Seq<(u16, Seq<Payload<M>>, Seq<(SeqNum, Payload<M>)>)>, j: int) -> Seq<Payload<M>>
    decreases msgs.len(),
{
    if msgs.len() == 0 {
        Seq::empty()
    } else {
        plain_for(msgs.drop_last(), j) + if msgs.last().0 == j {
            msgs.last().1
        } else {
            Seq::empty()
        }
    }
}

/// The numbered messages of the sections for channel `j`, in order.
pub open spec fn numbered_for<M>(msgs: Seq<(u16, Seq<Payload<M>>, Seq<(SeqNum, Payload<M>)>)>, j: int) -> Seq<(SeqNum, Payload<M>)>
    decreases msgs.len(),
{
    if msgs.len() == 0 {
        Seq::empty()
    } else {
        numbered_for(msgs.drop_last(), j) + if msgs.last().0 == j {
            msgs.last().2
        } else {
            Seq::empty()
        }
    }
}

/// `post` is `pre` after its receivers took the messages of the sections `secs`, each
/// channel's in the order they came; nothing else changed.
pub open spec fn messages_received<M: Message + Clone>(
    pre: MessageManager<M>,
    post: MessageManager<M>,
    secs: Seq<(u16, Seq<(Seq<bool>, nat)>)>,
) -> bool {
    &&& post.wf()
    &&& post.settings() == pre.settings()
    &&& post.senders() == pre.senders()
    &&& post.in_flight() == pre.in_flight()
    &&& post.next_fragment_id() == pre.next_fragment_id()
    &&& post.receivers().len() == pre.receivers().len()
    &&& exists|msgs: Seq<(u16, Seq<Payload<M>>, Seq<(SeqNum, Payload<M>)>)>| {
        &&& #[trigger] sections_read(pre.receiver_kinds(), secs, msgs)
        &&& forall|j: int| 0 <= j < pre.receivers().len() ==> match #[trigger] pre.receivers()[j] {
            Some(a) => post.receivers()[j] matches Some(b) && slot_took(a, b, plain_for(msgs, j), numbered_for(msgs, j)),
            None => post.receivers()[j] is None,
        }
    }
}

/// One more section read: its channel's bit, id and messages, then the rest.
proof fn lemma_section_step<M: Message>(
    kinds: Seq<Option<ReceiverKind>>,
    rem: Seq<bool>,
    id: u16,
    n_id: nat,
    items: Seq<(Seq<bool>, nat)>,
    k: nat,
)
    requires
        rem.len() > 0,
        rem[0],
        u16::decoding(rem.drop_first()) == Some((id, n_id)),
        id < kinds.len(),
        kinds[id as int] is Some,
        (if kinds[id as int] == Some(ReceiverKind::UnorderedUnreliable) {
            framed_run::<Payload<M>>(rem.drop_first().skip(n_id as int))
        } else {
            framed_run::<(SeqNum, Payload<M>)>(rem.drop_first().skip(n_id as int))
        }) == Some((items, k)),
        1 + n_id + k <= rem.len(),
    ensures
        message_section::<M>(kinds, rem) == match message_section::<M>(kinds, rem.drop_first().skip(n_id as int).skip(k as int)) {
            Some((secs, m)) => Some((seq![(id, items)] + secs, 1 + n_id + k + m)),
            None => None,
        },
{
    reveal(message_section);
}

/// The sections end at a closing `false` bit, and there are none in no bits.
proof fn lemma_section_stop<M: Message>(kinds: Seq<Option<ReceiverKind>>, rem: Seq<bool>)
    requires
        rem.len() == 0 || !rem[0],
    ensures
        message_section::<M>(kinds, rem) == if rem.len() == 0 {
            None
        } else {
            Some((Seq::<(u16, Seq<(Seq<bool>, nat)>)>::empty(), 1nat))
        },
{
    reveal(message_section);
}

/// A section fails when its id cannot be read or names a channel without a receiver,
/// or when its messages cannot be read.
proof fn lemma_section_fails<M: Message>(kinds: Seq<Option<ReceiverKind>>, rem: Seq<bool>)
    requires
        rem.len() > 0,
        rem[0],
        match u16::decoding(rem.drop_first()) {
            None => true,
            Some((id, n_id)) => id >= kinds.len() || kinds[id as int] is None || (if kinds[id as int]
                == Some(ReceiverKind::UnorderedUnreliable) {
                framed_run::<Payload<M>>(rem.drop_first().skip(n_id as int))
            } else {
                framed_run::<(SeqNum, Payload<M>)>(rem.drop_first().skip(n_id as int))
            }) is None,
        },
    ensures
        message_section::<M>(kinds, rem) is None,
{
    reveal(message_section);
}

/// Reading one more section keeps the messages read matching the sections.
proof fn lemma_sections_read_push<M: Message>(
    kinds: Seq<Option<ReceiverKind>>,
    secs: Seq<(u16, Seq<(Seq<bool>, nat)>)>,
    msgs: Seq<(u16, Seq<Payload<M>>, Seq<(SeqNum, Payload<M>)>)>,
    sec: (u16, Seq<(Seq<bool>, nat)>),
    msg: (u16, Seq<Payload<M>>, Seq<(SeqNum, Payload<M>)>),
)
    requires
        sections_read(kinds, secs, msgs),
        msg.0 == sec.0,
        if kinds[sec.0 as int] == Some(ReceiverKind::UnorderedUnreliable) {
            parsed_all(sec.1, msg.1) && msg.2.len() == 0
        } else {
            parsed_all(sec.1, msg.2) && msg.1.len() == 0
        },
    ensures
        sections_read(kinds, secs.push(sec), msgs.push(msg)),
{
    let secs1 = secs.push(sec);
    let msgs1 = msgs.push(msg);
    assert forall|i: int| 0 <= i < secs1.len() implies {
        &&& (#[trigger] msgs1[i]).0 == secs1[i].0
        &&& if kinds[secs1[i].0 as int] == Some(ReceiverKind::UnorderedUnreliable) {
            parsed_all(secs1[i].1, msgs1[i].1) && msgs1[i].2.len() == 0
        } else {
            parsed_all(secs1[i].1, msgs1[i].2) && msgs1[i].1.len() == 0
        }
    } by {
        if i < secs.len() {
            assert(msgs1[i] == msgs[i]);
            assert(secs1[i] == secs[i]);
        }
    }
}

/// After one channel's receiver took one more section, every receiver has taken what
/// the sections read so far give it.
proof fn lemma_took_push<M>(
    olds: Seq<Option<ReceiverSlot<M>>>,
    before: Seq<Option<ReceiverSlot<M>>>,
    after: Seq<Option<ReceiverSlot<M>>>,
    done: Seq<(u16, Seq<Payload<M>>, Seq<(SeqNum, Payload<M>)>)>,
    x: (u16, Seq<Payload<M>>, Seq<(SeqNum, Payload<M>)>),
    ch: int,
)
    requires
        olds.len() == before.len(),
        after == before.update(ch, after[ch]),
        0 <= ch < olds.len(),
        x.0 == ch,
        before[ch] is Some,
        after[ch] is Some,
        slot_took(before[ch]->0, after[ch]->0, x.1, x.2),
        forall|j: int| 0 <= j < olds.len() ==> match #[trigger] olds[j] {
            Some(a) => before[j] matches Some(b) && slot_took(a, b, plain_for(done, j), numbered_for(done, j)),
            None => before[j] is None,
        },
    ensures
        forall|j: int| 0 <= j < olds.len() ==> match #[trigger] olds[j] {
            Some(a) => after[j] matches Some(b) && slot_took(a, b, plain_for(done.push(x), j), numbered_for(done.push(x), j)),
            None => after[j] is None,
        },
{
    assert(done.push(x).drop_last() =~= done);
    assert forall|j: int| 0 <= j < olds.len() implies match #[trigger] olds[j] {
        Some(a) => after[j] matches Some(b) && slot_took(a, b, plain_for(done.push(x), j), numbered_for(done.push(x), j)),
        None => after[j] is None,
    } by {
        if j == ch {
            let a = olds[j]->0;
            lemma_slot_took_concat(a, before[j]->0, after[j]->0, plain_for(done, j), numbered_for(done, j), x.1, x.2);
        } else {
            assert(plain_for(done.push(x), j) =~= plain_for(done, j));
            assert(numbered_for(done.push(x), j) =~= numbered_for(done, j));
        }
    }
}

/// The kind of a receiver code: 0 for none, 1 for an unordered unreliable channel, 2 for
/// the others.
fn receiver_code<M>(slot: &Option<ReceiverSlot<M>>) -> (r: u8)
    ensures
        r == (match slot {
            None => 0u8,
            Some(ReceiverSlot::UnorderedUnreliable(_)) => 1u8,
            Some(_) => 2u8,
        }),
{
    match slot {
        None => 0,
        Some(ReceiverSlot::UnorderedUnreliable(_)) => 1,
        Some(_) => 2,
    }
}

impl<M: Message + Clone> MessageManager<M> {
    /// The kind of receiver of each channel, if it has one.
    pub open spec fn receiver_kinds(&self) -> Seq<Option<ReceiverKind>> {
        Seq::new(self.receivers().len(), |j: int| receiver_kind_of(self.receivers()[j]))
    }

    /// Reads the sections of channel messages that start at the reader (see
    /// `message_section`) and hands each channel's messages to its receiver. Fails when
    /// the bits hold no such list or name a channel this end has no receiver for; the
    /// receivers then keep what they took from the sections read before.
    #[verifier::spinoff_prover]
    #[verifier::rlimit(100)]
    pub fn read_messages(&mut self, reader: &mut BitReader) -> (r: Result<(), SerdeErr>)
        requires
            old(self).wf(),
            old(reader).wf(),
        ensures
            final(reader).wf(),
            final(reader).bits() == old(reader).bits(),
            final(self).wf(),
            final(self).settings() == old(self).settings(),
            final(self).senders() == old(self).senders(),
            final(self).in_flight() == old(self).in_flight(),
            final(self).next_fragment_id() == old(self).next_fragment_id(),
            final(self).receiver_kinds() == old(self).receiver_kinds(),
            match message_section::<M>(old(self).receiver_kinds(), old(reader).remaining()) {
                Some((secs, n)) => r is Ok && final(reader).position() == old(reader).position() + n
                    && messages_received(*old(self), *final(self), secs),
                None => r is Err,
            },
    {
        let ghost kinds = self.receiver_kinds();
        let ghost rem0 = reader.remaining();
        let ghost pos0 = reader.position();
        let ghost done_secs: Seq<(u16, Seq<(Seq<bool>, nat)>)> = Seq::empty();
        let ghost done_msgs: Seq<(u16, Seq<Payload<M>>, Seq<(SeqNum, Payload<M>)>)> = Seq::empty();
        proof {
            reader.lemma_wf();
            assert(rem0.skip(0) =~= rem0);
            match message_section::<M>(kinds, rem0) {
                Some((secs, k)) => assert(done_secs + secs =~= secs),
                None => {},
            }
            assert forall|j: int| 0 <= j < old(self).receivers().len() implies match #[trigger] old(self).receivers()[j] {
                Some(a) => self.receivers()[j] matches Some(b) && slot_took(a, b, plain_for(done_msgs, j), numbered_for(done_msgs, j)),
                None => self.receivers()[j] is None,
            } by {
                if let Some(a) = old(self).receivers()[j] {
                    lemma_slot_took_nothing(a);
                }
            }
        }
        loop
            invariant
                reader.wf(),
                reader.bits() == old(reader).bits(),
                rem0 == old(reader).remaining(),
                pos0 == old(reader).position(),
                pos0 <= reader.position() <= reader.bits().len(),
                reader.remaining() == rem0.skip(reader.position() - pos0),
                self.wf(),
                self.settings() == old(self).settings(),
                self.senders() == old(self).senders(),
                self.in_flight() == old(self).in_flight(),
                self.next_fragment_id() == old(self).next_fragment_id(),
                self.receivers().len() == old(self).receivers().len(),
                kinds == old(self).receiver_kinds(),
                self.receiver_kinds() == kinds,
                sections_read(kinds, done_secs, done_msgs),
                forall|j: int| 0 <= j < old(self).receivers().len() ==> match #[trigger] old(self).receivers()[j] {
                    Some(a) => self.receivers()[j] matches Some(b) && slot_took(a, b, plain_for(done_msgs, j), numbered_for(done_msgs, j)),
                    None => self.receivers()[j] is None,
                },
                message_section::<M>(kinds, rem0) == match message_section::<M>(kinds, reader.remaining()) {
                    Some((secs, k)) => Some((done_secs + secs, (reader.position() - pos0 + k) as nat)),
                    None => None,
                },
            decreases reader.remaining().len(),
        {
            let ghost rem = reader.remaining();
            let ghost pos = reader.position();
            proof {
                reader.lemma_wf();
            }
            let more = match reader.read_bit() {
                Ok(b) => b,
                Err(e) => {
                    proof {
                        lemma_section_stop::<M>(kinds, rem);
                    }
                    return Err(e);
                },
            };
            if !more {
                proof {
                    lemma_section_stop::<M>(kinds, rem);
                    assert(done_secs + Seq::<(u16, Seq<(Seq<bool>, nat)>)>::empty() =~= done_secs);
                    assert(sections_read(old(self).receiver_kinds(), done_secs, done_msgs));
                }
                return Ok(());
            }
            proof {
                reader.lemma_wf();
                assert(reader.remaining() =~= rem.drop_first());
            }
            let id = match u16::de(reader) {
                Ok(v) => v,
                Err(e) => {
                    proof {
                        lemma_section_fails::<M>(kinds, rem);
                    }
                    return Err(e);
                },
            };
            let ghost n_id = (reader.position() - pos - 1) as nat;
            let ghost body = reader.remaining();
            proof {
                reader.lemma_wf();
                assert(body =~= rem.drop_first().skip(n_id as int));
            }
            let ch = id as usize;
            if ch >= self.channel_receivers.len() {
                proof {
                    lemma_section_fails::<M>(kinds, rem);
                }
                return Err(SerdeErr);
            }
            let code = receiver_code(&self.channel_receivers[ch]);
            proof {
                assert(kinds[ch as int] == receiver_kind_of(self.receivers()[ch as int]));
            }
            if code == 0 {
                proof {
                    lemma_section_fails::<M>(kinds, rem);
                }
                return Err(SerdeErr);
            }
            let ghost x_items: Seq<(Seq<bool>, nat)>;
            let ghost x_msg: (u16, Seq<Payload<M>>, Seq<(SeqNum, Payload<M>)>);
            let ghost before = self.receivers();
            if code == 1 {
                let msgs = match read_framed::<Payload<M>>(reader) {
                    Ok(v) => v,
                    Err(e) => {
                        proof {
                            lemma_section_fails::<M>(kinds, rem);
                        }
                        return Err(e);
                    },
                };
                proof {
                    x_items = match framed_run::<Payload<M>>(body) {
                        Some((items, _)) => items,
                        None => Seq::empty(),
                    };
                    x_msg = (id, msgs@, Seq::empty());
                }
                let mut slot: Option<ReceiverSlot<M>> = None;
                std::mem::swap(&mut slot, &mut self.channel_receivers[ch]);
                let receiver = slot.unwrap();
                let ghost got = receiver;
                let taken = deliver_plain(receiver, msgs);
                let ghost tg = taken;
                self.channel_receivers.set(ch, Some(taken));
                proof {
                    assert(got == before[ch as int]->0);
                    assert(self.receivers() =~= before.update(ch as int, Some(tg)));
                }
            } else {
                let msgs = match read_framed::<(SeqNum, Payload<M>)>(reader) {
                    Ok(v) => v,
                    Err(e) => {
                        proof {
                            lemma_section_fails::<M>(kinds, rem);
                        }
                        return Err(e);
                    },
                };
                proof {
                    x_items = match framed_run::<(SeqNum, Payload<M>)>(body) {
                        Some((items, _)) => items,
                        None => Seq::empty(),
                    };
                    x_msg = (id, Seq::empty(), msgs@);
                }
                let mut slot: Option<ReceiverSlot<M>> = None;
                std::mem::swap(&mut slot, &mut self.channel_receivers[ch]);
                let receiver = slot.unwrap();
                let ghost got = receiver;
                let taken = deliver_numbered(receiver, msgs);
                let ghost tg = taken;
                self.channel_receivers.set(ch, Some(taken));
                proof {
                    assert(got == before[ch as int]->0);
                    assert(self.receivers() =~= before.update(ch as int, Some(tg)));
                }
            }
            proof {
                reader.lemma_wf();
                let k = (reader.position() - pos - 1 - n_id) as nat;
                assert(reader.remaining() =~= body.skip(k as int));
                assert(reader.remaining() =~= rem0.skip(reader.position() - pos0));
                lemma_section_step::<M>(kinds, rem, id, n_id, x_items, k);
                let secs1 = done_secs.push((id, x_items));
                let msgs1 = done_msgs.push(x_msg);
                match message_section::<M>(kinds, reader.remaining()) {
                    Some((secs, m)) => {
                        assert(done_secs + (seq![(id, x_items)] + secs) =~= secs1 + secs);
                    },
                    None => {},
                }
                lemma_sections_read_push(kinds, done_secs, done_msgs, (id, x_items), x_msg);
                lemma_took_push(old(self).receivers(), before, self.receivers(), done_msgs, x_msg, ch as int);
                assert(self.receiver_kinds() =~= kinds);
                done_secs = secs1;
                done_msgs = msgs1;
            }
        }
    }
}

/// The messages of numbered messages, in order.
pub open spec fn messages_of<P>(items: Seq<(SeqNum, P)>) -> Seq<P> {
    Seq::new(items.len(), |i: int| items[i].1)
}

/// What the receiver `slot` hands over, oldest first: what it kept, or, on a reliable
/// channel, what it passed on.
pub open spec fn handed_over<M>(slot: ReceiverSlot<M>) -> Seq<Payload<M>> {
    match slot {
        ReceiverSlot::UnorderedUnreliable(a) => a.incoming(),
        ReceiverSlot::SequencedUnreliable(a) => a.incoming(),
        ReceiverSlot::UnorderedReliable(a) => messages_of(a.view().2),
        ReceiverSlot::SequencedReliable(a) => messages_of(a.view().2),
        ReceiverSlot::OrderedReliable(a) => messages_of(a.view().2),
    }
}

/// `post` is the receiver `pre` once it handed over what it kept: it keeps nothing
/// more, and the rest of its state stands.
pub open spec fn emptied<M>(pre: ReceiverSlot<M>, post: ReceiverSlot<M>) -> bool {
    &&& post.ready()
    &&& match pre {
        ReceiverSlot::UnorderedUnreliable(a) => post matches ReceiverSlot::UnorderedUnreliable(b)
            && b.incoming().len() == 0 && b.rx_count() == a.rx_count(),
        ReceiverSlot::SequencedUnreliable(a) => post matches ReceiverSlot::SequencedUnreliable(b)
            && b.incoming().len() == 0 && b.newest() == a.newest(),
        ReceiverSlot::UnorderedReliable(a) => post matches ReceiverSlot::UnorderedReliable(b)
            && b.view() == (a.view().0, a.view().1, Seq::<(SeqNum, Payload<M>)>::empty(), a.view().3),
        ReceiverSlot::SequencedReliable(a) => post matches ReceiverSlot::SequencedReliable(b)
            && b.view() == (a.view().0, a.view().1, Seq::<(SeqNum, Payload<M>)>::empty(), a.view().3),
        ReceiverSlot::OrderedReliable(a) => post matches ReceiverSlot::OrderedReliable(b)
            && b.view() == (a.view().0, a.view().1, Seq::<(SeqNum, Payload<M>)>::empty(), a.view().3),
    }
}

/// What the first `n` receivers hand over, one channel after the other.
pub open spec fn all_handed<M>(receivers: Seq<Option<ReceiverSlot<M>>>, n: int) -> Seq<Payload<M>>
    decreases n,
{
    if n <= 0 {
        Seq::empty()
    } else {
        all_handed(receivers, n - 1) + match receivers[n - 1] {
            Some(a) => handed_over(a),
            None => Seq::empty(),
        }
    }
}

/// Appends the messages of `items` to `out`, in order.
fn push_messages<P>(out: &mut Vec<P>, items: Vec<(SeqNum, P)>)
    ensures
        final(out)@ == old(out)@ + messages_of(items@),
{
    let ghost all = items@;
    let mut rest = items;
    let ghost done: int = 0;
    proof {
        assert(messages_of(all.take(0)) =~= Seq::<P>::empty());
        assert(out@ =~= old(out)@ + messages_of(all.take(0)));
    }
    while rest.len() > 0
        invariant
            0 <= done <= all.len(),
            rest@ == all.skip(done),
            out@ == old(out)@ + messages_of(all.take(done)),
        decreases rest@.len(),
    {
        let item = rest.remove(0);
        proof {
            assert(item == all[done]);
            assert(all.skip(done).drop_first() =~= all.skip(done + 1));
        }
        out.push(item.1);
        proof {
            assert(messages_of(all.take(done + 1)) =~= messages_of(all.take(done)).push(all[done].1));
            assert(out@ =~= old(out)@ + messages_of(all.take(done + 1)));
            done = done + 1;
        }
    }
    proof {
        assert(all.take(done) =~= all);
    }
}

/// Hands over what the receiver `slot` kept, appending it to `out`.
fn hand_over<M>(slot: ReceiverSlot<M>, out: &mut Vec<Payload<M>>) -> (r: ReceiverSlot<M>)
    requires
        slot.ready(),
    ensures
        final(out)@ == old(out)@ + handed_over(slot),
        emptied(slot, r),
{
    match slot {
        ReceiverSlot::UnorderedUnreliable(mut a) => {
            let mut got = a.receive_messages();
            out.append(&mut got);
            ReceiverSlot::UnorderedUnreliable(a)
        },
        ReceiverSlot::SequencedUnreliable(mut a) => {
            let mut got = a.receive_messages();
            out.append(&mut got);
            ReceiverSlot::SequencedUnreliable(a)
        },
        ReceiverSlot::UnorderedReliable(mut a) => {
            let got = a.receive_messages();
            push_messages(out, got);
            ReceiverSlot::UnorderedReliable(a)
        },
        ReceiverSlot::OrderedReliable(mut a) => {
            let got = a.receive_messages();
            push_messages(out, got);
            ReceiverSlot::OrderedReliable(a)
        },
        ReceiverSlot::SequencedReliable(mut a) => {
            let got = a.receive_messages();
            push_messages(out, got);
            ReceiverSlot::SequencedReliable(a)
        },
    }
}

impl<M: Message + Clone> MessageManager<M> {
    /// Hands over every message the receivers kept, channel by channel in id order, and
    /// empties them (see `handed_over`).
    pub fn receive_messages(&mut self) -> (r: Vec<Payload<M>>)
        requires
            old(self).wf(),
        ensures
            r@ == all_handed(old(self).receivers(), old(self).receivers().len() as int),
            final(self).wf(),
            final(self).settings() == old(self).settings(),
            final(self).senders() == old(self).senders(),
            final(self).in_flight() == old(self).in_flight(),
            final(self).next_fragment_id() == old(self).next_fragment_id(),
            final(self).receivers().len() == old(self).receivers().len(),
            forall|j: int| 0 <= j < old(self).receivers().len() ==> match #[trigger] old(self).receivers()[j] {
                Some(a) => final(self).receivers()[j] matches Some(b) && emptied(a, b),
                None => final(self).receivers()[j] is None,
            },
    {
        let mut out: Vec<Payload<M>> = Vec::new();
        let ghost olds = self.receivers();
        let mut i: usize = 0;
        while i < self.channel_receivers.len()
            invariant
                i <= olds.len(),
                olds == old(self).receivers(),
                old(self).wf(),
                self.receivers().len() == olds.len(),
                self.settings() == old(self).settings(),
                self.senders() == old(self).senders(),
                self.in_flight() == old(self).in_flight(),
                self.next_fragment_id() == old(self).next_fragment_id(),
                out@ == all_handed(olds, i as int),
                forall|j: int| 0 <= j < i ==> match #[trigger] olds[j] {
                    Some(a) => self.receivers()[j] matches Some(b) && emptied(a, b),
                    None => self.receivers()[j] is None,
                },
                forall|j: int| i <= j < olds.len() ==> #[trigger] self.receivers()[j] == olds[j],
            decreases olds.len() - i,
        {
            let mut slot: Option<ReceiverSlot<M>> = None;
            std::mem::swap(&mut slot, &mut self.channel_receivers[i]);
            let ghost mid = self.receivers();
            match slot {
                Some(receiver) => {
                    proof {
                        assert(olds[i as int] == Some(receiver));
                    }
                    let left = hand_over(receiver, &mut out);
                    self.channel_receivers.set(i, Some(left));
                },
                None => {
                    self.channel_receivers.set(i, None);
                },
            }
            proof {
                assert(out@ =~= all_handed(olds, i + 1));
            }
            i = i + 1;
        }
        proof {
            assert forall|j: int| 0 <= j < self.receivers().len() implies (#[trigger] self.receivers()[j] matches Some(r)
                ==> r.ready()) by {
                match olds[j] {
                    Some(a) => {
                        assert(emptied(a, self.receivers()[j]->0));
                    },
                    None => {},
                }
            }
        }
        out
    }
}

impl<M: Message + Clone> SenderSlot<M> {
    /// Whether `items` hold exactly the first `k` messages this sender has ready.
    pub open spec fn reads_back(&self, items: Seq<(Seq<bool>, nat)>, k: int) -> bool {
        match self {
            SenderSlot::UnorderedUnreliable(s) => parsed_all(items, s.queue().take(k)),
            SenderSlot::SequencedUnreliable(s) => parsed_all(items, s.queue().take(k)),
            SenderSlot::Reliable(s) => parsed_all(items, s.outgoing().take(k)),
        }
    }
}

/// Whether `secs` are, in order, the sections that writing the channels from `i` on
/// with `cap` bits makes (see `channel_plan`): one for each channel written, naming it
/// and holding the messages it wrote.
pub open spec fn plan_read<M: Message + Clone>(
    senders: Seq<Option<SenderSlot<M>>>,
    i: int,
    cap: int,
    secs: Seq<(u16, Seq<(Seq<bool>, nat)>)>,
) -> bool
    decreases senders.len() - i,
{
    if i < 0 || i >= senders.len() {
        secs.len() == 0
    } else if senders[i] is Some && senders[i]->0.pending() {
        if cap < 18 {
            secs.len() == 0
        } else {
            let s = senders[i]->0;
            let k = s.fit_count(cap - 18);
            let body = seq![true] + channel_bits(i) + s.out_frames(k as int) + seq![false];
            &&& secs.len() >= 1
            &&& secs[0].0 == i
            &&& s.reads_back(secs[0].1, k as int)
            &&& plan_read(senders, i + 1, cap - body.len(), secs.drop_first())
        }
    } else {
        plan_read(senders, i + 1, cap, secs)
    }
}

/// A sender's messages that fit in `cap` bits, framed and closed, read back as a run of
/// the kind the matching receiver reads.
proof fn lemma_slot_frames_read<M: Message + Clone>(s: SenderSlot<M>, plain: bool, cap: int, x: Seq<bool>)
    requires
        s.countable_out(),
        plain == (s is UnorderedUnreliable),
        cap >= 0,
    ensures
        ({
            let k = s.fit_count(cap);
            let bits = s.out_frames(k as int) + seq![false] + x;
            let run = if plain {
                framed_run::<Payload<M>>(bits)
            } else {
                framed_run::<(SeqNum, Payload<M>)>(bits)
            };
            run matches Some((items, kk)) && kk == s.out_frames(k as int).len() + 1 && s.reads_back(items, k as int)
        }),
{
    let k = s.fit_count(cap);
    match s {
        SenderSlot::UnorderedUnreliable(a) => {
            lemma_fitting_fits(a.queue(), cap);
            crate::senders::law_framed_run_reads_frames(a.queue(), k as int, x);
        },
        SenderSlot::SequencedUnreliable(a) => {
            lemma_fitting_fits(a.queue(), cap);
            crate::senders::law_framed_run_reads_frames(a.queue(), k as int, x);
        },
        SenderSlot::Reliable(a) => {
            lemma_fitting_fits(a.outgoing(), cap);
            crate::senders::law_framed_run_reads_frames(a.outgoing(), k as int, x);
        },
    }
}

/// What one end writes, the other end reads: the channel messages planned for a packet
/// (see `channel_plan`), with the closing bit, read by an end whose receivers match the
/// writer's senders (an unordered unreliable receiver where there is an unordered
/// unreliable sender, a numbering one where there is a numbering one), give back each
/// written channel's messages in order, and take exactly the bits written.
#[verifier::spinoff_prover]
#[verifier::rlimit(40)]
pub proof fn law_section_reads_plan<M: Message + Clone>(
    senders: Seq<Option<SenderSlot<M>>>,
    kinds: Seq<Option<ReceiverKind>>,
    i: int,
    cap: int,
    rest: Seq<bool>,
)
    requires
        0 <= i <= senders.len(),
        senders.len() <= 0x1_0000,
        kinds.len() == senders.len(),
        forall|j: int| 0 <= j < senders.len() ==> (#[trigger] senders[j] matches Some(s) ==> kinds[j] is Some
            && (kinds[j] == Some(ReceiverKind::UnorderedUnreliable)) == (s is UnorderedUnreliable)),
        forall|j: int| 0 <= j < senders.len() ==> (#[trigger] senders[j] matches Some(s) ==> s.countable_out()),
        cap >= 0,
    ensures
        message_section::<M>(kinds, channel_plan(senders, i, cap).0 + seq![false] + rest) matches Some((secs, n))
            && n == channel_plan(senders, i, cap).0.len() + 1 && plan_read(senders, i, cap, secs),
    decreases senders.len() - i,
{
    let plan = channel_plan(senders, i, cap);
    let bits = plan.0 + seq![false] + rest;
    if i == senders.len() || (senders[i] is Some && senders[i]->0.pending() && cap < 18) {
        assert(bits[0] == false);
        lemma_section_stop::<M>(kinds, bits);
    } else if !(senders[i] is Some && senders[i]->0.pending()) {
        law_section_reads_plan(senders, kinds, i + 1, cap, rest);
    } else {
        let s = senders[i]->0;
        let k = s.fit_count(cap - 18);
        let id = i as u16;
        lemma_le_bytes_len(id as nat, 2);
        assert(channel_bits(i) == id.encoding());
        let frames_out = s.out_frames(k as int);
        let body = seq![true] + channel_bits(i) + frames_out + seq![false];
        let next = channel_plan(senders, i + 1, cap - body.len());
        s.lemma_fit_frames(cap - 18);
        lemma_le_bytes_len(id as nat, 2);
        law_section_reads_plan(senders, kinds, i + 1, cap - body.len(), rest);
        let x = next.0 + seq![false] + rest;
        assert(bits =~= seq![true] + (id.encoding() + (frames_out + seq![false] + x)));
        assert(bits.drop_first() =~= id.encoding() + (frames_out + seq![false] + x));
        id.lemma_decode_encoding(frames_out + seq![false] + x);
        assert(bits.drop_first().skip(16) =~= frames_out + seq![false] + x);
        lemma_slot_frames_read(s, kinds[i] == Some(ReceiverKind::UnorderedUnreliable), cap - 18, x);
        let (items, kk) = (if kinds[i] == Some(ReceiverKind::UnorderedUnreliable) {
            framed_run::<Payload<M>>(frames_out + seq![false] + x)
        } else {
            framed_run::<(SeqNum, Payload<M>)>(frames_out + seq![false] + x)
        })->Some_0;
        assert((frames_out + seq![false] + x).skip(kk as int) =~= x);
        assert(bits.drop_first().skip(16).skip(kk as int) =~= x);
        lemma_section_step::<M>(kinds, bits, id, 16, items, kk);
        let (secs1, n1) = message_section::<M>(kinds, x)->Some_0;
        let secs = seq![(id, items)] + secs1;
        assert(secs.drop_first() =~= secs1);
        assert(plan.0 =~= body + next.0);
    }
}

} // verus!
