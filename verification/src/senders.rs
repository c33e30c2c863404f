//! Sending sides of the channels.
use vstd::prelude::*;
use std::collections::VecDeque;
use std::time::{Duration, Instant};
use crate::bit_counter::BitCounter;
use crate::bit_write::BitWrite;
use crate::bit_writer::BitWriter;
use crate::clock::{duration_as_nanos, instant_elapsed};
use crate::index_buffer::deque_get_mut;
use crate::message::{Message, framed_run, parsed_all};
use crate::seq_num::{SeqNum, wrap16};

verus! {

/// A message as written into a packet: a continuation bit, then the message.
pub open spec fn framed<M: Message>(m: M) -> Seq<bool> {
    seq![true] + m.encoding()
}

/// The first `k` messages of `msgs`, framed, one after the other.
pub open spec fn frames<M: Message>(msgs: Seq<M>, k: int) -> Seq<bool>
    decreases k,
{
    if k <= 0 {
        Seq::empty()
    } else {
        frames(msgs, k - 1) + framed(msgs[k - 1])
    }
}

/// How many messages from the front of `msgs` fit, one after the other, in a budget of
/// `cap` bits.
pub open spec fn fitting<M: Message>(msgs: Seq<M>, cap: int) -> nat
    decreases msgs.len(),
{
    if msgs.len() == 0 || 1 + msgs[0].encoding().len() > cap {
        0
    } else {
        1 + fitting(msgs.drop_first(), cap - 1 - msgs[0].encoding().len())
    }
}

/// Every message's encoding fits in a `u32` count of bits.
pub open spec fn countable<M: Message>(msgs: Seq<M>) -> bool {
    forall|i: int| 0 <= i < msgs.len() ==> (#[trigger] msgs[i]).encoding().len() < u32::MAX
}

/// Whether every message in `queue` counts its bits in a `u32`.
fn deque_countable<T: Message>(queue: &VecDeque<T>) -> (r: bool)
    ensures
        r == countable(queue@),
{
    let mut i: usize = 0;
    while i < queue.len()
        invariant
            i <= queue@.len(),
            forall|k: int| 0 <= k < i ==> (#[trigger] queue@[k]).encoding().len() < u32::MAX,
        decreases queue@.len() - i,
    {
        if !queue[i].encoding_shorter_than(0xffff_ffffu64) {
            return false;
        }
        i = i + 1;
    }
    true
}

/// Whether the first message of `queue`, after its continuation bit, fits in `cap` bits,
/// or `queue` is empty.
fn deque_first_fits<T: Message>(queue: &VecDeque<T>, cap: u32) -> (r: bool)
    ensures
        r == (queue@.len() == 0 || 1 + queue@[0].encoding().len() <= cap),
{
    if queue.len() == 0 {
        true
    } else {
        queue[0].encoding_shorter_than(cap as u64)
    }
}

/// Framing one more message lengthens the frames.
pub proof fn lemma_frames_grow<M: Message>(msgs: Seq<M>, a: int, b: int)
    requires
        0 <= a <= b,
    ensures
        frames(msgs, a).len() <= frames(msgs, b).len(),
    decreases b - a,
{
    if a < b {
        lemma_frames_grow(msgs, a, b - 1);
    }
}

/// The frames of the first `k` messages are the first message's frame, then the frames
/// of the next `k - 1`.
pub proof fn lemma_frames_first<M: Message>(msgs: Seq<M>, k: int)
    requires
        1 <= k <= msgs.len(),
    ensures
        frames(msgs, k) == framed(msgs[0]) + frames(msgs.drop_first(), k - 1),
    decreases k,
{
    if k == 1 {
        assert(frames(msgs, 0) =~= Seq::<bool>::empty());
        assert(frames(msgs.drop_first(), 0) =~= Seq::<bool>::empty());
        assert(frames(msgs, 1) =~= framed(msgs[0]) + frames(msgs.drop_first(), 0));
    } else {
        lemma_frames_first(msgs, k - 1);
        assert(msgs.drop_first()[k - 2] == msgs[k - 1]);
        assert(frames(msgs, k) =~= framed(msgs[0]) + frames(msgs.drop_first(), k - 1));
    }
}

/// The messages that fit in `cap` bits are at most all of them, and their frames take
/// at most `cap` bits.
pub proof fn lemma_fitting_fits<M: Message>(msgs: Seq<M>, cap: int)
    requires
        cap >= 0,
    ensures
        fitting(msgs, cap) <= msgs.len(),
        frames(msgs, fitting(msgs, cap) as int).len() <= cap,
    decreases msgs.len(),
{
    if msgs.len() == 0 || 1 + msgs[0].encoding().len() > cap {
        assert(frames(msgs, 0) =~= Seq::<bool>::empty());
    } else {
        let c2 = cap - 1 - msgs[0].encoding().len();
        lemma_fitting_fits(msgs.drop_first(), c2);
        lemma_frames_first(msgs, fitting(msgs, cap) as int);
    }
}

/// Writes as many messages from the front of `queue` as fit in the writer's budget, each
/// after a `true` continuation bit, removes them, and returns them. Sets `has_written`
/// when a message was written. A first message that cannot fit into a packet with
/// nothing written yet is not accepted.
pub fn write_queue<T: Message>(queue: &mut VecDeque<T>, writer: &mut BitWriter, has_written: &mut bool) -> (r: Vec<T>)
    requires
        old(writer).inv(),
        frames(old(queue)@, fitting(old(queue)@, old(writer).capacity() as int) as int).len() <= old(writer).space(),
        countable(old(queue)@),
        *old(has_written) || old(queue)@.len() == 0 || 1 + old(queue)@[0].encoding().len()
            <= old(writer).capacity(),
    ensures
        ({
            let k = fitting(old(queue)@, old(writer).capacity() as int);
            &&& final(writer).inv()
            &&& final(writer).written() == old(writer).written() + frames(old(queue)@, k as int)
            &&& final(writer).capacity() == old(writer).capacity() - frames(old(queue)@, k as int).len()
            &&& final(queue)@ == old(queue)@.skip(k as int)
            &&& r@ == old(queue)@.take(k as int)
            &&& *final(has_written) == (*old(has_written) || k > 0)
        }),
{
    let ghost q0 = queue@;
    let ghost cap0 = writer.capacity() as int;
    let ghost w0 = writer.written();
    let ghost space0 = writer.space() as int;
    let ghost total = frames(q0, fitting(q0, cap0) as int).len() as int;
    let ghost done: int = 0;
    proof {
        writer.lemma_room();
        lemma_fitting_fits(q0, cap0);
    }
    let mut out: Vec<T> = Vec::new();
    proof {
        assert(q0.skip(0) =~= q0);
        assert(q0.take(0) =~= Seq::<T>::empty());
    }
    loop
        invariant
            0 <= done <= q0.len(),
            queue@ == q0.skip(done),
            out@ == q0.take(done),
            countable(q0),
            writer.inv(),
            writer.space() + frames(q0, done).len() == space0,
            total == frames(q0, fitting(q0, cap0) as int).len(),
            total <= space0,
            fitting(q0, cap0) <= q0.len(),
            writer.written() == w0 + frames(q0, done),
            writer.capacity() == cap0 - frames(q0, done).len(),
            done + fitting(q0.skip(done), writer.capacity() as int) == fitting(q0, cap0),
            *has_written == (*old(has_written) || done > 0),
            *has_written || q0.len() == 0 || 1 + q0[0].encoding().len() <= cap0,
            cap0 == old(writer).capacity(),
            w0 == old(writer).written(),
            q0 == old(queue)@,
        ensures
            writer.inv(),
            writer.written() == w0 + frames(q0, fitting(q0, cap0) as int),
            writer.capacity() == cap0 - frames(q0, fitting(q0, cap0) as int).len(),
            queue@ == q0.skip(fitting(q0, cap0) as int),
            out@ == q0.take(fitting(q0, cap0) as int),
            *has_written == (*old(has_written) || fitting(q0, cap0) > 0),
        decreases q0.len() - done,
    {
        if queue.len() == 0 {
            break;
        }
        let ghost rest = q0.skip(done);
        let message = &queue[0];
        assert(*message == q0[done]);
        let mut counter = writer.counter();
        proof {
            counter.lemma_capacity_is_limit();
        }
        counter.write_bit(true);
        message.write(&mut counter);
        proof {
            counter.lemma_capacity_is_limit();
        }
        assert(counter.written().len() == 1 + message.encoding().len());
        assert(rest[0] == q0[done]);
        if counter.overflowed() {
            assert(1 + rest[0].encoding().len() > writer.capacity());
            assert(rest.len() > 0);
            assert(fitting(rest, writer.capacity() as int) == 0);
            if !*has_written {
                assert(done == 0);
                assert(false);
            }
            break;
        }
        *has_written = true;
        proof {
            writer.lemma_room();
            assert(fitting(rest, writer.capacity() as int) >= 1);
            lemma_frames_grow(q0, done + 1, fitting(q0, cap0) as int);
            assert(frames(q0, done + 1).len() == frames(q0, done).len() + 1 + q0[done].encoding().len());
        }
        writer.write_bit(true);
        message.write(writer);
        proof {
            writer.lemma_room();
        }
        match queue.pop_front() {
            Some(m) => {
                out.push(m);
            },
            None => {},
        }
        proof {
            assert(rest.drop_first() =~= q0.skip(done + 1));
            assert(frames(q0, done + 1) == frames(q0, done) + framed(q0[done]));
            assert(writer.written() =~= w0 + frames(q0, done + 1));
            assert(out@ =~= q0.take(done + 1));
            done = done + 1;
        }
    }
    out
}

/// Sends on an unordered unreliable channel: messages go out once, in the order queued,
/// as many as fit in each packet.
pub struct UnorderedUnreliableSender<M> {
    outgoing_messages: VecDeque<M>,
    msg_tx_count: u64,
}

impl<M: Message> UnorderedUnreliableSender<M> {
    /// The messages queued and not yet written.
    pub closed spec fn queue(&self) -> Seq<M> {
        self.outgoing_messages@
    }

    /// The number of messages queued so far, wrapping.
    pub closed spec fn tx_count(&self) -> u64 {
        self.msg_tx_count
    }

    /// Creates a sender with nothing queued.
    pub fn new() -> (r: Self)
        ensures
            r.queue() == Seq::<M>::empty(),
            r.tx_count() == 0,
    {
        Self { outgoing_messages: VecDeque::new(), msg_tx_count: 0 }
    }

    /// Queues a message.
    pub fn send(&mut self, message: M)
        ensures
            final(self).queue() == old(self).queue().push(message),
            final(self).tx_count() == (old(self).tx_count() + 1) % 0x1_0000_0000_0000_0000,
    {
        self.msg_tx_count = self.msg_tx_count.wrapping_add(1);
        self.outgoing_messages.push_back(message);
    }

    /// Whether messages are queued.
    pub fn has_messages(&self) -> (r: bool)
        ensures
            r == (self.queue().len() > 0),
    {
        self.outgoing_messages.len() != 0
    }

    /// Whether every queued message counts its bits in a `u32`.
    pub fn queue_countable(&self) -> (r: bool)
        ensures
            r == countable(self.queue()),
    {
        deque_countable(&self.outgoing_messages)
    }

    /// Whether the first queued message, after its continuation bit, fits in `cap` bits,
    /// or none is queued.
    pub fn first_fits(&self, cap: u32) -> (r: bool)
        ensures
            r == (self.queue().len() == 0 || 1 + self.queue()[0].encoding().len() <= cap),
    {
        deque_first_fits(&self.outgoing_messages, cap)
    }

    /// Writes as many queued messages as fit in the writer's budget, each after a `true`
    /// continuation bit, and removes them from the queue. Sets `has_written` when a
    /// message was written. Nothing here is tracked for acks, so it returns `None`.
    pub fn write_messages(&mut self, writer: &mut BitWriter, has_written: &mut bool) -> (r: Option<Vec<SeqNum>>)
        requires
            old(writer).inv(),
            frames(old(self).queue(), fitting(old(self).queue(), old(writer).capacity() as int) as int).len()
                <= old(writer).space(),
            countable(old(self).queue()),
            *old(has_written) || old(self).queue().len() == 0 || 1 + old(self).queue()[0].encoding().len()
                <= old(writer).capacity(),
        ensures
            r is None,
            ({
                let k = fitting(old(self).queue(), old(writer).capacity() as int);
                &&& final(writer).inv()
                &&& final(writer).written() == old(writer).written() + frames(old(self).queue(), k as int)
                &&& final(writer).capacity() == old(writer).capacity() - frames(old(self).queue(), k as int).len()
                &&& final(self).queue() == old(self).queue().skip(k as int)
                &&& *final(has_written) == (*old(has_written) || k > 0)
            }),
            final(self).tx_count() == old(self).tx_count(),
    {
        let _ = write_queue(&mut self.outgoing_messages, writer, has_written);
        None
    }

    /// The number of messages queued so far, wrapping.
    pub fn msg_tx_count(&self) -> (r: u64)
        ensures
            r == self.tx_count(),
    {
        self.msg_tx_count
    }

    /// The number of messages queued so far, wrapping.
    pub fn msg_tx_queue_count(&self) -> (r: u64)
        ensures
            r == self.tx_count(),
    {
        self.msg_tx_count
    }
    /// Nothing is resent on an unreliable channel, so there is nothing to collect.
    pub fn collect_messages(&mut self, now: &Instant, resend: Duration)
        ensures
            *final(self) == *old(self),
    {
    }

    /// Nothing waits for an ack on an unreliable channel.
    pub fn ack(&mut self, index: &SeqNum)
        ensures
            *final(self) == *old(self),
    {
    }
}

} // verus!

verus! {

/// Sends on a sequenced unreliable channel: messages are numbered in the order queued.
pub struct SequencedUnreliableSender<M> {
    outgoing_messages: VecDeque<(SeqNum, M)>,
    next_send_message_index: SeqNum,
    msg_tx_count: u64,
}

impl<M> SequencedUnreliableSender<M> {
    /// The numbered messages queued and not yet written.
    pub closed spec fn queue(&self) -> Seq<(SeqNum, M)> {
        self.outgoing_messages@
    }

    /// The number the next message gets.
    pub closed spec fn next_index(&self) -> SeqNum {
        self.next_send_message_index
    }

    /// The number of messages queued so far, wrapping.
    pub closed spec fn tx_count(&self) -> u64 {
        self.msg_tx_count
    }

    /// Creates a sender with nothing queued, numbering from 0.
    pub fn new() -> (r: Self)
        ensures
            r.queue() == Seq::<(SeqNum, M)>::empty(),
            r.next_index() == SeqNum(0),
            r.tx_count() == 0,
    {
        Self { outgoing_messages: VecDeque::new(), next_send_message_index: SeqNum(0), msg_tx_count: 0 }
    }

    /// Queues a message under the next number.
    pub fn send(&mut self, message: M)
        ensures
            final(self).queue() == old(self).queue().push((old(self).next_index(), message)),
            final(self).next_index().0 == wrap16(old(self).next_index().0 + 1),
            final(self).tx_count() == (old(self).tx_count() + 1) % 0x1_0000_0000_0000_0000,
    {
        self.msg_tx_count = self.msg_tx_count.wrapping_add(1);
        self.outgoing_messages.push_back((self.next_send_message_index, message));
        self.next_send_message_index.incr();
    }

    /// Whether messages are queued.
    pub fn has_messages(&self) -> (r: bool)
        ensures
            r == (self.queue().len() > 0),
    {
        self.outgoing_messages.len() != 0
    }

    /// The number of messages queued so far, wrapping.
    pub fn msg_tx_count(&self) -> (r: u64)
        ensures
            r == self.tx_count(),
    {
        self.msg_tx_count
    }

    /// The number of messages queued so far, wrapping.
    pub fn msg_tx_queue_count(&self) -> (r: u64)
        ensures
            r == self.tx_count(),
    {
        self.msg_tx_count
    }
    /// Nothing is resent on an unreliable channel, so there is nothing to collect.
    pub fn collect_messages(&mut self, now: &Instant, resend: Duration)
        ensures
            *final(self) == *old(self),
    {
    }

    /// Nothing waits for an ack on an unreliable channel.
    pub fn ack(&mut self, index: &SeqNum)
        ensures
            *final(self) == *old(self),
    {
    }
}

/// The numbers of a run of numbered messages, in order.
pub open spec fn indices_of<M>(s: Seq<(SeqNum, M)>) -> Seq<SeqNum> {
    Seq::new(s.len(), |i: int| s[i].0)
}

/// The numbers of the messages in `written`, in order.
fn numbers_of<M>(written: &Vec<(SeqNum, M)>) -> (r: Vec<SeqNum>)
    ensures
        r@ == indices_of(written@),
{
    let mut r: Vec<SeqNum> = Vec::new();
    let mut i: usize = 0;
    while i < written.len()
        invariant
            i <= written@.len(),
            r@ == indices_of(written@.take(i as int)),
        decreases written@.len() - i,
    {
        r.push(written[i].0);
        proof {
            assert(indices_of(written@.take(i + 1)) =~= indices_of(written@.take(i as int)).push(
                written@[i as int].0,
            ));
        }
        i = i + 1;
    }
    proof {
        assert(written@.take(i as int) =~= written@);
    }
    r
}

impl<M: Message> SequencedUnreliableSender<M> {
    /// Whether every queued message counts its bits in a `u32`.
    pub fn queue_countable(&self) -> (r: bool)
        ensures
            r == countable(self.queue()),
    {
        deque_countable(&self.outgoing_messages)
    }

    /// Whether the first queued message, after its continuation bit, fits in `cap` bits,
    /// or none is queued.
    pub fn first_fits(&self, cap: u32) -> (r: bool)
        ensures
            r == (self.queue().len() == 0 || 1 + self.queue()[0].encoding().len() <= cap),
    {
        deque_first_fits(&self.outgoing_messages, cap)
    }

    /// Writes as many queued numbered messages as fit in the writer's budget, each after a
    /// `true` continuation bit, removes them from the queue, and returns their numbers.
    /// Sets `has_written` when a message was written.
    pub fn write_messages(&mut self, writer: &mut BitWriter, has_written: &mut bool) -> (r: Option<Vec<SeqNum>>)
        requires
            old(writer).inv(),
            frames(old(self).queue(), fitting(old(self).queue(), old(writer).capacity() as int) as int).len()
                <= old(writer).space(),
            countable(old(self).queue()),
            *old(has_written) || old(self).queue().len() == 0 || 1 + old(self).queue()[0].encoding().len()
                <= old(writer).capacity(),
        ensures
            ({
                let k = fitting(old(self).queue(), old(writer).capacity() as int);
                &&& r matches Some(v) && v@ == indices_of(old(self).queue().take(k as int))
                &&& final(writer).inv()
                &&& final(writer).written() == old(writer).written() + frames(old(self).queue(), k as int)
                &&& final(writer).capacity() == old(writer).capacity() - frames(old(self).queue(), k as int).len()
                &&& final(self).queue() == old(self).queue().skip(k as int)
                &&& *final(has_written) == (*old(has_written) || k > 0)
            }),
            final(self).next_index() == old(self).next_index(),
            final(self).tx_count() == old(self).tx_count(),
    {
        let written = write_queue(&mut self.outgoing_messages, writer, has_written);
        Some(numbers_of(&written))
    }
}

/// A message awaiting its ack: its number, when it was last written, and the message.
pub type SendingEntry<M> = Option<(SeqNum, Option<Instant>, M)>;

/// The position of the first entry waiting with number `index`, if any.
pub open spec fn position_of<M>(s: Seq<SendingEntry<M>>, index: SeqNum) -> Option<int> {
    if exists|i: int| 0 <= i < s.len() && (#[trigger] s[i] matches Some(e) && e.0 == index) {
        Some(choose|i: int| 0 <= i < s.len() && (#[trigger] s[i] matches Some(e) && e.0 == index) && forall|j: int| 0 <= j < i ==> !(#[trigger] s[j] matches Some(e2) && e2.0 == index))
    } else {
        None
    }
}

/// Whether `out` is the message of the waiting entry `e`, numbered, as made ready to
/// be written.
pub open spec fn copies<M: Clone>(e: SendingEntry<M>, out: (SeqNum, M)) -> bool {
    match e {
        Some((idx, _, m)) => out.0 == idx && cloned(m, out.1),
        None => false,
    }
}

/// Whether `out` copies one of the waiting entries `s`.
pub open spec fn copies_some<M: Clone>(s: Seq<SendingEntry<M>>, out: (SeqNum, M)) -> bool {
    exists|i: int| 0 <= i < s.len() && copies(#[trigger] s[i], out)
}

/// The number of acknowledged entries at the front.
pub open spec fn leading_acked<M>(s: Seq<SendingEntry<M>>) -> nat
    decreases s.len(),
{
    if s.len() == 0 || s[0] is Some {
        0
    } else {
        1 + leading_acked(s.drop_first())
    }
}

/// Whether a collection writes the entry `e` again: always when it was never written,
/// when it was, only if its resend time has passed (`elapsed`); never an acknowledged one.
pub open spec fn selected<M>(e: SendingEntry<M>, elapsed: bool) -> bool {
    match e {
        Some((_, None, _)) => true,
        Some((_, Some(_), _)) => elapsed,
        None => false,
    }
}

/// The positions, among the first `k` entries of `s`, that a collection writes again,
/// in order, given for each entry whether its resend time has passed.
pub open spec fn selected_positions<M>(s: Seq<SendingEntry<M>>, elapsed: Seq<bool>, k: int) -> Seq<int>
    decreases k,
{
    if k <= 0 {
        Seq::empty()
    } else {
        selected_positions(s, elapsed, k - 1) + if selected(s[k - 1], elapsed[k - 1]) {
            seq![k - 1]
        } else {
            Seq::<int>::empty()
        }
    }
}

proof fn lemma_selected_positions_len<M>(s: Seq<SendingEntry<M>>, elapsed: Seq<bool>, k: int)
    requires
        k >= 0,
    ensures
        selected_positions(s, elapsed, k).len() <= k,
    decreases k,
{
    if k > 0 {
        lemma_selected_positions_len(s, elapsed, k - 1);
    }
}

/// What a collection at `now` makes of the reliable sender `pre`, given for each waiting
/// entry whether its resend time has passed: each selected entry is stamped with `now`,
/// every other entry stays as it was, and one copy of each selected message, numbered,
/// is appended to the ones ready to be written, in entry order, each counted once.
pub open spec fn collected_as<M: Clone>(pre: ReliableSender<M>, post: ReliableSender<M>, now: Instant, elapsed: Seq<bool>) -> bool {
    let pos = selected_positions(pre.sending(), elapsed, pre.sending().len() as int);
    &&& elapsed.len() == pre.sending().len()
    &&& post.sending().len() == pre.sending().len()
    &&& post.next_index() == pre.next_index()
    &&& post.tx_queue_count() == pre.tx_queue_count()
    &&& forall|i: int| 0 <= i < pre.sending().len() ==> match #[trigger] pre.sending()[i] {
        Some((idx, last, m)) => if selected(pre.sending()[i], elapsed[i]) {
            post.sending()[i] == Some((idx, Some(now), m))
        } else {
            post.sending()[i] == pre.sending()[i]
        },
        None => post.sending()[i] is None,
    }
    &&& post.outgoing().len() == pre.outgoing().len() + pos.len()
    &&& post.outgoing().subrange(0, pre.outgoing().len() as int) == pre.outgoing()
    &&& forall|k: int| 0 <= k < pos.len() ==> copies(pre.sending()[#[trigger] pos[k]], post.outgoing()[pre.outgoing().len() + k])
    &&& post.tx_count() == pre.tx_count() + pos.len()
}

/// What a collection at `now` makes of the reliable sender `pre`, for whichever entries
/// the clock says are due again: never-written entries always are.
pub open spec fn collected<M: Clone>(pre: ReliableSender<M>, post: ReliableSender<M>, now: Instant) -> bool {
    exists|elapsed: Seq<bool>| #[trigger] collected_as(pre, post, now, elapsed)
}

/// The waiting entries `s` after the ack of `index`: the first entry waiting with that
/// number is marked acknowledged and the acknowledged entries at the front are dropped.
pub open spec fn after_ack<M>(s: Seq<SendingEntry<M>>, index: SeqNum) -> Seq<SendingEntry<M>> {
    match position_of(s, index) {
        None => s,
        Some(p) => {
            let cleared = s.update(p, None);
            cleared.skip(leading_acked(cleared) as int)
        },
    }
}

/// The waiting entries `s` after the acks of `indices`, one after the other.
pub open spec fn after_acks<M>(s: Seq<SendingEntry<M>>, indices: Seq<SeqNum>) -> Seq<SendingEntry<M>>
    decreases indices.len(),
{
    if indices.len() == 0 {
        s
    } else {
        after_ack(after_acks(s, indices.drop_last()), indices.last())
    }
}

/// One more ack after a run of acks.
pub proof fn lemma_after_acks_push<M>(s: Seq<SendingEntry<M>>, indices: Seq<SeqNum>, index: SeqNum)
    ensures
        after_acks(s, indices.push(index)) == after_ack(after_acks(s, indices), index),
{
    assert(indices.push(index).drop_last() =~= indices);
}

/// A run of acks followed by another is the two runs one after the other.
pub proof fn lemma_after_acks_concat<M>(s: Seq<SendingEntry<M>>, first: Seq<SeqNum>, then: Seq<SeqNum>)
    ensures
        after_acks(after_acks(s, first), then) == after_acks(s, first + then),
    decreases then.len(),
{
    if then.len() == 0 {
        assert(first + then =~= first);
    } else {
        lemma_after_acks_concat(s, first, then.drop_last());
        assert((first + then).drop_last() =~= first + then.drop_last());
        assert((first + then).last() == then.last());
    }
}

/// Sends on a reliable channel: every message is written again and again until it is
/// acknowledged.
pub struct ReliableSender<M> {
    sending_messages: VecDeque<SendingEntry<M>>,
    next_send_message_index: SeqNum,
    outgoing_messages: VecDeque<(SeqNum, M)>,
    msg_tx_count: u64,
    msg_tx_queue_count: u64,
    clock_readings: Ghost<(Seq<u128>, u128)>,
}

impl<M: Clone> ReliableSender<M> {
    /// What the last collection read from the clock: for each waiting entry written
    /// before, the nanoseconds since its last write (0 for the others), and the resend
    /// duration in nanoseconds.
    pub closed spec fn readings(&self) -> (Seq<u128>, u128) {
        self.clock_readings@
    }

    /// The messages awaiting an ack, oldest first; `None` for ones acknowledged.
    pub closed spec fn sending(&self) -> Seq<SendingEntry<M>> {
        self.sending_messages@
    }

    /// The numbered messages ready to be written.
    pub closed spec fn outgoing(&self) -> Seq<(SeqNum, M)> {
        self.outgoing_messages@
    }

    /// The number the next message gets.
    pub closed spec fn next_index(&self) -> SeqNum {
        self.next_send_message_index
    }

    /// How many times messages were made ready to be written.
    pub closed spec fn tx_count(&self) -> u64 {
        self.msg_tx_count
    }

    /// How many messages were queued.
    pub closed spec fn tx_queue_count(&self) -> u64 {
        self.msg_tx_queue_count
    }

    /// Creates a sender with nothing queued, numbering from 0.
    pub fn new() -> (r: Self)
        ensures
            r.sending() == Seq::<SendingEntry<M>>::empty(),
            r.outgoing() == Seq::<(SeqNum, M)>::empty(),
            r.next_index() == SeqNum(0),
            r.tx_count() == 0,
            r.tx_queue_count() == 0,
    {
        Self {
            next_send_message_index: SeqNum(0),
            sending_messages: VecDeque::new(),
            outgoing_messages: VecDeque::new(),
            msg_tx_count: 0,
            msg_tx_queue_count: 0,
            clock_readings: Ghost((Seq::empty(), 0)),
        }
    }

    /// The position of the first entry waiting with number `index`.
    fn find_msg_idx(&self, index: &SeqNum) -> (r: Option<usize>)
        ensures
            match r {
                Some(i) => position_of(self.sending(), *index) == Some(i as int) && i < self.sending().len(),
                None => position_of(self.sending(), *index) is None,
            },
    {
        let mut i: usize = 0;
        while i < self.sending_messages.len()
            invariant
                i <= self.sending().len(),
                forall|j: int| 0 <= j < i ==> !(#[trigger] self.sending()[j] matches Some(e) && e.0 == *index),
            decreases self.sending().len() - i,
        {
            let found = match &self.sending_messages[i] {
                Some(entry) => entry.0 == *index,
                None => false,
            };
            if found {
                proof {
                    let s = self.sending();
                    assert(s[i as int] matches Some(e) && e.0 == *index);
                    let c = choose|k: int| 0 <= k < s.len() && (#[trigger] s[k] matches Some(e) && e.0 == *index) && forall|j: int| 0 <= j < k ==> !(#[trigger] s[j] matches Some(e2) && e2.0 == *index);
                    if c < i {
                    } else if c > i {
                        assert(!(s[i as int] matches Some(e2) && e2.0 == *index));
                    }
                }
                return Some(i);
            }
            i = i + 1;
        }
        None
    }

    /// Queues a message under the next number, to be written at the next collection.
    pub fn send(&mut self, message: M)
        requires
            old(self).tx_queue_count() < u64::MAX,
        ensures
            final(self).sending() == old(self).sending().push(Some((old(self).next_index(), None, message))),
            final(self).next_index().0 == wrap16(old(self).next_index().0 + 1),
            final(self).outgoing() == old(self).outgoing(),
            final(self).tx_count() == old(self).tx_count(),
            final(self).tx_queue_count() == old(self).tx_queue_count() + 1,
    {
        self.msg_tx_queue_count = self.msg_tx_queue_count + 1;
        self.sending_messages.push_back(Some((self.next_send_message_index, None, message)));
        self.next_send_message_index.incr();
    }

    /// Makes ready to be written, stamped with `now`, every waiting message that was
    /// never written, and every one whose entry in `elapsed` says its resend time has
    /// passed; acknowledged entries are skipped.
    pub fn collect_due(&mut self, now: &Instant, elapsed: &Vec<bool>)
        requires
            elapsed@.len() == old(self).sending().len(),
            old(self).tx_count() + old(self).sending().len() <= u64::MAX,
        ensures
            collected_as(*old(self), *final(self), *now, elapsed@),
    {
        let ghost s0 = self.sending_messages@;
        let ghost o0 = self.outgoing_messages@;
        let ghost f = elapsed@;
        let mut i: usize = 0;
        proof {
            assert(o0.subrange(0, o0.len() as int) =~= o0);
        }
        while i < self.sending_messages.len()
            invariant
                i <= s0.len(),
                f.len() == s0.len(),
                f == elapsed@,
                self.sending_messages@.len() == s0.len(),
                self.next_send_message_index == old(self).next_send_message_index,
                self.msg_tx_queue_count == old(self).msg_tx_queue_count,
                s0 == old(self).sending(),
                o0 == old(self).outgoing(),
                old(self).tx_count() + s0.len() <= u64::MAX,
                self.outgoing_messages@.len() == o0.len() + selected_positions(s0, f, i as int).len(),
                self.outgoing_messages@.subrange(0, o0.len() as int) == o0,
                self.msg_tx_count == old(self).tx_count() + selected_positions(s0, f, i as int).len(),
                selected_positions(s0, f, i as int).len() <= i,
                forall|j: int| i <= j < s0.len() ==> #[trigger] self.sending_messages@[j] == s0[j],
                forall|j: int| 0 <= j < i ==> match #[trigger] s0[j] {
                    Some((idx, last, m)) => if selected(s0[j], f[j]) {
                        self.sending_messages@[j] == Some((idx, Some(*now), m))
                    } else {
                        self.sending_messages@[j] == s0[j]
                    },
                    None => self.sending_messages@[j] is None,
                },
                forall|k: int| 0 <= k < selected_positions(s0, f, i as int).len() ==> copies(
                    s0[#[trigger] selected_positions(s0, f, i as int)[k]],
                    self.outgoing_messages@[o0.len() + k],
                ),
            decreases s0.len() - i,
        {
            let ghost before = self.outgoing_messages@;
            let ghost pos = selected_positions(s0, f, i as int);
            let due = elapsed[i];
            match deque_get_mut(&mut self.sending_messages, i) {
                Some(slot) => {
                    match slot {
                        Some(entry) => {
                            let should_send = match &entry.1 {
                                Some(_) => due,
                                None => true,
                            };
                            if should_send {
                                self.msg_tx_count = self.msg_tx_count + 1;
                                let copy = entry.2.clone();
                                assert(cloned(entry.2, copy));
                                self.outgoing_messages.push_back((entry.0, copy));
                                entry.1 = Some(*now);
                            }
                        },
                        None => {},
                    }
                },
                None => {},
            }
            proof {
                let npos = selected_positions(s0, f, i + 1);
                assert(npos == pos + if selected(s0[i as int], f[i as int]) {
                    seq![i as int]
                } else {
                    Seq::<int>::empty()
                });
                assert(self.outgoing_messages@.subrange(0, o0.len() as int) =~= o0);
                assert forall|k: int| 0 <= k < npos.len() implies copies(s0[#[trigger] npos[k]], self.outgoing_messages@[o0.len() + k]) by {
                    if k < pos.len() {
                        assert(npos[k] == pos[k]);
                        assert(self.outgoing_messages@[o0.len() + k] == before[o0.len() + k]);
                    } else {
                        assert(npos[k] == i as int);
                    }
                }
            }
            i = i + 1;
        }
    }

    /// Makes ready to be written every waiting message that was never written, and every
    /// one last written at least `resend` ago; each gets `now` as its last write. The
    /// time since each last write, and `resend`, are read from the clock in nanoseconds
    /// (see `readings`): an entry written before is due exactly when its reading is at
    /// least the resend reading.
    pub fn collect_messages(&mut self, now: &Instant, resend: Duration)
        requires
            old(self).tx_count() + old(self).sending().len() <= u64::MAX,
        ensures
            collected(*old(self), *final(self), *now),
            final(self).readings().0.len() == old(self).sending().len(),
            collected_as(
                *old(self),
                *final(self),
                *now,
                Seq::new(
                    old(self).sending().len(),
                    |i: int| final(self).readings().0[i] >= final(self).readings().1,
                ),
            ),
    {
        let resend_nanos = duration_as_nanos(resend);
        let mut elapsed: Vec<bool> = Vec::new();
        let ghost reads: Seq<u128> = Seq::empty();
        let mut i: usize = 0;
        while i < self.sending_messages.len()
            invariant
                i <= self.sending().len(),
                elapsed@.len() == i,
                reads.len() == i,
                forall|k: int| 0 <= k < i ==> #[trigger] elapsed@[k] == (reads[k] >= resend_nanos),
            decreases self.sending().len() - i,
        {
            let since: u128 = match &self.sending_messages[i] {
                Some(entry) => match &entry.1 {
                    Some(last) => duration_as_nanos(instant_elapsed(last)),
                    None => 0,
                },
                None => 0,
            };
            let due = since >= resend_nanos;
            elapsed.push(due);
            proof {
                reads = reads.push(since);
            }
            i = i + 1;
        }
        self.collect_due(now, &elapsed);
        self.clock_readings = Ghost((reads, resend_nanos));
        assert(elapsed@ =~= Seq::new(
            old(self).sending().len(),
            |k: int| self.readings().0[k] >= self.readings().1,
        ));
        assert(collected_as(*old(self), *self, *now, elapsed@));
    }

    /// The number of entries waiting for their acks, acknowledged ones included.
    pub fn waiting_count(&self) -> (r: usize)
        ensures
            r == self.sending().len(),
    {
        self.sending_messages.len()
    }

    /// Whether messages are ready to be written.
    pub fn has_messages(&self) -> (r: bool)
        ensures
            r == (self.outgoing().len() > 0),
    {
        self.outgoing_messages.len() != 0
    }

    /// Stops resending the first waiting message numbered `index`, and drops the
    /// acknowledged entries at the front.
    pub fn ack(&mut self, index: &SeqNum)
        ensures
            final(self).next_index() == old(self).next_index(),
            final(self).outgoing() == old(self).outgoing(),
            final(self).tx_count() == old(self).tx_count(),
            final(self).tx_queue_count() == old(self).tx_queue_count(),
            match position_of(old(self).sending(), *index) {
                None => final(self).sending() == old(self).sending(),
                Some(p) => {
                    let cleared = old(self).sending().update(p, None);
                    final(self).sending() == cleared.skip(leading_acked(cleared) as int)
                },
            },
    {
        let i = match self.find_msg_idx(index) {
            Some(i) => i,
            None => {
                return;
            },
        };
        match deque_get_mut(&mut self.sending_messages, i) {
            Some(slot) => {
                *slot = None;
            },
            None => {},
        }
        let ghost cleared = self.sending_messages@;
        assert(cleared == old(self).sending().update(i as int, None));
        let ghost dropped: nat = 0;
        while self.sending_messages.len() > 0 && self.sending_messages[0].is_none()
            invariant
                self.sending_messages@ == cleared.skip(dropped as int),
                cleared == old(self).sending().update(i as int, None),
                position_of(old(self).sending(), *index) == Some(i as int),
                dropped + leading_acked(self.sending_messages@) == leading_acked(cleared),
                dropped <= cleared.len(),
                self.next_send_message_index == old(self).next_send_message_index,
                self.outgoing_messages == old(self).outgoing_messages,
                self.msg_tx_count == old(self).msg_tx_count,
                self.msg_tx_queue_count == old(self).msg_tx_queue_count,
            decreases self.sending_messages@.len(),
        {
            let ghost before = self.sending_messages@;
            self.sending_messages.pop_front();
            proof {
                assert(before.drop_first() =~= self.sending_messages@);
                dropped = dropped + 1;
                assert(self.sending_messages@ =~= cleared.skip(dropped as int));
            }
        }
    }

    /// How many times messages were made ready to be written.
    pub fn msg_tx_count(&self) -> (r: u64)
        ensures
            r == self.tx_count(),
    {
        self.msg_tx_count
    }

    /// How many messages were queued.
    pub fn msg_tx_queue_count(&self) -> (r: u64)
        ensures
            r == self.tx_queue_count(),
    {
        self.msg_tx_queue_count
    }
}

impl<M: Message + Clone> ReliableSender<M> {
    /// Whether every message ready to be written counts its bits in a `u32`.
    pub fn outgoing_countable(&self) -> (r: bool)
        ensures
            r == countable(self.outgoing()),
    {
        deque_countable(&self.outgoing_messages)
    }

    /// Whether the first message ready to be written, after its continuation bit, fits
    /// in `cap` bits, or none is ready.
    pub fn first_fits(&self, cap: u32) -> (r: bool)
        ensures
            r == (self.outgoing().len() == 0 || 1 + self.outgoing()[0].encoding().len() <= cap),
    {
        deque_first_fits(&self.outgoing_messages, cap)
    }

    /// Writes as many of the numbered messages ready to be written as fit in the writer's
    /// budget, each after a `true` continuation bit, removes them from the ready list, and
    /// returns their numbers, which stay waiting for their acks. Sets `has_written` when a
    /// message was written.
    pub fn write_messages(&mut self, writer: &mut BitWriter, has_written: &mut bool) -> (r: Option<Vec<SeqNum>>)
        requires
            old(writer).inv(),
            frames(old(self).outgoing(), fitting(old(self).outgoing(), old(writer).capacity() as int) as int).len()
                <= old(writer).space(),
            countable(old(self).outgoing()),
            *old(has_written) || old(self).outgoing().len() == 0 || 1 + old(self).outgoing()[0].encoding().len()
                <= old(writer).capacity(),
        ensures
            ({
                let k = fitting(old(self).outgoing(), old(writer).capacity() as int);
                &&& r matches Some(v) && v@ == indices_of(old(self).outgoing().take(k as int))
                &&& final(writer).inv()
                &&& final(writer).written() == old(writer).written() + frames(old(self).outgoing(), k as int)
                &&& final(writer).capacity() == old(writer).capacity() - frames(old(self).outgoing(), k as int).len()
                &&& final(self).outgoing() == old(self).outgoing().skip(k as int)
                &&& *final(has_written) == (*old(has_written) || k > 0)
            }),
            final(self).sending() == old(self).sending(),
            final(self).next_index() == old(self).next_index(),
            final(self).tx_count() == old(self).tx_count(),
            final(self).tx_queue_count() == old(self).tx_queue_count(),
    {
        let written = write_queue(&mut self.outgoing_messages, writer, has_written);
        Some(numbers_of(&written))
    }
}

/// What is written is read back: the first `k` messages of `msgs`, framed, then a
/// closing `false` bit, read as a run give back exactly those messages, and take their
/// bits and the closing bit.
pub proof fn law_framed_run_reads_frames<T: Message>(msgs: Seq<T>, k: int, rest: Seq<bool>)
    requires
        0 <= k <= msgs.len(),
        countable(msgs),
    ensures
        framed_run::<T>(frames(msgs, k) + seq![false] + rest) matches Some((items, n)) && n == frames(msgs, k).len() + 1
            && parsed_all(items, msgs.take(k)),
    decreases k,
{
    let bits = frames(msgs, k) + seq![false] + rest;
    if k == 0 {
        assert(frames(msgs, 0) =~= Seq::<bool>::empty());
        assert(bits[0] == false);
        assert(msgs.take(0) =~= Seq::<T>::empty());
    } else {
        let m0 = msgs[0];
        let tail = msgs.drop_first();
        assert(countable(tail)) by {
            assert forall|i: int| 0 <= i < tail.len() implies (#[trigger] tail[i]).encoding().len() < u32::MAX by {
                assert(tail[i] == msgs[i + 1]);
            }
        }
        lemma_frames_first(msgs, k);
        law_framed_run_reads_frames(tail, k - 1, rest);
        let after = frames(tail, k - 1) + seq![false] + rest;
        assert(bits =~= seq![true] + (m0.encoding() + after));
        assert(bits.drop_first() =~= m0.encoding() + after);
        m0.lemma_parses_encoding(after);
        let n0 = m0.encoding().len();
        assert(bits.skip((1 + n0) as int) =~= after);
        let (items1, n1) = framed_run::<T>(after)->Some_0;
        let items = seq![(bits.drop_first(), n0)] + items1;
        assert(msgs.take(k).drop_first() =~= tail.take(k - 1));
        assert forall|i: int| 0 <= i < items.len() implies T::parses(#[trigger] items[i].0, msgs.take(k)[i], items[i].1) by {
            if i > 0 {
                assert(items[i] == items1[i - 1]);
                assert(msgs.take(k)[i] == tail.take(k - 1)[i - 1]);
            }
        }
    }
}

} // verus!
