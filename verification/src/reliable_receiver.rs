//! Receiving reliably sent messages exactly once, whatever order they arrive in.
use vstd::prelude::*;
use std::collections::VecDeque;
use crate::index_buffer::{deque_get_mut, seq_lt};
use crate::seq_num::{SeqNum, wrap16, lemma_wrap16_add};
use crate::sequence_buffer::forward_dist;
use crate::bit_reader::BitReader;
use crate::error::SerdeErr;
use crate::message::{Message, framed_run, parsed_all, read_framed};
use crate::receivers::{OrderedArranger, SequencedArranger, release, seq_ge};

verus! {

/// The number of messages at the front of a record that have been received.
pub open spec fn received_run(rec: Seq<(SeqNum, bool)>) -> nat
    decreases rec.len(),
{
    if rec.len() == 0 || !rec[0].1 {
        0
    } else {
        1 + received_run(rec.drop_first())
    }
}

/// The record with the message `idx`, `d` places after `oldest`, marked as received,
/// extended with unreceived places for any indices skipped.
pub open spec fn marked(rec: Seq<(SeqNum, bool)>, oldest: SeqNum, d: int, idx: SeqNum) -> Seq<(SeqNum, bool)> {
    if d < rec.len() {
        rec.update(d, (idx, true))
    } else {
        rec + Seq::new((d - rec.len()) as nat, |j: int| (SeqNum(wrap16(oldest.0 + rec.len() + j)), false))
            + seq![(idx, true)]
    }
}

/// Whether a receiver at `oldest` with record `rec` takes the message `idx`: it is not
/// older than the window and not already received.
pub open spec fn takes(rec: Seq<(SeqNum, bool)>, oldest: SeqNum, idx: SeqNum) -> bool {
    let d = forward_dist(oldest.0, idx.0);
    !seq_lt(idx, oldest) && !(d < rec.len() && rec[d].1)
}

/// A record of consecutive message indices starting at `oldest`, whose first entry is
/// not received yet.
pub open spec fn record_wf(rec: Seq<(SeqNum, bool)>, oldest: SeqNum) -> bool {
    &&& rec.len() <= 32769
    &&& forall|i: int| 0 <= i < rec.len() ==> (#[trigger] rec[i]).0 == SeqNum(wrap16(oldest.0 + i))
    &&& rec.len() > 0 ==> !rec[0].1
}

/// Buffers messages that arrive out of order, handing each message index over once.
/// Indices before the oldest unreceived one count as received.
pub struct ReliableReceiver<M> {
    oldest_received_message_index: SeqNum,
    record: VecDeque<(SeqNum, bool)>,
    incoming_messages: Vec<(SeqNum, M)>,
}

impl<M> ReliableReceiver<M> {
    /// The receiver's internal invariant.
    pub closed spec fn wf(&self) -> bool {
        record_wf(self.record@, self.oldest_received_message_index)
    }

    /// The oldest message index not received yet.
    pub closed spec fn oldest(&self) -> SeqNum {
        self.oldest_received_message_index
    }

    /// For each index from `oldest` on, whether it has been received.
    pub closed spec fn record(&self) -> Seq<(SeqNum, bool)> {
        self.record@
    }

    /// The messages taken and not yet handed over, in the order they arrived.
    pub closed spec fn incoming(&self) -> Seq<(SeqNum, M)> {
        self.incoming_messages@
    }

    /// Creates a receiver expecting message index 0 first.
    pub fn new() -> (r: Self)
        ensures
            r.wf(),
            r.oldest() == SeqNum(0),
            r.record() == Seq::<(SeqNum, bool)>::empty(),
            r.incoming() == Seq::<(SeqNum, M)>::empty(),
    {
        Self {
            oldest_received_message_index: SeqNum(0),
            record: VecDeque::new(),
            incoming_messages: Vec::new(),
        }
    }

    /// Takes the message `message_index` unless it is older than the window or already
    /// received; returns whether it was taken. A taken message is queued, and the window
    /// then moves past every received index at its front.
    pub fn buffer_message(&mut self, message_index: SeqNum, message: M) -> (r: bool)
        requires
            old(self).wf(),
        ensures
            final(self).wf(),
            r == takes(old(self).record(), old(self).oldest(), message_index),
            !r ==> final(self).record() == old(self).record() && final(self).oldest() == old(self).oldest()
                && final(self).incoming() == old(self).incoming(),
            r ==> ({
                let m = marked(
                    old(self).record(),
                    old(self).oldest(),
                    forward_dist(old(self).oldest().0, message_index.0),
                    message_index,
                );
                &&& final(self).incoming() == old(self).incoming().push((message_index, message))
                &&& final(self).record() == m.skip(received_run(m) as int)
                &&& final(self).oldest().0 == wrap16(old(self).oldest().0 + received_run(m))
            }),
    {
        if message_index < self.oldest_received_message_index {
            return false;
        }
        let ghost oldest = self.oldest_received_message_index;
        let ghost rec0 = self.record@;
        let ghost d = forward_dist(oldest.0, message_index.0);
        assert(0 <= d <= 32768);
        let mut current_index: usize = 0;
        loop
            invariant
                self.oldest_received_message_index == oldest,
                oldest == old(self).oldest(),
                self.incoming_messages@ == old(self).incoming(),
                rec0 == old(self).record(),
                record_wf(rec0, oldest),
                !seq_lt(message_index, oldest),
                d == forward_dist(oldest.0, message_index.0),
                0 <= d <= 32768,
                current_index <= d,
                self.record@.len() == (if current_index <= rec0.len() { rec0.len() } else { current_index as nat }),
                self.record@ == rec0 + Seq::new((self.record@.len() - rec0.len()) as nat, |j: int| (SeqNum(wrap16(oldest.0 + rec0.len() + j)), false)),
            decreases d - current_index,
        {
            assert(self.record@.len() <= 32769);
            if current_index < self.record.len() {
                let entry = self.record[current_index];
                assert(entry.0 == SeqNum(wrap16(oldest.0 + current_index)));
                if entry.0 == message_index {
                    assert(current_index == d);
                    assert(d < rec0.len());
                    assert(self.record@[d] == rec0[d]);
                    if !entry.1 {
                        match deque_get_mut(&mut self.record, current_index) {
                            Some(e) => {
                                *e = (message_index, true);
                            },
                            None => {},
                        }
                        assert(self.record@ == marked(rec0, oldest, d, message_index));
                        self.incoming_messages.push((message_index, message));
                        self.clear_old_messages(Ghost(marked(rec0, oldest, d, message_index)));
                        return true;
                    } else {
                        return false;
                    }
                }
                assert(current_index != d);
            } else {
                let next_message_index = self.oldest_received_message_index.plus((current_index % 65536) as u16);
                if next_message_index == message_index {
                    assert(current_index == d);
                    assert(d >= rec0.len());
                    assert(takes(rec0, oldest, message_index));
                    self.record.push_back((next_message_index, true));
                    assert(self.record@ =~= marked(rec0, oldest, d, message_index));
                    self.incoming_messages.push((message_index, message));
                    self.clear_old_messages(Ghost(marked(rec0, oldest, d, message_index)));
                    return true;
                } else {
                    self.record.push_back((next_message_index, false));
                    assert(current_index != d);
                }
            }
            current_index = current_index + 1;
        }
    }

    /// Moves the window past every received index at its front.
    fn clear_old_messages(&mut self, Ghost(m): Ghost<Seq<(SeqNum, bool)>>)
        requires
            old(self).record@ == m,
            m.len() <= 32769,
            forall|i: int| 0 <= i < m.len() ==> (#[trigger] m[i]).0 == SeqNum(wrap16(old(self).oldest().0 + i)),
        ensures
            final(self).wf(),
            final(self).incoming() == old(self).incoming(),
            final(self).record() == m.skip(received_run(m) as int),
            final(self).oldest().0 == wrap16(old(self).oldest().0 + received_run(m)),
    {
        let ghost o0 = self.oldest_received_message_index;
        let ghost popped: nat = 0;
        while self.record.len() > 0 && self.record[0].1
            invariant
                self.record@ == m.skip(popped as int),
                popped <= m.len(),
                popped + received_run(self.record@) == received_run(m),
                self.oldest_received_message_index.0 == wrap16(o0.0 + popped),
                self.incoming_messages@ == old(self).incoming(),
                o0 == old(self).oldest(),
                m.len() <= 32769,
                forall|i: int| 0 <= i < m.len() ==> (#[trigger] m[i]).0 == SeqNum(wrap16(o0.0 + i)),
            decreases self.record@.len(),
        {
            let ghost before = self.record@;
            self.record.pop_front();
            proof {
                lemma_wrap16_add(o0.0 + popped, 1);
                assert(before.drop_first() =~= self.record@);
                popped = popped + 1;
                assert(self.record@ =~= m.skip(popped as int));
            }
            self.oldest_received_message_index.incr();
        }
        proof {
            assert forall|i: int| 0 <= i < self.record@.len() implies (#[trigger] self.record@[i]).0 == SeqNum(
                wrap16(self.oldest_received_message_index.0 + i),
            ) by {
                lemma_wrap16_add(o0.0 + popped, i);
                assert(self.record@[i] == m[popped + i]);
            }
        }
    }

    /// Hands over the queued messages, oldest first, and empties the queue.
    pub fn receive_messages(&mut self) -> (r: Vec<(SeqNum, M)>)
        ensures
            r@ == old(self).incoming(),
            final(self).incoming() == Seq::<(SeqNum, M)>::empty(),
            final(self).record() == old(self).record(),
            final(self).oldest() == old(self).oldest(),
            old(self).wf() ==> final(self).wf(),
    {
        let mut out: Vec<(SeqNum, M)> = Vec::new();
        std::mem::swap(&mut out, &mut self.incoming_messages);
        out
    }
}

/// The received run at the front of a record is received, and is followed by the end
/// of the record or by an entry not received.
pub proof fn lemma_received_run(rec: Seq<(SeqNum, bool)>)
    ensures
        received_run(rec) <= rec.len(),
        forall|i: int| 0 <= i < received_run(rec) ==> (#[trigger] rec[i]).1,
        received_run(rec) < rec.len() ==> !rec[received_run(rec) as int].1,
    decreases rec.len(),
{
    if rec.len() > 0 && rec[0].1 {
        lemma_received_run(rec.drop_first());
        assert forall|i: int| 0 <= i < received_run(rec) implies (#[trigger] rec[i]).1 by {
            if i > 0 {
                assert(rec[i] == rec.drop_first()[i - 1]);
            }
        }
    }
}

/// A message index is taken at most once: after a receiver takes `idx`, it refuses `idx`
/// again (for windows shorter than half the circle).
pub proof fn law_taken_once(rec: Seq<(SeqNum, bool)>, oldest: SeqNum, idx: SeqNum)
    requires
        record_wf(rec, oldest),
        takes(rec, oldest, idx),
        rec.len() < 32767,
        forward_dist(oldest.0, idx.0) < 32767,
    ensures
        ({
            let m = marked(rec, oldest, forward_dist(oldest.0, idx.0), idx);
            let k = received_run(m);
            !takes(m.skip(k as int), SeqNum(wrap16(oldest.0 + k)), idx)
        }),
{
    let d = forward_dist(oldest.0, idx.0);
    let m = marked(rec, oldest, d, idx);
    lemma_received_run(m);
    let k = received_run(m);
    assert(m[d] == (idx, true));
    if k <= d {
        lemma_wrap16_add(oldest.0 as int, k as int);
        assert(forward_dist(wrap16(oldest.0 + k), idx.0) == d - k);
        assert(m.skip(k as int)[d - k] == m[d]);
    } else {
        assert(m.len() <= 32767);
    }
}

/// The distance forward from `from` to `x` on the circle of 65536 numbers, by cases.
proof fn lemma_forward_dist_cases(from: u16, x: u16)
    ensures
        forward_dist(from, x) == if x >= from { x - from } else { x - from + 65536 },
{
}

/// A receiver at `oldest` that has not received `j`, less than half the circle ahead,
/// takes it exactly when it is not marked received.
proof fn lemma_takes_ahead(rec: Seq<(SeqNum, bool)>, oldest: SeqNum, j: SeqNum)
    requires
        forward_dist(oldest.0, j.0) < 32767,
    ensures
        takes(rec, oldest, j) == !(forward_dist(oldest.0, j.0) < rec.len() && rec[forward_dist(oldest.0, j.0)].1),
{
    lemma_forward_dist_cases(oldest.0, j.0);
}

/// Taking a message changes whether any other index is taken by nothing: after a
/// receiver takes `idx`, it takes exactly the indices it took before but `idx` (for
/// records, and indices, less than half the circle ahead of the oldest unreceived one).
pub proof fn law_takes_all_but_taken(rec: Seq<(SeqNum, bool)>, oldest: SeqNum, idx: SeqNum, j: SeqNum)
    requires
        record_wf(rec, oldest),
        takes(rec, oldest, idx),
        rec.len() < 32767,
        forward_dist(oldest.0, idx.0) < 32767,
        forward_dist(oldest.0, j.0) < 32767,
    ensures
        ({
            let m = marked(rec, oldest, forward_dist(oldest.0, idx.0), idx);
            let k = received_run(m);
            takes(m.skip(k as int), SeqNum(wrap16(oldest.0 + k)), j) == (takes(rec, oldest, j) && j != idx)
        }),
{
    let d = forward_dist(oldest.0, idx.0);
    let dj = forward_dist(oldest.0, j.0);
    let m = marked(rec, oldest, d, idx);
    lemma_received_run(m);
    let k = received_run(m);
    let o2 = SeqNum(wrap16(oldest.0 + k));
    lemma_forward_dist_cases(oldest.0, idx.0);
    lemma_forward_dist_cases(oldest.0, j.0);
    lemma_takes_ahead(rec, oldest, j);
    assert(m.len() <= 32767);
    assert(o2.0 == if oldest.0 + k < 65536 { oldest.0 + k } else { oldest.0 + k - 65536 });
    lemma_forward_dist_cases(o2.0, j.0);
    assert((dj == d) == (j == idx));
    assert(m[d] == (idx, true));
    if dj < k {
        assert(forward_dist(o2.0, j.0) == dj - k + 65536);
        assert(seq_lt(j, o2));
        assert(m[dj].1);
        if dj != d {
            if dj < rec.len() {
                assert(m[dj] == rec[dj]);
            } else {
                assert(!m[dj].1);
            }
        }
    } else {
        assert(forward_dist(o2.0, j.0) == dj - k);
        lemma_takes_ahead(m.skip(k as int), o2, j);
        if dj < m.len() {
            assert(m.skip(k as int)[dj - k] == m[dj]);
            if dj != d {
                if dj < rec.len() {
                    assert(m[dj] == rec[dj]);
                } else {
                    assert(!m[dj].1);
                }
            }
        }
    }
}

/// How a reliable receiver passes on the messages it takes: as they come, only when
/// newer than every one passed on before, or in the order of their numbers.
pub enum Arranger<M> {
    Unordered,
    Sequenced(SequencedArranger),
    Ordered(OrderedArranger<M>),
}

/// An arranger as plain values: nothing to keep; the number of the newest message
/// passed on; or the number of the next message to pass on and the messages held until
/// their turn.
pub enum ArrangerState<M> {
    Unordered,
    Sequenced(SeqNum),
    Ordered(SeqNum, Seq<(SeqNum, M)>),
}

/// An arranger's plain values hold no message whose turn has come.
pub open spec fn arranger_ready<M>(state: ArrangerState<M>) -> bool {
    match state {
        ArrangerState::Ordered(next, held) => forall|k: int| 0 <= k < held.len() ==> (#[trigger] held[k]).0 != next,
        _ => true,
    }
}

/// The plain values of an arranger.
pub open spec fn arranger_state<M>(a: Arranger<M>) -> ArrangerState<M> {
    match a {
        Arranger::Unordered => ArrangerState::Unordered,
        Arranger::Sequenced(s) => ArrangerState::Sequenced(s.newest()),
        Arranger::Ordered(o) => ArrangerState::Ordered(o.next(), o.held()),
    }
}

/// A reliable message receiver as plain values: its oldest unreceived index, its
/// record, the messages passed on and not yet handed over, and its arranger.
pub type MessageReceiverView<M> = (SeqNum, Seq<(SeqNum, bool)>, Seq<(SeqNum, M)>, ArrangerState<M>);

/// What a reliable message receiver makes of `item`: when it takes it (see `takes`),
/// the window moves past the received run, and the arranger passes the message on: at
/// once when unordered; when sequenced, unless it is older than the newest passed on;
/// when ordered, once every lower number has been passed on, with every held message
/// whose turn then comes (see `release`).
pub open spec fn message_step<M>(v: MessageReceiverView<M>, item: (SeqNum, M)) -> MessageReceiverView<M> {
    if takes(v.1, v.0, item.0) {
        let m = marked(v.1, v.0, forward_dist(v.0.0, item.0.0), item.0);
        let oldest = SeqNum(wrap16(v.0.0 + received_run(m)));
        let record = m.skip(received_run(m) as int);
        match v.3 {
            ArrangerState::Unordered => (oldest, record, v.2.push(item), ArrangerState::Unordered),
            ArrangerState::Sequenced(n) => if seq_ge(item.0, n) {
                (oldest, record, v.2.push(item), ArrangerState::Sequenced(item.0))
            } else {
                (oldest, record, v.2, ArrangerState::Sequenced(n))
            },
            ArrangerState::Ordered(next, held) => {
                let r = release(next, held.push(item), v.2);
                (oldest, record, r.2, ArrangerState::Ordered(r.0, r.1))
            },
        }
    } else {
        v
    }
}

/// `message_step` as a value.
pub open spec fn message_stepper<M>() -> spec_fn(MessageReceiverView<M>, (SeqNum, M)) -> MessageReceiverView<M> {
    |v: MessageReceiverView<M>, item: (SeqNum, M)| message_step(v, item)
}

/// The result of `step` over `items`, one after the other, from `v`.
pub open spec fn run_steps<V, I>(step: spec_fn(V, I) -> V, v: V, items: Seq<I>) -> V
    decreases items.len(),
{
    if items.len() == 0 {
        v
    } else {
        step(run_steps(step, v, items.drop_last()), items.last())
    }
}

/// One more step after a run.
pub proof fn lemma_run_steps_push<V, I>(step: spec_fn(V, I) -> V, v: V, items: Seq<I>, item: I)
    ensures
        run_steps(step, v, items.push(item)) == step(run_steps(step, v, items), item),
{
    assert(items.push(item).drop_last() =~= items);
}

/// Two runs of steps are the steps of both runs.
pub proof fn lemma_run_steps_concat<V, I>(step: spec_fn(V, I) -> V, v: V, first: Seq<I>, then: Seq<I>)
    ensures
        run_steps(step, run_steps(step, v, first), then) == run_steps(step, v, first + then),
    decreases then.len(),
{
    if then.len() == 0 {
        assert(first + then =~= first);
    } else {
        lemma_run_steps_concat(step, v, first, then.drop_last());
        assert((first + then).drop_last() =~= first + then.drop_last());
        assert((first + then).last() == then.last());
    }
}

/// Receives on a reliable channel: takes each message index once, and passes the
/// messages on through its arranger (see `Arranger`).
pub struct ReliableMessageReceiver<M> {
    reliable_receiver: ReliableReceiver<M>,
    incoming_messages: Vec<(SeqNum, M)>,
    arranger: Arranger<M>,
}

/// A reliable receiver that arranges as a sequenced channel does.
pub type SequencedReliableReceiver<M> = ReliableMessageReceiver<M>;

impl<M> ReliableMessageReceiver<M> {
    /// The receiver's internal invariant.
    pub closed spec fn wf(&self) -> bool {
        &&& self.reliable_receiver.wf()
        &&& self.reliable_receiver.incoming().len() == 0
        &&& arranger_ready(arranger_state(self.arranger))
    }

    /// A well-formed receiver's arranger holds no message whose turn has come.
    pub proof fn lemma_wf_arranger(&self)
        requires
            self.wf(),
        ensures
            arranger_ready(self.view().3),
    {
    }

    /// The receiver as plain values.
    pub closed spec fn view(&self) -> MessageReceiverView<M> {
        (
            self.reliable_receiver.oldest(),
            self.reliable_receiver.record(),
            self.incoming_messages@,
            arranger_state(self.arranger),
        )
    }

    /// Creates a receiver expecting message index 0 first, which passes the messages it
    /// takes on through `arranger`.
    pub fn with_arranger(arranger: Arranger<M>) -> (r: Self)
        requires
            arranger_ready(arranger_state(arranger)),
        ensures
            r.wf(),
            r.view() == (
                SeqNum(0),
                Seq::<(SeqNum, bool)>::empty(),
                Seq::<(SeqNum, M)>::empty(),
                arranger_state(arranger),
            ),
    {
        ReliableMessageReceiver { reliable_receiver: ReliableReceiver::new(), incoming_messages: Vec::new(), arranger }
    }

    /// Creates a receiver that arranges as a sequenced channel does, its newest index
    /// being 0.
    pub fn new() -> (r: Self)
        ensures
            r.wf(),
            r.view() == (
                SeqNum(0),
                Seq::<(SeqNum, bool)>::empty(),
                Seq::<(SeqNum, M)>::empty(),
                ArrangerState::<M>::Sequenced(SeqNum(0)),
            ),
    {
        Self::with_arranger(Arranger::Sequenced(SequencedArranger::new()))
    }

    /// Creates a receiver that passes messages on in the order of their numbers, each
    /// once every lower number has been passed on, starting at 0.
    pub fn ordered() -> (r: Self)
        ensures
            r.wf(),
            r.view() == (
                SeqNum(0),
                Seq::<(SeqNum, bool)>::empty(),
                Seq::<(SeqNum, M)>::empty(),
                ArrangerState::Ordered(SeqNum(0), Seq::<(SeqNum, M)>::empty()),
            ),
    {
        let arranger = OrderedArranger::new();
        Self::with_arranger(Arranger::Ordered(arranger))
    }

    /// Takes the message `message_index` when it is new (see `message_step`).
    pub fn buffer_message(&mut self, message_index: SeqNum, message: M)
        requires
            old(self).wf(),
        ensures
            final(self).wf(),
            final(self).view() == message_step(old(self).view(), (message_index, message)),
    {
        let ghost item = (message_index, message);
        let taken = self.reliable_receiver.buffer_message(message_index, message);
        let mut received = self.reliable_receiver.receive_messages();
        if taken {
            assert(received@ == seq![item]);
            let entry = received.pop();
            match entry {
                Some(e) => {
                    match &mut self.arranger {
                        Arranger::Unordered => {
                            self.incoming_messages.push(e);
                        },
                        Arranger::Sequenced(arranger) => {
                            arranger.process(&mut self.incoming_messages, e.0, e.1);
                        },
                        Arranger::Ordered(arranger) => {
                            arranger.process(&mut self.incoming_messages, e.0, e.1);
                        },
                    }
                },
                None => {},
            }
        }
    }

    /// Hands over the messages passed on, oldest first.
    pub fn receive_messages(&mut self) -> (r: Vec<(SeqNum, M)>)
        requires
            old(self).wf(),
        ensures
            final(self).wf(),
            r@ == old(self).view().2,
            final(self).view() == (old(self).view().0, old(self).view().1, Seq::<(SeqNum, M)>::empty(), old(self).view().3),
    {
        let mut out: Vec<(SeqNum, M)> = Vec::new();
        std::mem::swap(&mut out, &mut self.incoming_messages);
        out
    }
}

impl<M: Message> ReliableMessageReceiver<M> {
    /// Reads numbered messages framed by continuation bits, up to the closing bit (see
    /// `framed_run`), and takes each in turn; takes none when the bits hold no such run.
    pub fn read_messages(&mut self, reader: &mut BitReader) -> (r: Result<(), SerdeErr>)
        requires
            old(self).wf(),
            old(reader).wf(),
        ensures
            final(self).wf(),
            final(reader).wf(),
            final(reader).bits() == old(reader).bits(),
            match framed_run::<(SeqNum, M)>(old(reader).remaining()) {
                Some((items, n)) => r is Ok && final(reader).position() == old(reader).position() + n
                    && exists|msgs: Seq<(SeqNum, M)>| #[trigger] parsed_all(items, msgs) && final(self).view() == run_steps(
                    message_stepper(),
                    old(self).view(),
                    msgs,
                ),
                None => r is Err && *final(self) == *old(self),
            },
    {
        let msgs = match read_framed::<(SeqNum, M)>(reader) {
            Ok(v) => v,
            Err(e) => {
                return Err(e);
            },
        };
        let ghost all = msgs@;
        let mut rest = msgs;
        let ghost done: int = 0;
        proof {
            assert(all.take(0) =~= Seq::<(SeqNum, M)>::empty());
        }
        while rest.len() > 0
            invariant
                0 <= done <= all.len(),
                rest@ == all.skip(done),
                self.wf(),
                self.view() == run_steps(message_stepper(), old(self).view(), all.take(done)),
            decreases rest@.len(),
        {
            let item = rest.remove(0);
            let ghost it = item;
            proof {
                assert(item == all[done]);
                assert(all.skip(done).drop_first() =~= all.skip(done + 1));
                assert(all.take(done + 1) =~= all.take(done).push(item));
                lemma_run_steps_push(message_stepper(), old(self).view(), all.take(done), it);
            }
            self.buffer_message(item.0, item.1);
            proof {
                done = done + 1;
            }
        }
        proof {
            assert(all.take(done) =~= all);
        }
        Ok(())
    }
}

/// An ordered receiver passes messages on in the order of their numbers: whatever
/// arrives, the messages it passes on after taking it are numbered from its next number
/// on, one after the other, its next number then follows the last one passed on, and it
/// still holds no message with that number.
pub proof fn law_ordered_receipt_in_order<M>(v: MessageReceiverView<M>, item: (SeqNum, M))
    requires
        v.3 is Ordered,
        forall|k: int| 0 <= k < v.3->Ordered_1.len() ==> (#[trigger] v.3->Ordered_1[k]).0 != v.3->Ordered_0,
    ensures
        ({
            let w = message_step(v, item);
            let next = v.3->Ordered_0;
            &&& w.3 is Ordered
            &&& w.2.len() >= v.2.len()
            &&& w.2.take(v.2.len() as int) == v.2
            &&& forall|i: int| v.2.len() <= i < w.2.len() ==> (#[trigger] w.2[i]).0 == SeqNum(
                wrap16(next.0 + (i - v.2.len())),
            )
            &&& w.3->Ordered_0 == SeqNum(wrap16(next.0 + (w.2.len() - v.2.len())))
            &&& forall|k: int| 0 <= k < w.3->Ordered_1.len() ==> (#[trigger] w.3->Ordered_1[k]).0 != w.3->Ordered_0
        }),
{
    let next = v.3->Ordered_0;
    let held = v.3->Ordered_1;
    if takes(v.1, v.0, item.0) {
        crate::receivers::law_release_in_order(next, held.push(item), v.2);
    } else {
        assert(v.2.take(v.2.len() as int) =~= v.2);
        vstd::arithmetic::div_mod::lemma_small_mod(next.0 as nat, 65536);
    }
}

} // verus!
