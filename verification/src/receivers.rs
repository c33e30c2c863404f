//! Receiving sides of the unreliable channels, and the arrangers of the sequenced and
//! ordered reliable ones.
use vstd::prelude::*;
use std::collections::VecDeque;
use crate::seq_num::{SeqNum, seq_gt_spec, wrap16, lemma_wrap16_add};

verus! {

/// Whether `a` comes after `b` or is `b`.
pub open spec fn seq_ge(a: SeqNum, b: SeqNum) -> bool {
    a == b || seq_gt_spec(a.0, b.0)
}

/// Keeps only messages newer than every message passed on before.
pub struct SequencedArranger {
    newest_received_message_index: SeqNum,
}

impl SequencedArranger {
    /// The index of the newest message passed on.
    pub closed spec fn newest(&self) -> SeqNum {
        self.newest_received_message_index
    }

    /// Creates an arranger that has passed nothing on, its newest index being 0.
    pub fn new() -> (r: Self)
        ensures
            r.newest() == SeqNum(0),
    {
        SequencedArranger { newest_received_message_index: SeqNum(0) }
    }

    /// Passes the message on to `incoming_messages` if its index is not older than the
    /// newest passed on; drops it otherwise.
    pub fn process<M>(&mut self, incoming_messages: &mut Vec<(SeqNum, M)>, message_index: SeqNum, message: M)
        ensures
            seq_ge(message_index, old(self).newest()) ==> final(self).newest() == message_index
                && final(incoming_messages)@ == old(incoming_messages)@.push((message_index, message)),
            !seq_ge(message_index, old(self).newest()) ==> final(self).newest() == old(self).newest()
                && final(incoming_messages)@ == old(incoming_messages)@,
    {
        if message_index >= self.newest_received_message_index {
            self.newest_received_message_index = message_index;
            incoming_messages.push((message_index, message));
        }
    }
}

/// Receives on a sequenced unreliable channel: a message is kept only when it is newer
/// than every message kept before.
pub struct SequencedUnreliableReceiver<M> {
    newest_received_message_index: Option<SeqNum>,
    incoming_messages: Vec<M>,
}

impl<M> SequencedUnreliableReceiver<M> {
    /// The index of the newest message kept, if any.
    pub closed spec fn newest(&self) -> Option<SeqNum> {
        self.newest_received_message_index
    }

    /// The messages kept and not yet handed over.
    pub closed spec fn incoming(&self) -> Seq<M> {
        self.incoming_messages@
    }

    /// Creates a receiver that has kept nothing.
    pub fn new() -> (r: Self)
        ensures
            r.newest() is None,
            r.incoming() == Seq::<M>::empty(),
    {
        Self { newest_received_message_index: None, incoming_messages: Vec::new() }
    }

    /// Keeps the message if it is newer than every message kept before.
    pub fn buffer_message(&mut self, message_index: SeqNum, message: M)
        ensures
            (match old(self).newest() {
                Some(n) => seq_gt_spec(message_index.0, n.0),
                None => true,
            }) ==> final(self).newest() == Some(message_index) && final(self).incoming() == old(self).incoming().push(message),
            !(match old(self).newest() {
                Some(n) => seq_gt_spec(message_index.0, n.0),
                None => true,
            }) ==> final(self).newest() == old(self).newest() && final(self).incoming() == old(self).incoming(),
    {
        self.arrange_message(message_index, message);
    }

    /// Keeps the message if it is newer than every message kept before.
    pub fn arrange_message(&mut self, message_index: SeqNum, message: M)
        ensures
            (match old(self).newest() {
                Some(n) => seq_gt_spec(message_index.0, n.0),
                None => true,
            }) ==> final(self).newest() == Some(message_index) && final(self).incoming() == old(self).incoming().push(message),
            !(match old(self).newest() {
                Some(n) => seq_gt_spec(message_index.0, n.0),
                None => true,
            }) ==> final(self).newest() == old(self).newest() && final(self).incoming() == old(self).incoming(),
    {
        match self.newest_received_message_index {
            Some(most_recent_id) => {
                if message_index > most_recent_id {
                    self.incoming_messages.push(message);
                    self.newest_received_message_index = Some(message_index);
                }
            },
            None => {
                self.incoming_messages.push(message);
                self.newest_received_message_index = Some(message_index);
            },
        }
    }

    /// Hands over the kept messages, oldest first.
    pub fn receive_messages(&mut self) -> (r: Vec<M>)
        ensures
            r@ == old(self).incoming(),
            final(self).incoming() == Seq::<M>::empty(),
            final(self).newest() == old(self).newest(),
    {
        let mut out: Vec<M> = Vec::new();
        std::mem::swap(&mut out, &mut self.incoming_messages);
        out
    }
}

/// Receives on an unordered unreliable channel: every message is kept, and counted.
pub struct UnorderedUnreliableReceiver<M> {
    incoming_messages: VecDeque<M>,
    msg_rx_count: u64,
}

impl<M> UnorderedUnreliableReceiver<M> {
    /// The messages kept and not yet handed over.
    pub closed spec fn incoming(&self) -> Seq<M> {
        self.incoming_messages@
    }

    /// The number of messages received, wrapping.
    pub closed spec fn rx_count(&self) -> u64 {
        self.msg_rx_count
    }

    /// Creates a receiver that has received nothing.
    pub fn new() -> (r: Self)
        ensures
            r.incoming() == Seq::<M>::empty(),
            r.rx_count() == 0,
    {
        Self { incoming_messages: VecDeque::new(), msg_rx_count: 0 }
    }

    /// Keeps a received message.
    pub fn recv_message(&mut self, message: M)
        ensures
            final(self).incoming() == old(self).incoming().push(message),
            final(self).rx_count() == (old(self).rx_count() + 1) % 0x1_0000_0000_0000_0000,
    {
        self.msg_rx_count = self.msg_rx_count.wrapping_add(1);
        self.incoming_messages.push_back(message);
    }

    /// Hands over the kept messages, oldest first.
    pub fn receive_messages(&mut self) -> (r: Vec<M>)
        ensures
            r@ == old(self).incoming(),
            final(self).incoming() == Seq::<M>::empty(),
            final(self).rx_count() == old(self).rx_count(),
    {
        let mut out: Vec<M> = Vec::new();
        while self.incoming_messages.len() > 0
            invariant
                out@ + self.incoming_messages@ == old(self).incoming(),
                self.msg_rx_count == old(self).msg_rx_count,
            decreases self.incoming_messages@.len(),
        {
            let ghost before = self.incoming_messages@;
            match self.incoming_messages.pop_front() {
                Some(m) => {
                    out.push(m);
                    assert(out@ + self.incoming_messages@ =~= old(self).incoming());
                },
                None => {},
            }
        }
        assert(out@ =~= old(self).incoming());
        out
    }

    /// The number of messages received, wrapping.
    pub fn msg_rx_count(&self) -> (r: u64)
        ensures
            r == self.rx_count(),
    {
        self.msg_rx_count
    }

    /// The number of received messages dropped: none on this channel.
    pub fn msg_rx_drop_count(&self) -> (r: u64)
        ensures
            r == 0,
    {
        0
    }

    /// The number of messages missed: none counted on this channel.
    pub fn msg_rx_miss_count(&self) -> (r: u64)
        ensures
            r == 0,
    {
        0
    }
}

/// The position of the first message numbered `index` in `held` from position `j` on.
pub open spec fn first_from<M>(held: Seq<(SeqNum, M)>, index: SeqNum, j: int) -> Option<int>
    decreases held.len() - j,
{
    if j < 0 || j >= held.len() {
        None
    } else if held[j].0 == index {
        Some(j)
    } else {
        first_from(held, index, j + 1)
    }
}

/// Where `first_from` finds a message, it is numbered `index`, and none before it from
/// `j` on is.
pub proof fn lemma_first_from<M>(held: Seq<(SeqNum, M)>, index: SeqNum, j: int)
    requires
        0 <= j,
    ensures
        first_from(held, index, j) matches Some(i) ==> j <= i < held.len() && held[i].0 == index,
        first_from(held, index, j) is None ==> forall|k: int| j <= k < held.len() ==> (#[trigger] held[k]).0 != index,
    decreases held.len() - j,
{
    if j < held.len() && held[j].0 != index {
        lemma_first_from(held, index, j + 1);
    }
}

/// What an ordered arranger releases from the messages it holds, starting with `next`:
/// the message numbered `next`, then the one numbered one more, and so on, each moved
/// from `held` to the end of `out`, up to the first number it does not hold. Gives the
/// next number to release, what stays held, and `out` with the released messages.
pub open spec fn release<M>(next: SeqNum, held: Seq<(SeqNum, M)>, out: Seq<(SeqNum, M)>) -> (
    SeqNum,
    Seq<(SeqNum, M)>,
    Seq<(SeqNum, M)>,
)
    decreases held.len(),
{
    match first_from(held, next, 0) {
        Some(i) => if 0 <= i < held.len() {
            release(SeqNum(wrap16(next.0 + 1)), held.remove(i), out.push(held[i]))
        } else {
            (next, held, out)
        },
        None => (next, held, out),
    }
}

/// Messages come out of an ordered arranger in order: what a release appends to `out`
/// is numbered `next`, `next + 1`, ... one after the other, the next number to release
/// follows the last one appended, and no message held afterwards carries it.
pub proof fn law_release_in_order<M>(next: SeqNum, held: Seq<(SeqNum, M)>, out: Seq<(SeqNum, M)>)
    ensures
        ({
            let r = release(next, held, out);
            &&& r.2.len() >= out.len()
            &&& r.2.take(out.len() as int) == out
            &&& forall|i: int| out.len() <= i < r.2.len() ==> (#[trigger] r.2[i]).0 == SeqNum(
                wrap16(next.0 + (i - out.len())),
            )
            &&& r.0 == SeqNum(wrap16(next.0 + (r.2.len() - out.len())))
            &&& forall|k: int| 0 <= k < r.1.len() ==> (#[trigger] r.1[k]).0 != r.0
        }),
    decreases held.len(),
{
    lemma_first_from(held, next, 0);
    match first_from(held, next, 0) {
        Some(i) => {
            let next2 = SeqNum(wrap16(next.0 + 1));
            let out2 = out.push(held[i]);
            law_release_in_order(next2, held.remove(i), out2);
            let r = release(next, held, out);
            assert(r == release(next2, held.remove(i), out2));
            assert(r.2.take(out2.len() as int) == out2);
            assert(r.2.take(out.len() as int) =~= out) by {
                assert forall|k: int| 0 <= k < out.len() implies r.2[k] == out[k] by {
                    assert(r.2.take(out2.len() as int)[k] == out2[k]);
                }
            }
            assert forall|j: int| out.len() <= j < r.2.len() implies (#[trigger] r.2[j]).0 == SeqNum(
                wrap16(next.0 + (j - out.len())),
            ) by {
                if j == out.len() {
                    assert(r.2.take(out2.len() as int)[j] == out2[j]);
                    assert(wrap16(next.0 + 0) == next.0) by {
                        vstd::arithmetic::div_mod::lemma_small_mod(next.0 as nat, 65536);
                    }
                } else {
                    lemma_wrap16_add(next.0 + 1, j - out2.len());
                    lemma_wrap16_add(next.0 as int, 1);
                    vstd::arithmetic::div_mod::lemma_small_mod(next.0 as nat, 65536);
                    assert(wrap16(wrap16(next.0 + 1) + (j - out2.len())) == wrap16(next.0 + 1 + (j - out2.len())));
                }
            }
            lemma_wrap16_add(next.0 + 1, r.2.len() - out2.len());
            assert(wrap16(wrap16(next.0 + 1) + (r.2.len() - out2.len())) == wrap16(next.0 + 1 + (r.2.len() - out2.len())));
        },
        None => {
            vstd::arithmetic::div_mod::lemma_small_mod(next.0 as nat, 65536);
            assert(out.take(out.len() as int) =~= out);
        },
    }
}

/// The position of the first message numbered `index` in `held`.
fn find_held<M>(held: &Vec<(SeqNum, M)>, index: SeqNum) -> (r: Option<usize>)
    ensures
        match r {
            Some(i) => first_from(held@, index, 0) == Some(i as int),
            None => first_from(held@, index, 0) is None,
        },
{
    let mut j: usize = 0;
    while j < held.len()
        invariant
            j <= held@.len(),
            first_from(held@, index, 0) == first_from(held@, index, j as int),
        decreases held@.len() - j,
    {
        if held[j].0 == index {
            return Some(j);
        }
        j = j + 1;
    }
    None
}

/// Holds messages that arrive ahead of their turn, and passes them on in order of their
/// numbers, each once every lower number has been passed on.
pub struct OrderedArranger<M> {
    next_message_index: SeqNum,
    held_messages: Vec<(SeqNum, M)>,
}

impl<M> OrderedArranger<M> {
    /// The number of the next message to pass on.
    pub closed spec fn next(&self) -> SeqNum {
        self.next_message_index
    }

    /// The messages held until their turn, in the order they came.
    pub closed spec fn held(&self) -> Seq<(SeqNum, M)> {
        self.held_messages@
    }

    /// The arranger holds no message whose turn has come.
    pub open spec fn ready(&self) -> bool {
        forall|k: int| 0 <= k < self.held().len() ==> (#[trigger] self.held()[k]).0 != self.next()
    }

    /// Creates an arranger that expects message 0 first and holds nothing.
    pub fn new() -> (r: Self)
        ensures
            r.ready(),
            r.next() == SeqNum(0),
            r.held() == Seq::<(SeqNum, M)>::empty(),
    {
        OrderedArranger { next_message_index: SeqNum(0), held_messages: Vec::new() }
    }

    /// Holds the message, then passes on to `incoming_messages` every message whose turn
    /// has come (see `release`).
    pub fn process(&mut self, incoming_messages: &mut Vec<(SeqNum, M)>, message_index: SeqNum, message: M)
        ensures
            ({
                let r = release(old(self).next(), old(self).held().push((message_index, message)), old(incoming_messages)@);
                &&& final(self).next() == r.0
                &&& final(self).held() == r.1
                &&& final(incoming_messages)@ == r.2
            }),
            final(self).ready(),
    {
        let ghost target = release(self.next(), self.held().push((message_index, message)), incoming_messages@);
        self.held_messages.push((message_index, message));
        loop
            invariant
                release(self.next(), self.held(), incoming_messages@) == target,
            ensures
                release(self.next(), self.held(), incoming_messages@) == target,
                first_from(self.held(), self.next(), 0) is None,
            decreases self.held().len(),
        {
            match find_held(&self.held_messages, self.next_message_index) {
                None => {
                    break;
                },
                Some(i) => {
                    proof {
                        lemma_first_from(self.held(), self.next(), 0);
                    }
                    let entry = self.held_messages.remove(i);
                    incoming_messages.push(entry);
                    self.next_message_index.incr();
                },
            }
        }
        assert(release(self.next(), self.held(), incoming_messages@) == (self.next(), self.held(), incoming_messages@));
        proof {
            lemma_first_from(self.held(), self.next(), 0);
        }
    }
}

} // verus!
