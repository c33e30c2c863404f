//! The send times of recent pings, kept until their pongs come back.
use vstd::prelude::*;
use std::collections::VecDeque;
use std::time::Instant;
use crate::seq_num::{SeqNum, lemma_wrap16_add, seq_diff_spec, seq_gt_spec, wrap16};

verus! {

/// The number of pings remembered.
pub const SENT_PINGS_HISTORY_SIZE: u16 = 32;

/// Where `remove(p)` finds the ping `p`, looking from the oldest of the first `n`
/// entries towards the newest and giving up at a newer ping than `p`.
pub open spec fn ping_search(s: Seq<(SeqNum, Instant)>, p: SeqNum, n: int) -> Option<int>
    decreases n,
{
    if n <= 0 {
        None
    } else if s[n - 1].0 == p {
        Some(n - 1)
    } else if seq_gt_spec(s[n - 1].0.0, p.0) {
        None
    } else {
        ping_search(s, p, n - 1)
    }
}

proof fn lemma_ping_search_range(s: Seq<(SeqNum, Instant)>, p: SeqNum, n: int)
    ensures
        ping_search(s, p, n) matches Some(i) ==> 0 <= i < n && s[i].0 == p,
    decreases n,
{
    if n > 0 {
        lemma_ping_search_range(s, p, n - 1);
    }
}

/// Whether the ping at position `i` of `s` is the one `remove(p)` finds: it carries `p`,
/// and every ping between it and the oldest end of `s` carries neither `p` nor a number
/// newer than `p`.
pub open spec fn found_at(s: Seq<(SeqNum, Instant)>, p: SeqNum, i: int) -> bool {
    &&& 0 <= i < s.len()
    &&& s[i].0 == p
    &&& forall|k: int| i < k < s.len() ==> (#[trigger] s[k]).0 != p && !seq_gt_spec(s[k].0.0, p.0)
}

/// The search `remove` makes finds exactly the ping described by `found_at`, looking at
/// the first `n` pings.
proof fn lemma_ping_search_finds(s: Seq<(SeqNum, Instant)>, p: SeqNum, n: int)
    requires
        0 <= n <= s.len(),
    ensures
        forall|i: int| #[trigger] found_at(s.take(n), p, i) ==> ping_search(s, p, n) == Some(i),
        ping_search(s, p, n) matches Some(i) ==> found_at(s.take(n), p, i),
    decreases n,
{
    if n > 0 {
        lemma_ping_search_finds(s, p, n - 1);
        let t = s.take(n);
        let t1 = s.take(n - 1);
        assert forall|i: int| #[trigger] found_at(t, p, i) implies ping_search(s, p, n) == Some(i) by {
            if i < n - 1 {
                assert(t[n - 1] == s[n - 1]);
                assert(s[n - 1].0 != p && !seq_gt_spec(s[n - 1].0.0, p.0));
                assert(found_at(t1, p, i)) by {
                    assert forall|k: int| i < k < t1.len() implies (#[trigger] t1[k]).0 != p && !seq_gt_spec(t1[k].0.0, p.0) by {
                        assert(t1[k] == t[k]);
                    }
                }
            }
        }
        match ping_search(s, p, n) {
            Some(i) => {
                if i < n - 1 {
                    assert(found_at(t1, p, i));
                    assert forall|k: int| i < k < t.len() implies (#[trigger] t[k]).0 != p && !seq_gt_spec(t[k].0.0, p.0) by {
                        if k < n - 1 {
                            assert(t1[k] == t[k]);
                        }
                    }
                }
            },
            None => {},
        }
    }
}

/// `remove(p)` finds every remembered ping it should: the ping at position `i` that
/// carries `p`, with no ping carrying `p` or a newer number between it and the oldest
/// end, is the one given back; and anything given back is such a ping.
pub proof fn law_remove_finds(s: Seq<(SeqNum, Instant)>, p: SeqNum)
    ensures
        forall|i: int| #[trigger] found_at(s, p, i) ==> ping_search(s, p, s.len() as int) == Some(i),
        ping_search(s, p, s.len() as int) matches Some(i) ==> found_at(s, p, i),
{
    lemma_ping_search_finds(s, p, s.len() as int);
    assert(s.take(s.len() as int) =~= s);
}

/// Numbers pings and remembers when the most recent ones were sent, newest first.
pub struct PingStore {
    ping_index: SeqNum,
    buffer: VecDeque<(SeqNum, Instant)>,
}

impl PingStore {
    /// The index the next ping gets.
    pub closed spec fn next_index(&self) -> SeqNum {
        self.ping_index
    }

    /// The remembered pings, newest first.
    pub closed spec fn pings(&self) -> Seq<(SeqNum, Instant)> {
        self.buffer@
    }

    /// Creates a store that has sent no pings.
    pub fn new() -> (r: Self)
        ensures
            r.next_index() == SeqNum(0),
            r.pings() == Seq::<(SeqNum, Instant)>::empty(),
    {
        PingStore { ping_index: SeqNum(0), buffer: VecDeque::new() }
    }

    /// Records a ping sent at `now` under the next index, forgetting the oldest pings
    /// beyond the history size, and returns the index.
    pub fn push_new(&mut self, now: Instant) -> (r: SeqNum)
        ensures
            r == old(self).next_index(),
            final(self).next_index().0 == wrap16(old(self).next_index().0 + 1),
            final(self).pings().len() <= SENT_PINGS_HISTORY_SIZE,
            final(self).pings() == (seq![(r, now)] + old(self).pings()).take(
                if old(self).pings().len() + 1 > SENT_PINGS_HISTORY_SIZE {
                    SENT_PINGS_HISTORY_SIZE as int
                } else {
                    old(self).pings().len() + 1int
                },
            ),
    {
        let ping_index = self.ping_index;
        self.ping_index.incr();
        self.buffer.push_front((ping_index, now));
        let ghost all = self.buffer@;
        while self.buffer.len() > SENT_PINGS_HISTORY_SIZE as usize
            invariant
                self.ping_index.0 == wrap16(old(self).ping_index.0 + 1),
                all.len() >= self.buffer@.len(),
                self.buffer@ == all.take(self.buffer@.len() as int),
                all.len() > SENT_PINGS_HISTORY_SIZE ==> self.buffer@.len() >= SENT_PINGS_HISTORY_SIZE,
                all.len() <= SENT_PINGS_HISTORY_SIZE ==> self.buffer@.len() == all.len(),
            decreases self.buffer@.len(),
        {
            self.buffer.pop_back();
            assert(self.buffer@ =~= all.take(self.buffer@.len() as int));
        }
        ping_index
    }

    /// Forgets the ping `ping_index` and returns when it was sent, if it is remembered;
    /// the search goes from the oldest ping and stops at a newer one.
    pub fn remove(&mut self, ping_index: SeqNum) -> (r: Option<Instant>)
        ensures
            final(self).next_index() == old(self).next_index(),
            match ping_search(old(self).pings(), ping_index, old(self).pings().len() as int) {
                Some(i) => r == Some(old(self).pings()[i].1) && final(self).pings() == old(
                    self).pings().remove(i),
                None => r is None && final(self).pings() == old(self).pings(),
            },
            forall|i: int| #[trigger] found_at(old(self).pings(), ping_index, i) ==> r == Some(old(self).pings()[i].1)
                && final(self).pings() == old(self).pings().remove(i),
            r matches Some(t) ==> exists|i: int| #[trigger] found_at(old(self).pings(), ping_index, i) && old(self).pings()[i].1 == t,
    {
        proof {
            law_remove_finds(self.buffer@, ping_index);
        }
        let mut vec_index = self.buffer.len();
        if vec_index == 0 {
            return None;
        }
        let ghost s = self.buffer@;
        loop
            invariant
                s == self.buffer@,
                s == old(self).pings(),
                self.ping_index == old(self).ping_index,
                0 < vec_index <= s.len(),
                forall|i: int| #[trigger] found_at(s, ping_index, i) ==> ping_search(s, ping_index, s.len() as int) == Some(i),
                ping_search(s, ping_index, s.len() as int) matches Some(i) ==> found_at(s, ping_index, i),
                ping_search(s, ping_index, s.len() as int) == ping_search(s, ping_index, vec_index as int),
            decreases vec_index,
        {
            vec_index = vec_index - 1;
            let entry = self.buffer[vec_index];
            if entry.0 == ping_index {
                proof {
                    lemma_ping_search_range(s, ping_index, vec_index as int + 1);
                }
                let removed = self.buffer.remove(vec_index);
                return match removed {
                    Some(e) => Some(e.1),
                    None => None,
                };
            } else if entry.0 > ping_index {
                return None;
            }
            if vec_index == 0 {
                return None;
            }
        }
    }

    /// Forgets every remembered ping.
    pub fn clear(&mut self)
        ensures
            final(self).next_index() == old(self).next_index(),
            final(self).pings() == Seq::<(SeqNum, Instant)>::empty(),
    {
        self.buffer.clear();
    }
}

/// Every remembered ping lies between 1 and 32766 numbers behind `next`.
pub open spec fn pings_behind(pings: Seq<(SeqNum, Instant)>, next: SeqNum) -> bool {
    forall|i: int| 0 <= i < pings.len() ==> 1 <= #[trigger] seq_diff_spec(next.0, pings[i].0.0) <= 32766
}

proof fn lemma_search_reaches_front(s: Seq<(SeqNum, Instant)>, p: SeqNum, n: int)
    requires
        1 <= n <= s.len(),
        s[0].0 == p,
        forall|k: int| 1 <= k < n ==> (#[trigger] s[k]).0 != p && !seq_gt_spec(s[k].0.0, p.0),
    ensures
        ping_search(s, p, n) == Some(0int),
    decreases n,
{
    if n > 1 {
        lemma_search_reaches_front(s, p, n - 1);
    }
}

/// A ping just recorded is found by the index `push_new` returned, so `remove` gives
/// back its send time, as long as every ping remembered before lies less than half the
/// number range behind it.
pub proof fn law_pushed_ping_found(pings: Seq<(SeqNum, Instant)>, next: SeqNum, now: Instant)
    requires
        pings_behind(pings, next),
    ensures
        ({
            let all = seq![(next, now)] + pings;
            let after = all.take(
                if pings.len() + 1 > SENT_PINGS_HISTORY_SIZE {
                    SENT_PINGS_HISTORY_SIZE as int
                } else {
                    pings.len() + 1int
                },
            );
            &&& ping_search(after, next, after.len() as int) == Some(0int)
            &&& after[0].1 == now
        }),
{
    let all = seq![(next, now)] + pings;
    let after = all.take(
        if pings.len() + 1 > SENT_PINGS_HISTORY_SIZE {
            SENT_PINGS_HISTORY_SIZE as int
        } else {
            pings.len() + 1int
        },
    );
    assert forall|k: int| 1 <= k < after.len() implies (#[trigger] after[k]).0 != next && !seq_gt_spec(after[k].0.0, next.0) by {
        assert(after[k] == pings[k - 1]);
        assert(1 <= seq_diff_spec(next.0, pings[k - 1].0.0) <= 32766);
    }
    lemma_search_reaches_front(after, next, after.len() as int);
}

/// A call on a ping store: a push of a ping sent at some time, a removal, or a clear.
pub enum PingCall {
    Push(Instant),
    Remove(SeqNum),
    Clear,
}

/// `post` is `pre` after `call`, as far as the numbering goes: a push hands out
/// `pre`'s next index and moves it on by one; a removal or a clear keeps it.
pub open spec fn numbered_step(pre: PingStore, post: PingStore, call: PingCall, handed: Option<SeqNum>) -> bool {
    match call {
        PingCall::Push(_) => handed == Some(pre.next_index()) && post.next_index().0 == wrap16(
            pre.next_index().0 + 1,
        ),
        _ => handed is None && post.next_index() == pre.next_index(),
    }
}

/// The number of pushes among `calls`.
pub open spec fn push_count(calls: Seq<PingCall>) -> nat
    decreases calls.len(),
{
    if calls.len() == 0 {
        0
    } else {
        push_count(calls.drop_last()) + if calls.last() is Push { 1nat } else { 0nat }
    }
}

/// Pings are numbered by the order of their pushes: through any run of calls from a new
/// store, each push hands out the number of pushes before it, modulo 65536, whatever
/// removals and clears came between.
pub proof fn law_pushes_numbered_in_order(
    states: Seq<PingStore>,
    calls: Seq<PingCall>,
    handed: Seq<Option<SeqNum>>,
    n: int,
)
    requires
        states.len() == calls.len() + 1,
        handed.len() == calls.len(),
        states[0].next_index() == SeqNum(0),
        forall|i: int| 0 <= i < calls.len() ==> numbered_step(#[trigger] states[i], states[i + 1], calls[i], handed[i]),
        0 <= n < calls.len(),
    ensures
        states[n].next_index().0 == wrap16(push_count(calls.take(n)) as int),
        calls[n] is Push ==> handed[n] == Some(SeqNum(wrap16(push_count(calls.take(n)) as int))),
    decreases n,
{
    if n > 0 {
        law_pushes_numbered_in_order(states, calls, handed, n - 1);
        let prev = push_count(calls.take(n - 1));
        assert(calls.take(n).drop_last() =~= calls.take(n - 1));
        assert(calls.take(n).last() == calls[n - 1]);
        assert(numbered_step(states[n - 1], states[n], calls[n - 1], handed[n - 1]));
        if calls[n - 1] is Push {
            lemma_wrap16_add(prev as int, 1);
        }
    } else {
        assert(calls.take(0).len() == 0);
    }
}

} // verus!
