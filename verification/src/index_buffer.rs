//! Circular buffers of values indexed by sequence number.
use vstd::prelude::*;
use std::collections::VecDeque;
use crate::seq_num::{SeqNum, seq_diff_spec, seq_gt_spec, wrap16, lemma_wrap16_add};

verus! {

/// Whether `a` comes before `b` in the circular order of sequence numbers.
pub open spec fn seq_lt(a: SeqNum, b: SeqNum) -> bool {
    a.0 != b.0 && !seq_gt_spec(a.0, b.0)
}

/// Calls `VecDeque::get_mut`, which, as std documents, gives the element at `i` when
/// `i` is below the length, and `None` otherwise.
#[verifier::external_body]
pub(crate) fn deque_get_mut<T>(v: &mut VecDeque<T>, i: usize) -> (r: Option<&mut T>)
    ensures
        i < old(v)@.len() ==> (r matches Some(e) && *e == old(v)@[i as int] && final(v)@ == old(v)@.update(i as int, *final(e))),
        i >= old(v)@.len() ==> r is None && final(v)@ == old(v)@,
{
    v.get_mut(i)
}

/// The number of values that `trim_lt` drops from a buffer starting at `start` with
/// `len` values: values are dropped from the front while the first index comes before
/// `index`.
pub open spec fn trim_count(start: SeqNum, len: nat, index: SeqNum) -> nat
    decreases len,
{
    if len == 0 || !seq_lt(start, index) {
        0
    } else {
        1 + trim_count(SeqNum(wrap16(start.0 + 1)), (len - 1) as nat, index)
    }
}

/// A buffer of values with consecutive sequence numbers; the value at position `n` has
/// the sequence number `start + n`. When `MAX_SIZE` is not 0 the buffer keeps at most
/// `MAX_SIZE` values, dropping the oldest.
pub struct IndexBuffer<V, const MAX_SIZE: usize> {
    buffer: VecDeque<V>,
    start: SeqNum,
}

impl<V, const MAX_SIZE: usize> IndexBuffer<V, MAX_SIZE> {
    /// The sequence number of the first value.
    pub closed spec fn spec_start(&self) -> SeqNum {
        self.start
    }

    /// The values, oldest first.
    pub closed spec fn values(&self) -> Seq<V> {
        self.buffer@
    }

    /// Creates an empty buffer starting at sequence number 0.
    pub fn new() -> (r: Self)
        ensures
            r.spec_start() == SeqNum(0),
            r.values() == Seq::<V>::empty(),
    {
        Self::with_start(SeqNum(0))
    }

    /// Creates an empty buffer starting at `start`.
    pub fn with_start(start: SeqNum) -> (r: Self)
        ensures
            r.spec_start() == start,
            r.values() == Seq::<V>::empty(),
    {
        Self { buffer: VecDeque::new(), start }
    }

    /// The sequence number of the first value.
    pub fn start_index(&self) -> (r: SeqNum)
        ensures
            r == self.spec_start(),
    {
        self.start
    }

    /// The sequence number of the last value (`start - 1` when empty), wrapping.
    pub fn last_index(&self) -> (r: SeqNum)
        ensures
            r.0 == wrap16(self.spec_start().0 + self.values().len() - 1),
    {
        let n: u16 = (self.buffer.len() % 65536) as u16;
        self.start.plus(n).minus(1)
    }

    /// The number of values.
    pub fn len(&self) -> (r: usize)
        ensures
            r == self.values().len(),
    {
        self.buffer.len()
    }

    /// Appends a value; when the buffer is bounded and full, drops the first value.
    pub fn push_back(&mut self, value: V)
        ensures
            (MAX_SIZE > 0 && old(self).values().len() == MAX_SIZE) ==> (final(self).values()
                == old(self).values().drop_first().push(value) && final(self).spec_start().0
                == wrap16(old(self).spec_start().0 + 1)),
            !(MAX_SIZE > 0 && old(self).values().len() == MAX_SIZE) ==> (final(self).values()
                == old(self).values().push(value) && final(self).spec_start() == old(self).spec_start()),
    {
        if MAX_SIZE > 0 && self.buffer.len() == MAX_SIZE {
            self.pop_front();
        }
        self.buffer.push_back(value);
    }

    /// Removes the first value; the start moves on by one even when the buffer is empty.
    pub fn pop_front(&mut self) -> (r: Option<V>)
        ensures
            final(self).spec_start().0 == wrap16(old(self).spec_start().0 + 1),
            old(self).values().len() > 0 ==> r == Some(old(self).values()[0])
                && final(self).values() == old(self).values().drop_first(),
            old(self).values().len() == 0 ==> r is None && final(self).values() == old(self).values(),
    {
        self.start.incr();
        self.buffer.pop_front()
    }

    /// Drops values from the front while the first sequence number comes before `index`.
    pub fn trim_lt(&mut self, index: SeqNum)
        ensures
            final(self).values().len() == 0 || !seq_lt(final(self).spec_start(), index),
            !seq_lt(old(self).spec_start(), index) ==> final(self).values() == old(self).values()
                && final(self).spec_start() == old(self).spec_start(),
            final(self).values() == old(self).values().skip(
                trim_count(old(self).spec_start(), old(self).values().len(), index) as int,
            ),
            final(self).spec_start().0 == wrap16(
                old(self).spec_start().0 + trim_count(
                    old(self).spec_start(),
                    old(self).values().len(),
                    index,
                ),
            ),
    {
        let ghost k0 = trim_count(old(self).spec_start(), old(self).values().len(), index);
        let ghost dropped: nat = 0;
        while self.buffer.len() != 0 && self.start < index
            invariant
                dropped + self.values().len() == old(self).values().len(),
                self.values() == old(self).values().skip(dropped as int),
                self.spec_start().0 == wrap16(old(self).spec_start().0 + dropped),
                dropped + trim_count(self.spec_start(), self.values().len(), index) == k0,
            decreases self.values().len(),
        {
            let ghost s0 = self.spec_start();
            self.pop_front();
            proof {
                lemma_wrap16_add(old(self).spec_start().0 + dropped, 1);
                assert(trim_count(s0, (self.values().len() + 1) as nat, index) == 1 + trim_count(
                    self.spec_start(),
                    self.values().len(),
                    index,
                ));
                dropped = dropped + 1;
                assert(self.values() =~= old(self).values().skip(dropped as int));
            }
        }
    }

    /// The values paired with their sequence numbers, oldest first.
    pub fn iter(&self) -> (r: Vec<(SeqNum, &V)>)
        ensures
            r@.len() == self.values().len(),
            forall|i: int| 0 <= i < r@.len() ==> (#[trigger] r@[i]).0.0 == wrap16(self.spec_start().0 + i)
                && r@[i].1 == self.values()[i],
    {
        let mut out: Vec<(SeqNum, &V)> = Vec::new();
        let mut i: usize = 0;
        while i < self.buffer.len()
            invariant
                i <= self.values().len(),
                out@.len() == i,
                forall|j: int| 0 <= j < i ==> (#[trigger] out@[j]).0.0 == wrap16(self.spec_start().0 + j)
                    && out@[j].1 == self.values()[j],
            decreases self.values().len() - i,
        {
            let n: u16 = (i % 65536) as u16;
            out.push((self.start.plus(n), &self.buffer[i]));
            i = i + 1;
        }
        out
    }
}

} // verus!

verus! {

/// The length of the run at the front of `s` of filled slots (`filled`) or of empty
/// slots (`!filled`).
pub open spec fn leading_run<V>(s: Seq<Option<V>>, filled: bool) -> nat
    decreases s.len(),
{
    if s.len() == 0 || (s[0] is Some) != filled {
        0
    } else {
        1 + leading_run(s.drop_first(), filled)
    }
}

/// The run at the front of `s`: its length if the slots are filled, minus its length if
/// they are empty.
pub open spec fn depth_of<V>(s: Seq<Option<V>>) -> int {
    if s.len() > 0 && s[0] is Some {
        leading_run(s, true) as int
    } else {
        -leading_run(s, false)
    }
}

/// A prefix of `k` slots of one kind, followed by the end or by a slot of the other
/// kind, is the whole leading run; a longer prefix of one kind makes it at least `k`.
pub proof fn lemma_leading_run<V>(s: Seq<Option<V>>, filled: bool, k: int)
    requires
        0 <= k <= s.len(),
        forall|j: int| 0 <= j < k ==> (#[trigger] s[j] is Some) == filled,
    ensures
        leading_run(s, filled) >= k,
        (k == s.len() || (s[k] is Some) != filled) ==> leading_run(s, filled) == k,
    decreases k,
{
    if k > 0 {
        assert forall|j: int| 0 <= j < k - 1 implies (#[trigger] s.drop_first()[j] is Some) == filled by {
            assert(s.drop_first()[j] == s[j + 1]);
        }
        lemma_leading_run(s.drop_first(), filled, k - 1);
        if k < s.len() {
            assert(s.drop_first()[k - 1] == s[k]);
        }
    }
}

/// What inserting `value` at `idx` into the slots `s`, starting at `start`, gives: whether
/// the value was taken, and the slots after.
pub open spec fn sparse_insert<V>(s: Seq<Option<V>>, start: SeqNum, idx: SeqNum, value: V, max_size: nat) -> (bool, Seq<Option<V>>) {
    let d = seq_diff_spec(idx.0, start.0);
    if seq_lt(idx, start) || (max_size > 0 && (d < 0 || d >= max_size)) {
        (false, s)
    } else if d < s.len() {
        if s[d] is None {
            (true, s.update(d, Some(value)))
        } else {
            (false, s)
        }
    } else {
        (true, s + Seq::new((d - s.len()) as nat, |i: int| None::<V>) + seq![Some(value)])
    }
}

/// A value that was taken is then in its slot, where `get_mut` finds it, and inserting
/// at the same sequence number again is refused.
pub proof fn law_inserted_value_is_found<V>(s: Seq<Option<V>>, start: SeqNum, idx: SeqNum, value: V, other: V, max_size: nat)
    requires
        max_size > 0 || seq_lt(idx, start) || seq_diff_spec(idx.0, start.0) >= 0,
        sparse_insert(s, start, idx, value, max_size).0,
    ensures
        ({
            let d = seq_diff_spec(idx.0, start.0);
            let after = sparse_insert(s, start, idx, value, max_size).1;
            &&& !seq_lt(idx, start)
            &&& 0 <= d < after.len()
            &&& after[d] == Some(value)
            &&& sparse_insert(after, start, idx, other, max_size) == (false, after)
        }),
{
}

/// A buffer of slots with consecutive sequence numbers, filled out of order; slot `n`
/// holds the value with sequence number `start + n`, if it has arrived. Inserting past
/// the end opens empty slots for the numbers skipped. When `MAX_SIZE` is not 0, values
/// `MAX_SIZE` or more ahead of the start are refused.
pub struct SparseIndexBuffer<V, const MAX_SIZE: usize> {
    buffer: VecDeque<Option<V>>,
    start: SeqNum,
}

impl<V, const MAX_SIZE: usize> SparseIndexBuffer<V, MAX_SIZE> {
    /// The sequence number of the first slot.
    pub closed spec fn spec_start(&self) -> SeqNum {
        self.start
    }

    /// The slots, oldest first.
    pub closed spec fn slots(&self) -> Seq<Option<V>> {
        self.buffer@
    }

    /// Creates an empty buffer starting at sequence number 0.
    pub fn new() -> (r: Self)
        ensures
            r.spec_start() == SeqNum(0),
            r.slots() == Seq::<Option<V>>::empty(),
    {
        Self::with_start(SeqNum(0))
    }

    /// Creates an empty buffer starting at `start`.
    pub fn with_start(start: SeqNum) -> (r: Self)
        ensures
            r.spec_start() == start,
            r.slots() == Seq::<Option<V>>::empty(),
    {
        Self { buffer: VecDeque::new(), start }
    }

    /// How many values are ready at the front (positive), or how many are missing there
    /// (negative).
    pub fn buffer_depth(&self) -> (r: i16)
        requires
            leading_run(self.slots(), true) <= 32767,
            leading_run(self.slots(), false) <= 32768,
        ensures
            r == depth_of(self.slots()),
    {
        let ghost s = self.slots();
        let ghost first_filled = s.len() > 0 && s[0] is Some;
        let mut depth: i16 = 0;
        let mut i: usize = 0;
        while i < self.buffer.len()
            invariant_except_break
                i <= s.len(),
                s == self.slots(),
                leading_run(s, true) <= 32767,
                leading_run(s, false) <= 32768,
                first_filled == (s.len() > 0 && s[0] is Some),
                forall|j: int| 0 <= j < i ==> (#[trigger] s[j] is Some) == first_filled,
                depth == (if first_filled { i as int } else { -(i as int) }),
            ensures
                i <= s.len(),
                forall|j: int| 0 <= j < i ==> (#[trigger] s[j] is Some) == first_filled,
                i == s.len() || (s[i as int] is Some) != first_filled,
                depth == (if first_filled { i as int } else { -(i as int) }),
            decreases s.len() - i,
        {
            let filled = self.buffer[i].is_some();
            if depth >= 0 && filled {
                proof {
                    lemma_leading_run(s, true, i + 1);
                }
                depth = depth + 1;
            } else if depth <= 0 && !filled {
                proof {
                    lemma_leading_run(s, false, i + 1);
                }
                depth = depth - 1;
            } else {
                break;
            }
            i = i + 1;
        }
        proof {
            lemma_leading_run(s, first_filled, i as int);
        }
        depth
    }

    /// The sequence number of the first slot.
    pub fn start_index(&self) -> (r: SeqNum)
        ensures
            r == self.spec_start(),
    {
        self.start
    }

    /// Removes the first slot and returns its value, if it has one; the start moves on
    /// by one even when the buffer is empty.
    pub fn pop_front(&mut self) -> (r: Option<V>)
        ensures
            final(self).spec_start().0 == wrap16(old(self).spec_start().0 + 1),
            old(self).slots().len() > 0 ==> r == old(self).slots()[0] && final(self).slots()
                == old(self).slots().drop_first(),
            old(self).slots().len() == 0 ==> r is None && final(self).slots() == old(self).slots(),
    {
        self.start.incr();
        match self.buffer.pop_front() {
            Some(slot) => slot,
            None => None,
        }
    }

    /// Pops the first slot only when its sequence number is `idx`.
    pub fn try_pop_front(&mut self, idx: SeqNum) -> (r: Option<V>)
        ensures
            idx != old(self).spec_start() ==> r is None && *final(self) == *old(self),
            idx == old(self).spec_start() ==> final(self).spec_start().0 == wrap16(
                old(self).spec_start().0 + 1,
            ) && (old(self).slots().len() > 0 ==> r == old(self).slots()[0] && final(self).slots() == old(self).slots().drop_first()) && (old(self).slots().len() == 0
                ==> r is None && final(self).slots() == old(self).slots()),
    {
        if idx != self.start {
            return None;
        }
        self.pop_front()
    }

    /// The value with sequence number `idx`, if it has arrived and not been popped.
    pub fn get_mut(&mut self, idx: SeqNum) -> (r: Option<&mut V>)
        ensures
            final(self).spec_start() == old(self).spec_start(),
            ({
                let d = seq_diff_spec(idx.0, old(self).spec_start().0);
                let present = !seq_lt(idx, old(self).spec_start()) && 0 <= d < old(self).slots().len()
                    && old(self).slots()[d] is Some;
                &&& present ==> (r matches Some(e) && *e == old(self).slots()[d]->0 && final(self).slots() == old(self).slots().update(d, Some(*final(e))))
                &&& !present ==> r is None && final(self).slots() == old(self).slots()
            }),
    {
        if idx < self.start {
            return None;
        }
        let d = idx.diff(self.start);
        if d < 0 {
            return None;
        }
        let tgt = d as usize;
        match deque_get_mut(&mut self.buffer, tgt) {
            Some(slot) => match slot {
                Some(v) => Some(v),
                None => None,
            },
            None => None,
        }
    }

    /// Stores `value` at sequence number `idx`, opening empty slots for any numbers
    /// skipped. Refuses, leaving the buffer as it was, a value older than the start, one
    /// `MAX_SIZE` or more ahead of it when the buffer is bounded, and a duplicate.
    pub fn insert(&mut self, idx: SeqNum, value: V) -> (r: bool)
        requires
            MAX_SIZE > 0 || seq_lt(idx, old(self).spec_start()) || seq_diff_spec(
                idx.0,
                old(self).spec_start().0,
            ) >= 0,
        ensures
            final(self).spec_start() == old(self).spec_start(),
            (r, final(self).slots()) == sparse_insert(old(self).slots(), old(self).spec_start(), idx, value, MAX_SIZE as nat),
    {
        let ghost s = self.slots();
        if idx < self.start {
            return false;
        }
        let d = idx.diff(self.start);
        if d < 0 {
            return false;
        }
        let tgt = d as usize;
        if MAX_SIZE > 0 && tgt >= MAX_SIZE {
            return false;
        }
        if tgt < self.buffer.len() {
            match deque_get_mut(&mut self.buffer, tgt) {
                Some(slot) => {
                    if slot.is_none() {
                        *slot = Some(value);
                        return true;
                    } else {
                        return false;
                    }
                },
                None => {
                    return false;
                },
            }
        }
        while tgt > self.buffer.len()
            invariant
                tgt <= 32767,
                self.spec_start() == old(self).spec_start(),
                s.len() <= self.slots().len() <= tgt,
                self.slots() == s + Seq::new((self.slots().len() - s.len()) as nat, |i: int| None::<V>),
            decreases tgt - self.slots().len(),
        {
            self.buffer.push_back(None);
            assert(self.slots() =~= s + Seq::new((self.slots().len() - s.len()) as nat, |i: int| None::<V>));
        }
        self.buffer.push_back(Some(value));
        true
    }

    /// The slots paired with their sequence numbers, oldest first.
    pub fn iter(&self) -> (r: Vec<(SeqNum, &Option<V>)>)
        ensures
            r@.len() == self.slots().len(),
            forall|i: int| 0 <= i < r@.len() ==> (#[trigger] r@[i]).0.0 == wrap16(self.spec_start().0 + i)
                && r@[i].1 == self.slots()[i],
    {
        let mut out: Vec<(SeqNum, &Option<V>)> = Vec::new();
        let mut i: usize = 0;
        while i < self.buffer.len()
            invariant
                i <= self.slots().len(),
                out@.len() == i,
                forall|j: int| 0 <= j < i ==> (#[trigger] out@[j]).0.0 == wrap16(self.spec_start().0 + j)
                    && out@[j].1 == self.slots()[j],
            decreases self.slots().len() - i,
        {
            let n: u16 = (i % 65536) as u16;
            out.push((self.start.plus(n), &self.buffer[i]));
            i = i + 1;
        }
        out
    }
}

} // verus!
