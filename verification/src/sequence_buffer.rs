//! A fixed-size record of which recent sequence numbers have been seen.
use vstd::prelude::*;
use crate::index_buffer::seq_lt;
use crate::seq_num::{SeqNum, wrap16, lemma_wrap16_add};

verus! {

/// The slot of the sequence number `x` in a buffer of `len` slots.
pub open spec fn slot_of(x: u16, len: nat) -> int {
    (x as int) % (len as int)
}

/// How far `x` is ahead of `from`, counting forwards round the circle, in `[0, 65535]`.
pub open spec fn forward_dist(from: u16, x: u16) -> int {
    (x - from) % 65536
}

/// The slots `e` with every sequence number less than `upto` steps ahead of `cur`
/// removed.
pub open spec fn cleared(e: Seq<Option<SeqNum>>, cur: u16, upto: int) -> Seq<Option<SeqNum>> {
    Seq::new(
        e.len(),
        |i: int|
            match e[i] {
                Some(x) => if forward_dist(cur, x.0) < upto {
                    None
                } else {
                    e[i]
                },
                None => None,
            },
    )
}

/// The slots after the buffer moves from `cur` up to `seq`: the numbers from `cur` to
/// `seq` are removed, or everything when that stretch is at least as long as the buffer.
pub open spec fn after_advance(e: Seq<Option<SeqNum>>, cur: u16, seq: u16) -> Seq<Option<SeqNum>> {
    if forward_dist(cur, seq) < e.len() {
        cleared(e, cur, forward_dist(cur, seq) + 1)
    } else {
        Seq::new(e.len(), |i: int| None::<SeqNum>)
    }
}

/// What recording `s` in the slots `e` of a buffer of `size` numbers at position `cur`
/// gives: whether `s` was taken, the slots after, and the position after. A number more
/// than `size` behind the position is refused; a newer one moves the buffer forwards
/// first.
pub open spec fn set_result(e: Seq<Option<SeqNum>>, size: nat, cur: SeqNum, s: SeqNum) -> (bool, Seq<Option<SeqNum>>, SeqNum) {
    let too_old = seq_lt(s, SeqNum(wrap16(cur.0 - size)));
    let newer = !seq_lt(s, cur);
    let moved = if newer { after_advance(e, cur.0, s.0) } else { e };
    if too_old {
        (false, e, cur)
    } else {
        (true, moved.update(slot_of(s.0, e.len()), Some(s)), if newer { SeqNum(wrap16(s.0 + 1)) } else { cur })
    }
}

/// The number of slots a buffer of `size` numbers keeps: the smallest power of two, from
/// `2^k` on, that is at least `size`.
pub open spec fn slots_for(size: nat, k: nat) -> nat
    decreases 16 - k,
{
    if k >= 16 || vstd::arithmetic::power2::pow2(k) >= size {
        vstd::arithmetic::power2::pow2(k)
    } else {
        slots_for(size, k + 1)
    }
}

/// Every slot holds only a number that maps to it.
pub open spec fn slots_fit(e: Seq<Option<SeqNum>>) -> bool {
    forall|i: int| 0 <= i < e.len() ==> (#[trigger] e[i] matches Some(x) ==> slot_of(x.0, e.len()) == i)
}

proof fn lemma_pow2_divides(k: nat)
    requires
        k <= 16,
    ensures
        65536int % (vstd::arithmetic::power2::pow2(k) as int) == 0,
        0 < vstd::arithmetic::power2::pow2(k) <= 65536,
{
    vstd::arithmetic::power2::lemma2_to64();
    vstd::arithmetic::power2::lemma_pow2_adds(k, (16 - k) as nat);
    vstd::arithmetic::power2::lemma_pow2_pos(k);
    vstd::arithmetic::power2::lemma_pow2_pos((16 - k) as nat);
    let a = vstd::arithmetic::power2::pow2(k) as int;
    let b = vstd::arithmetic::power2::pow2((16 - k) as nat) as int;
    assert(a * b == 65536);
    vstd::arithmetic::div_mod::lemma_mod_multiples_basic(b, a);
    assert(b * a == 65536) by (nonlinear_arith)
        requires
            a * b == 65536,
    {
    }
    assert(a <= 65536) by (nonlinear_arith)
        requires
            a * b == 65536,
            a > 0,
            b > 0,
    {
    }
}

proof fn lemma_pow2_grows(k: nat)
    requires
        k < 16,
    ensures
        vstd::arithmetic::power2::pow2(k) < 65536,
{
    lemma_pow2_divides(k);
    lemma_pow2_divides(k + 1);
    vstd::arithmetic::power2::lemma_pow2_unfold(k + 1);
}

/// Records which of the most recent sequence numbers have been seen, one slot per
/// number modulo the number of slots, a power of two at least as large as the window so
/// that the numbers of one window never share a slot.
pub struct SequenceBuffer {
    sequence_num: SeqNum,
    window: u16,
    entry_sequences: Vec<Option<SeqNum>>,
}

impl SequenceBuffer {
    /// The buffer's internal invariant: each slot holds only a number that maps to it.
    pub closed spec fn wf(&self) -> bool {
        &&& 0 < self.window <= self.entry_sequences.len() <= 65536
        &&& 65536int % (self.entry_sequences.len() as int) == 0
        &&& slots_fit(self.entry_sequences@)
    }

    /// A well-formed buffer keeps a window of at least one number, and has at least as
    /// many slots as its window, a number of slots that divides 65536.
    pub proof fn lemma_wf_bounds(&self)
        requires
            self.wf(),
        ensures
            0 < self.window() <= self.entries().len() <= 65536,
            65536int % (self.entries().len() as int) == 0,
    {
    }

    /// How many of the most recent numbers the buffer keeps.
    pub closed spec fn window(&self) -> nat {
        self.window as nat
    }

    /// The slots.
    pub closed spec fn entries(&self) -> Seq<Option<SeqNum>> {
        self.entry_sequences@
    }

    /// One past the newest sequence number recorded.
    pub closed spec fn spec_sequence_num(&self) -> SeqNum {
        self.sequence_num
    }

    /// Whether the buffer has recorded `s`.
    pub open spec fn holds(&self, s: SeqNum) -> bool {
        self.entries()[slot_of(s.0, self.entries().len())] == Some(s)
    }

    /// Creates a buffer that keeps the `size` most recent numbers and has seen nothing.
    pub fn with_capacity(size: u16) -> (r: Self)
        requires
            size > 0,
        ensures
            r.wf(),
            r.window() == size,
            r.entries() == Seq::new(slots_for(size as nat, 0), |i: int| None::<SeqNum>),
            r.spec_sequence_num() == SeqNum(0),
    {
        let mut slots: usize = 1;
        let ghost mut k: nat = 0;
        proof {
            vstd::arithmetic::power2::lemma2_to64();
        }
        while slots < size as usize
            invariant
                k <= 16,
                slots == vstd::arithmetic::power2::pow2(k),
                slots <= 65536,
                65536int % (slots as int) == 0,
                slots_for(size as nat, 0) == slots_for(size as nat, k),
                slots < size ==> k < 16,
            decreases 65536 - slots,
        {
            proof {
                vstd::arithmetic::power2::lemma2_to64();
                lemma_pow2_divides(k + 1);
                vstd::arithmetic::power2::lemma_pow2_unfold(k + 1);
                if k + 1 < 16 {
                    lemma_pow2_grows(k + 1);
                }
            }
            slots = slots * 2;
            proof {
                k = k + 1;
            }
        }
        let r = Self { sequence_num: SeqNum(0), window: size, entry_sequences: vec![None; slots] };
        assert(r.entries() =~= Seq::new(slots_for(size as nat, 0), |i: int| None::<SeqNum>));
        r
    }

    /// The most recently stored sequence number: the one before the buffer's position
    /// (65535 before anything is stored).
    pub fn sequence_num(&self) -> (r: SeqNum)
        ensures
            r.0 == wrap16(self.spec_sequence_num().0 - 1),
    {
        self.sequence_num.minus(1)
    }

    /// Records `sequence_num`, moving the buffer forwards first when it is newer than
    /// anything recorded. Refuses, and returns false, a number too old for the buffer.
    pub fn set(&mut self, sequence_num: SeqNum) -> (r: bool)
        requires
            old(self).wf(),
        ensures
            final(self).wf(),
            final(self).window() == old(self).window(),
            (r, final(self).entries(), final(self).spec_sequence_num()) == set_result(
                old(self).entries(),
                old(self).window(),
                old(self).spec_sequence_num(),
                sequence_num,
            ),
    {
        if sequence_num < self.sequence_num.minus(self.window) {
            return false;
        }
        self.advance_sequence(sequence_num);
        let index = self.index(sequence_num);
        self.entry_sequences.set(index, Some(sequence_num));
        true
    }

    /// Whether `sequence_num` has been recorded.
    pub fn is_set(&self, sequence_num: SeqNum) -> (r: bool)
        requires
            self.wf(),
        ensures
            r == self.holds(sequence_num),
    {
        let index = self.index(sequence_num);
        match self.entry_sequences[index] {
            Some(s) => s == sequence_num,
            None => false,
        }
    }

    /// Forgets `sequence_num`, if it is recorded.
    fn unset(&mut self, sequence_num: SeqNum)
        requires
            old(self).wf(),
        ensures
            final(self).wf(),
            final(self).spec_sequence_num() == old(self).spec_sequence_num(),
            final(self).window() == old(self).window(),
            final(self).entries() == Seq::new(
                old(self).entries().len(),
                |i: int| if old(self).entries()[i] == Some(sequence_num) { None } else { old(self).entries()[i] },
            ),
    {
        let ghost e = self.entries();
        if self.is_set(sequence_num) {
            let index = self.index(sequence_num);
            self.entry_sequences.set(index, None);
        }
        assert(self.entries() =~= Seq::new(
            e.len(),
            |i: int| if e[i] == Some(sequence_num) { None } else { e[i] },
        ));
    }

    /// Moves forwards to `sequence_num` when it is not older than the current position,
    /// forgetting the numbers passed.
    fn advance_sequence(&mut self, sequence_num: SeqNum)
        requires
            old(self).wf(),
        ensures
            final(self).wf(),
            final(self).window() == old(self).window(),
            !seq_lt(sequence_num, old(self).spec_sequence_num()) ==> final(self).entries()
                == after_advance(old(self).entries(), old(self).spec_sequence_num().0, sequence_num.0)
                && final(self).spec_sequence_num() == SeqNum(wrap16(sequence_num.0 + 1)),
            seq_lt(sequence_num, old(self).spec_sequence_num()) ==> *final(self) == *old(self),
    {
        if sequence_num >= self.sequence_num {
            self.remove_entries(sequence_num);
            self.sequence_num = sequence_num.plus(1);
        }
    }

    /// Forgets the numbers from the current position up to `sequence_num`, or everything
    /// when there are at least as many of them as slots.
    fn remove_entries(&mut self, sequence_num: SeqNum)
        requires
            old(self).wf(),
        ensures
            final(self).wf(),
            final(self).spec_sequence_num() == old(self).spec_sequence_num(),
            final(self).window() == old(self).window(),
            final(self).entries() == after_advance(old(self).entries(), old(self).spec_sequence_num().0, sequence_num.0),
    {
        let ghost e = self.entries();
        let ghost cur = self.sequence_num.0;
        let start_sequence: u32 = self.sequence_num.0 as u32;
        let mut finish_sequence: u32 = sequence_num.0 as u32;
        if finish_sequence < start_sequence {
            finish_sequence = finish_sequence + 65536;
        }
        assert(finish_sequence - start_sequence == forward_dist(cur, sequence_num.0));
        if finish_sequence - start_sequence < self.entry_sequences.len() as u32 {
            let mut sequence: u32 = start_sequence;
            assert(cleared(e, cur, 0) =~= e);
            while sequence <= finish_sequence
                invariant
                    start_sequence <= sequence <= finish_sequence + 1,
                    finish_sequence - start_sequence < self.entries().len(),
                    start_sequence == cur,
                    self.wf(),
                    self.spec_sequence_num() == old(self).spec_sequence_num(),
                    self.window() == old(self).window(),
                    self.entries() == cleared(e, cur, sequence - start_sequence),
                    e.len() == self.entries().len(),
                    forall|i: int| 0 <= i < e.len() ==> (#[trigger] e[i] matches Some(x) ==> slot_of(x.0, e.len()) == i),
                decreases finish_sequence + 1 - sequence,
            {
                let s = SeqNum((sequence % 65536) as u16);
                let ghost before = self.entries();
                self.unset(s);
                proof {
                    let k = sequence - start_sequence;
                    assert forall|i: int| 0 <= i < e.len() implies #[trigger] self.entries()[i]
                        == cleared(e, cur, k + 1)[i] by {
                        if let Some(x) = e[i] {
                            assert(forward_dist(cur, x.0) == k <==> x == s);
                        }
                    }
                    assert(self.entries() =~= cleared(e, cur, k + 1));
                }
                sequence = sequence + 1;
            }
        } else {
            let mut index: usize = 0;
            while index < self.entry_sequences.len()
                invariant
                    index <= self.entries().len(),
                    self.entries().len() == e.len(),
                    0 < e.len() <= 65536,
                    old(self).wf(),
                    self.window == old(self).window,
                    self.spec_sequence_num() == old(self).spec_sequence_num(),
                    forall|i: int| 0 <= i < index ==> #[trigger] self.entries()[i] is None,
                    forall|i: int| index <= i < e.len() ==> #[trigger] self.entries()[i] == e[i],
                    forall|i: int| 0 <= i < e.len() ==> (#[trigger] e[i] matches Some(x) ==> slot_of(x.0, e.len()) == i),
                decreases e.len() - index,
            {
                self.entry_sequences.set(index, None);
                index = index + 1;
            }
            assert(self.entries() =~= Seq::new(e.len(), |i: int| None::<SeqNum>));
        }
    }

    /// The slot of a sequence number.
    fn index(&self, sequence: SeqNum) -> (r: usize)
        requires
            self.wf(),
        ensures
            r == slot_of(sequence.0, self.entries().len()),
            r < self.entries().len(),
    {
        sequence.0 as usize % self.entry_sequences.len()
    }
}

/// A number the buffer took is then recorded: after `set(s)` returns true, `is_set(s)`
/// holds; a refused number leaves the buffer as it was.
pub proof fn law_set_then_is_set(e: Seq<Option<SeqNum>>, size: nat, cur: SeqNum, s: SeqNum)
    requires
        e.len() > 0,
    ensures
        ({
            let (taken, after, pos) = set_result(e, size, cur, s);
            &&& after.len() == e.len()
            &&& taken ==> after[slot_of(s.0, after.len())] == Some(s)
            &&& !taken ==> after == e && pos == cur
        }),
{
}

/// Two different numbers fewer than `len` apart fall in different slots when `len`
/// divides 65536.
proof fn lemma_close_numbers_distinct_slots(a: u16, b: u16, len: int)
    requires
        0 < len,
        65536int % len == 0,
        a != b,
        forward_dist(a, b) < len,
    ensures
        slot_of(a, len as nat) != slot_of(b, len as nat),
{
    let d = forward_dist(a, b);
    let q = 65536int / len;
    vstd::arithmetic::div_mod::lemma_fundamental_div_mod(65536, len);
    assert(len * q == 65536);
    assert(q > 0) by (nonlinear_arith)
        requires
            len * q == 65536,
            len > 0,
    {
    }
    assert(b as int == (a + d) % 65536);
    vstd::arithmetic::div_mod::lemma_mod_mod(a + d, len, q);
    vstd::arithmetic::div_mod::lemma_add_mod_noop(a as int, d, len);
    vstd::arithmetic::div_mod::lemma_small_mod(d as nat, len as nat);
    let r = (a as int) % len;
    if r + d < len {
        vstd::arithmetic::div_mod::lemma_small_mod((r + d) as nat, len as nat);
    } else {
        vstd::arithmetic::div_mod::lemma_mod_sub_multiples_vanish(r + d, len);
        vstd::arithmetic::div_mod::lemma_small_mod((r + d - len) as nat, len as nat);
    }
}

proof fn lemma_window_older(s: SeqNum, t: SeqNum, c: SeqNum, size: nat)
    requires
        0 < size <= 32767,
        seq_lt(s, c),
        seq_lt(t, c),
        !seq_lt(t, SeqNum(wrap16(c.0 - size))),
        forward_dist(s.0, wrap16(c.0 - 1)) < size,
    ensures
        forward_dist(s.0, t.0) < size || forward_dist(t.0, s.0) < size,
{
}

proof fn lemma_window_newer(s: SeqNum, t: SeqNum, c: SeqNum, size: nat)
    requires
        0 < size <= 32767,
        seq_lt(s, c),
        !seq_lt(t, c),
        forward_dist(s.0, wrap16(wrap16(t.0 + 1) - 1)) < size,
    ensures
        forward_dist(s.0, t.0) < size,
        forward_dist(c.0, t.0) < size,
        forward_dist(c.0, s.0) >= forward_dist(c.0, t.0) + 1,
{
}

proof fn lemma_first_set(e: Seq<Option<SeqNum>>, size: nat, cur: SeqNum, s: SeqNum)
    requires
        e.len() > 0,
        set_result(e, size, cur, s).0,
    ensures
        set_result(e, size, cur, s).1.len() == e.len(),
        set_result(e, size, cur, s).1[slot_of(s.0, e.len())] == Some(s),
        seq_lt(s, set_result(e, size, cur, s).2),
{
    if !seq_lt(s, cur) {
        assert(after_advance(e, cur.0, s.0).len() == e.len());
    }
}

/// A number the buffer took stays recorded while it is inside the window: after
/// `set(s)` takes `s` and a later `set(t)` takes another number `t`, `is_set(s)` still
/// holds as long as `s` is among the `size` numbers up to the newest one recorded. This
/// is stated for windows of less than half the number range, where "newer" is defined.
pub proof fn law_window_keeps_taken(e: Seq<Option<SeqNum>>, size: nat, cur: SeqNum, s: SeqNum, t: SeqNum)
    requires
        0 < size <= e.len() <= 65536,
        size <= 32767,
        65536int % (e.len() as int) == 0,
        set_result(e, size, cur, s).0,
        set_result(set_result(e, size, cur, s).1, size, set_result(e, size, cur, s).2, t).0,
        t != s,
        forward_dist(
            s.0,
            wrap16(set_result(set_result(e, size, cur, s).1, size, set_result(e, size, cur, s).2, t).2.0 - 1),
        ) < size,
    ensures
        ({
            let after = set_result(set_result(e, size, cur, s).1, size, set_result(e, size, cur, s).2, t).1;
            after[slot_of(s.0, after.len())] == Some(s)
        }),
{
    let (_, e1, c1) = set_result(e, size, cur, s);
    let (_, e2, c2) = set_result(e1, size, c1, t);
    let len = e.len() as int;
    let ss = slot_of(s.0, e.len());
    lemma_first_set(e, size, cur, s);
    if seq_lt(t, c1) {
        lemma_window_older(s, t, c1, size);
        if forward_dist(s.0, t.0) < size {
            lemma_close_numbers_distinct_slots(s.0, t.0, len);
        } else {
            lemma_close_numbers_distinct_slots(t.0, s.0, len);
        }
    } else {
        lemma_window_newer(s, t, c1, size);
        lemma_close_numbers_distinct_slots(s.0, t.0, len);
        let moved = after_advance(e1, c1.0, t.0);
        assert(moved[ss] == Some(s));
    }
}

} // verus!

