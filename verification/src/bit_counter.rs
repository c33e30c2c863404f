//! Counting the bits that a value would take, without writing them anywhere.
use vstd::prelude::*;
use crate::bits::byte_bits;
use crate::bit_write::BitWrite;

verus! {

/// A bit sink that only counts, against a capacity it may exceed.
pub struct BitCounter {
    bits: u32,
    capacity_bits: u32,
    recorded: Ghost<Seq<bool>>,
}

impl BitCounter {
    /// The capacity the counter compares against.
    pub closed spec fn capacity(&self) -> nat {
        self.capacity_bits as nat
    }

    /// The capacity is the counter's limit, which writing keeps.
    pub proof fn lemma_capacity_is_limit(&self)
        ensures
            self.capacity() == self.limit(),
    {
    }

    /// Creates a counter that has counted nothing.
    pub fn new(capacity_bits: u32) -> (r: Self)
        ensures
            r.inv(),
            r.written() == Seq::<bool>::empty(),
            r.capacity() == capacity_bits,
            r.room() == u32::MAX,
            r.budget() == u32::MAX,
    {
        Self { bits: 0, capacity_bits, recorded: Ghost(Seq::empty()) }
    }

    /// Whether more bits were counted than the capacity allows.
    pub fn overflowed(&self) -> (r: bool)
        requires
            self.inv(),
        ensures
            r == (self.written().len() > self.capacity()),
    {
        self.bits > self.capacity_bits
    }

    /// The number of bits counted.
    pub fn bits_needed(&self) -> (r: u32)
        requires
            self.inv(),
        ensures
            r == self.written().len(),
    {
        self.bits
    }
}

impl BitWrite for BitCounter {
    closed spec fn inv(&self) -> bool {
        self.bits == self.recorded@.len()
    }

    closed spec fn written(&self) -> Seq<bool> {
        self.recorded@
    }

    closed spec fn room(&self) -> nat {
        (u32::MAX - self.bits) as nat
    }

    closed spec fn budget(&self) -> nat {
        (u32::MAX - self.bits) as nat
    }

    /// The capacity the count is compared against.
    closed spec fn limit(&self) -> nat {
        self.capacity_bits as nat
    }

    fn write_bit(&mut self, bit: bool)
        ensures
            final(self).capacity() == old(self).capacity(),
    {
        self.bits = self.bits + 1;
        self.recorded = Ghost(self.recorded@.push(bit));
    }

    fn write_byte(&mut self, byte: u8)
        ensures
            final(self).capacity() == old(self).capacity(),
    {
        self.bits = self.bits + 8;
        self.recorded = Ghost(self.recorded@ + byte_bits(byte));
    }
}

/// The bits that a run of counter writes counts: one for each bit written (`true`),
/// eight for each byte (`false`).
pub open spec fn counted_bits(calls: Seq<bool>) -> nat
    decreases calls.len(),
{
    if calls.len() == 0 {
        0
    } else {
        counted_bits(calls.drop_last()) + if calls.last() {
            1nat
        } else {
            8nat
        }
    }
}

/// `post` is the counter `pre` after writing a bit (`call` true) or a byte (`call`
/// false), as `write_bit` and `write_byte` state.
pub open spec fn counted_step(pre: BitCounter, post: BitCounter, call: bool) -> bool {
    &&& post.written().len() == pre.written().len() + if call {
        1nat
    } else {
        8nat
    }
    &&& post.capacity() == pre.capacity()
}

/// A counter counts every bit of a run of writes, and overflows exactly when they do
/// not fit in its capacity: after any run of bit and byte writes from a new counter of
/// capacity `cap`, it has counted `counted_bits` of the run, and has overflowed exactly
/// when that exceeds `cap`.
pub proof fn law_counter_counts_run(states: Seq<BitCounter>, calls: Seq<bool>, cap: nat, n: int)
    requires
        states.len() == calls.len() + 1,
        states[0].written().len() == 0,
        states[0].capacity() == cap,
        forall|i: int| 0 <= i < calls.len() ==> counted_step(#[trigger] states[i], states[i + 1], calls[i]),
        0 <= n <= calls.len(),
    ensures
        states[n].written().len() == counted_bits(calls.take(n)),
        states[n].capacity() == cap,
        (states[n].written().len() > states[n].capacity()) == (counted_bits(calls.take(n)) > cap),
    decreases n,
{
    if n > 0 {
        law_counter_counts_run(states, calls, cap, n - 1);
        assert(calls.take(n).drop_last() =~= calls.take(n - 1));
        assert(calls.take(n).last() == calls[n - 1]);
        assert(counted_step(states[n - 1], states[n], calls[n - 1]));
    } else {
        assert(calls.take(0).len() == 0);
    }
}

} // verus!
