//! A non-wrapping count built from a wrapping sequence number and its rollovers.
use vstd::prelude::*;
use crate::seq_num::{SeqNum, seq_diff_spec, seq_gt_spec, wrap16};

verus! {

/// A non-wrapping sequence number that uses a smaller, wrapping sequence number and
/// counts the number of rollovers. Only the low bytes ever need to be communicated: both
/// sides count rollovers to infer the high bytes.
#[derive(Clone, Copy, Debug)]
pub struct RolloverCounter {
    pub rollovers: u32,
    pub seq: SeqNum,
}

impl Default for RolloverCounter {
    fn default() -> (r: Self)
        ensures
            r.rollovers == 0 && r.seq == SeqNum(0),
    {
        RolloverCounter { rollovers: 0, seq: SeqNum(0) }
    }
}

/// The count that a counter's number of rollovers and sequence number stand for.
pub open spec fn count_of(rollovers: u32, seq: SeqNum) -> int {
    rollovers * 65536 + seq.0
}

/// `count + delta`, or 0 where that is negative.
pub open spec fn inferred(count: int, delta: int) -> int {
    if count + delta >= 0 {
        count + delta
    } else {
        0
    }
}

proof fn lemma_value_bits(r: u32, s: u16)
    by (bit_vector)
    ensures
        ((r as u64) << 16u64) | (s as u64) == (r as u64) * 65536u64 + (s as u64),
        (r as u64) * 65536u64 + (s as u64) <= 0xffff_ffff_ffffu64,
{
}

impl RolloverCounter {
    /// The count of a counter that has never rolled over and stands at 0.
    pub fn zero() -> (r: Self)
        ensures
            r.rollovers == 0 && r.seq == SeqNum(0),
    {
        RolloverCounter { rollovers: 0, seq: SeqNum(0) }
    }

    /// The largest count.
    pub fn max() -> (r: Self)
        ensures
            r.rollovers == u32::MAX && r.seq == SeqNum(65535),
    {
        RolloverCounter { rollovers: 4294967295, seq: SeqNum(65535) }
    }

    /// The count this counter stands for.
    pub open spec fn count(&self) -> int {
        count_of(self.rollovers, self.seq)
    }

    /// Gets the non-wrapping sequence number.
    pub fn value(&self) -> (r: u64)
        ensures
            r == self.count(),
            r < 0x1_0000_0000_0000,
    {
        proof {
            lemma_value_bits(self.rollovers, self.seq.0);
        }
        ((self.rollovers as u64) << 16u64) | (self.seq.0 as u64)
    }

    /// Combines `seq` with the count of rollovers to infer a non-wrapping sequence
    /// number: the count moved by how far `seq` is ahead of the counter's sequence
    /// number, and 0 where that would be negative.
    pub fn infer(&self, seq: SeqNum) -> (r: u64)
        ensures
            r == inferred(self.count(), seq_diff_spec(seq.0, self.seq.0)),
    {
        let delta = seq.diff(self.seq);
        let value: i64 = self.value() as i64 + delta as i64;
        if value < 0 {
            0
        } else {
            value as u64
        }
    }

    /// Advances the counter to `seq` if `seq` comes after its sequence number, counting a
    /// rollover when that passes the wrap.
    pub fn advance(&mut self, seq: SeqNum)
        requires
            !(seq_gt_spec(seq.0, old(self).seq.0) && seq.0 < old(self).seq.0 && old(self).rollovers
                == u32::MAX),
        ensures
            seq_gt_spec(seq.0, old(self).seq.0) ==> final(self).seq == seq && final(self).rollovers
                == (if seq.0 < old(self).seq.0 { old(self).rollovers + 1 } else { old(self).rollovers as int }),
            !seq_gt_spec(seq.0, old(self).seq.0) ==> *final(self) == *old(self),
    {
        if !(seq > self.seq) {
            return;
        }
        if seq.0 < self.seq.0 {
            self.rollovers = self.rollovers + 1;
        }
        self.seq = seq;
    }

    /// Increments the counter and returns the new sequence number; the count wraps to 0
    /// after the largest count.
    pub fn incr(&mut self) -> (r: SeqNum)
        ensures
            r == final(self).seq,
            final(self).seq.0 == wrap16(old(self).seq.0 + 1),
            final(self).count() == (old(self).count() + 1) % 0x1_0000_0000_0000,
    {
        self.seq.incr();
        if self.seq.0 == 0 {
            self.rollovers = self.rollovers.wrapping_add(1);
        }
        self.seq
    }

    /// Gets the wrapping sequence number for the current count.
    pub fn seq(&self) -> (r: SeqNum)
        ensures
            r == self.seq,
    {
        self.seq
    }
}

/// A counter infers its own sequence number as its count.
pub proof fn law_infer_own_seq(c: RolloverCounter)
    ensures
        inferred(c.count(), seq_diff_spec(c.seq.0, c.seq.0)) == c.count(),
{
}

/// An inferred count has the received sequence number as its low 16 bits.
pub proof fn law_infer_keeps_low_bits(c: RolloverCounter, seq: SeqNum)
    requires
        c.count() + seq_diff_spec(seq.0, c.seq.0) >= 0,
    ensures
        inferred(c.count(), seq_diff_spec(seq.0, c.seq.0)) % 65536 == seq.0,
{
}

/// Advancing to a later sequence number moves the count to what `infer` gives for it,
/// unless the new number is exactly half the circle ahead.
pub proof fn law_advance_matches_infer(c: RolloverCounter, seq: SeqNum)
    requires
        seq_gt_spec(seq.0, c.seq.0),
        seq_diff_spec(seq.0, c.seq.0) != -32768,
        !(seq.0 < c.seq.0 && c.rollovers == u32::MAX),
    ensures
        count_of(
            (if seq.0 < c.seq.0 { (c.rollovers + 1) as u32 } else { c.rollovers }),
            seq,
        ) == inferred(c.count(), seq_diff_spec(seq.0, c.seq.0)),
{
}

} // verus!
