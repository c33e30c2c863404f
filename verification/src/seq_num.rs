//! Wrapping 16-bit sequence numbers, ordered by the shorter way round the circle.
use vstd::prelude::*;
use crate::bit_reader::BitReader;
use crate::bit_write::BitWrite;
use crate::error::SerdeErr;
use crate::serde::Serde;

verus! {

/// Which end of a connection a host is.
#[derive(Clone, Copy, Debug, PartialEq, Eq, Hash, Structural)]
pub enum HostType {
    Server,
    Client,
}

/// A sequence number that wraps around after `u16::MAX`.
#[derive(Clone, Copy, Debug, PartialEq, Eq, Hash, Structural)]
pub struct SeqNum(pub u16);

/// `lhs - rhs` taken round the circle of 65536 numbers, in `[-32768, 32767]`.
pub open spec fn seq_diff_spec(lhs: u16, rhs: u16) -> int {
    let d = lhs - rhs;
    if d > 32767 {
        d - 65536
    } else if d < -32768 {
        d + 65536
    } else {
        d
    }
}

/// Whether `lhs` comes after `rhs`: it is at most half the circle ahead of it.
pub open spec fn seq_gt_spec(lhs: u16, rhs: u16) -> bool {
    (lhs > rhs && lhs - rhs <= 32768) || (lhs < rhs && rhs - lhs > 32768)
}

/// `v` modulo 65536.
pub open spec fn wrap16(v: int) -> u16 {
    (v % 65536) as u16
}

/// Wrapping twice is wrapping once: `wrap16(wrap16(a) + b) == wrap16(a + b)`.
pub proof fn lemma_wrap16_add(a: int, b: int)
    ensures
        wrap16(wrap16(a) + b) == wrap16(a + b),
{
    vstd::arithmetic::div_mod::lemma_add_mod_noop(a, b, 65536);
    vstd::arithmetic::div_mod::lemma_add_mod_noop(a % 65536, b, 65536);
    vstd::arithmetic::div_mod::lemma_mod_twice(a, 65536);
}

impl Default for SeqNum {
    fn default() -> (r: Self)
        ensures
            r == SeqNum(0),
    {
        SeqNum(0)
    }
}

impl From<u16> for SeqNum {
    fn from(value: u16) -> (r: Self) {
        SeqNum(value)
    }
}

impl vstd::std_specs::convert::FromSpecImpl<u16> for SeqNum {
    open spec fn obeys_from_spec() -> bool {
        true
    }

    open spec fn from_spec(v: u16) -> SeqNum {
        SeqNum(v)
    }
}

impl From<SeqNum> for u16 {
    fn from(value: SeqNum) -> (r: u16) {
        value.0
    }
}

impl vstd::std_specs::convert::FromSpecImpl<SeqNum> for u16 {
    open spec fn obeys_from_spec() -> bool {
        true
    }

    open spec fn from_spec(v: SeqNum) -> u16 {
        v.0
    }
}

impl SeqNum {
    pub const SIZE_BITS: u32 = 16;

    /// The smallest sequence number, 0.
    pub fn min() -> (r: Self)
        ensures
            r == SeqNum(0),
    {
        Self(0)
    }

    /// The largest sequence number, `u16::MAX`.
    pub fn max() -> (r: Self)
        ensures
            r == SeqNum(65535),
    {
        Self(65535)
    }

    /// The sequence number 0.
    pub fn zero() -> (r: Self)
        ensures
            r == SeqNum(0),
    {
        Self(0)
    }

    /// Whether `self` comes after `rhs`.
    pub open spec fn after(self, rhs: Self) -> bool {
        seq_gt_spec(self.0, rhs.0)
    }

    /// The number `rhs` steps on from `self`, wrapping.
    pub fn add_diff(&self, rhs: i16) -> (r: Self)
        ensures
            r.0 == wrap16(self.0 + rhs),
    {
        Self(self.0.wrapping_add_signed(rhs))
    }

    /// How far `self` is ahead of `rhs` round the circle, in `[-32768, 32767]`.
    pub fn diff(&self, rhs: Self) -> (r: i16)
        ensures
            r == seq_diff_spec(self.0, rhs.0),
    {
        Self::seq_diff(self.0, rhs.0)
    }

    /// Steps to the next number, wrapping from `u16::MAX` to 0.
    pub fn incr(&mut self)
        ensures
            final(self).0 == wrap16(old(self).0 + 1),
    {
        self.0 = self.0.wrapping_add(1);
    }

    /// The number `rhs` steps on from `self`, wrapping.
    pub fn plus(self, rhs: u16) -> (r: Self)
        ensures
            r.0 == wrap16(self.0 + rhs),
    {
        Self(self.0.wrapping_add(rhs))
    }

    /// The number `rhs` steps back from `self`, wrapping.
    pub fn minus(self, rhs: u16) -> (r: Self)
        ensures
            r.0 == wrap16(self.0 - rhs),
    {
        Self(self.0.wrapping_sub(rhs))
    }

    fn seq_diff(lhs: u16, rhs: u16) -> (r: i16)
        ensures
            r == seq_diff_spec(lhs, rhs),
    {
        let range: i32 = 65536;
        let diff: i32 = lhs as i32 - rhs as i32;
        if diff > 32767 {
            (diff - range) as i16
        } else if diff < -32768 {
            (diff + range) as i16
        } else {
            diff as i16
        }
    }

    /// Whether `lhs` comes after `rhs`.
    pub fn seq_gt(lhs: u16, rhs: u16) -> (r: bool)
        ensures
            r == seq_gt_spec(lhs, rhs),
    {
        let half_range: u16 = 32768;
        (lhs > rhs && lhs - rhs <= half_range) || (lhs < rhs && rhs - lhs > half_range)
    }
}

/// Stepping `b` on by how far `a` is ahead of it reaches `a`: `b.add_diff(a.diff(b)) == a`.
pub proof fn law_add_diff_of_diff(a: SeqNum, b: SeqNum)
    ensures
        -32768 <= seq_diff_spec(a.0, b.0) <= 32767,
        wrap16(b.0 + seq_diff_spec(a.0, b.0)) == a.0,
{
}

/// A number stepped on by `d` is `d` ahead of where it started:
/// `a.add_diff(d).diff(a) == d`.
pub proof fn law_diff_of_add_diff(a: SeqNum, d: i16)
    ensures
        seq_diff_spec(wrap16(a.0 + d), a.0) == d,
{
}

/// Of two different sequence numbers exactly one comes after the other, and none
/// comes after itself.
pub proof fn law_order_trichotomy(a: SeqNum, b: SeqNum)
    ensures
        !a.after(a),
        a != b ==> (a.after(b) != b.after(a)),
{
}

/// The next sequence number comes after the current one, also across the wrap.
pub proof fn law_incr_is_after(a: SeqNum)
    ensures
        SeqNum(wrap16(a.0 + 1)).after(a),
{
}

/// A positive difference means "after"; a negative one means "before", except at the
/// far side of the circle, where the difference is `-32768` either way round.
pub proof fn law_diff_sign(a: SeqNum, b: SeqNum)
    ensures
        seq_diff_spec(a.0, b.0) > 0 ==> a.after(b),
        seq_diff_spec(a.0, b.0) == 0 <==> a == b,
        -32768 < seq_diff_spec(a.0, b.0) < 0 ==> b.after(a),
{
}

impl Serde for SeqNum {
    open spec fn encoding(&self) -> Seq<bool> {
        self.0.encoding()
    }

    open spec fn decoding(bits: Seq<bool>) -> Option<(SeqNum, nat)> {
        match u16::decoding(bits) {
            Some((v, n)) => Some((SeqNum(v), n)),
            None => None,
        }
    }

    proof fn lemma_decode_encoding(&self, rest: Seq<bool>) {
        self.0.lemma_decode_encoding(rest);
    }

    fn ser<W: BitWrite>(&self, writer: &mut W) {
        self.0.ser(writer)
    }

    fn de(reader: &mut BitReader) -> (r: Result<SeqNum, SerdeErr>) {
        match u16::de(reader) {
            Ok(v) => Ok(SeqNum(v)),
            Err(e) => Err(e),
        }
    }

    fn bit_length(&self) -> (r: u32) {
        self.0.bit_length()
    }
}

} // verus!
