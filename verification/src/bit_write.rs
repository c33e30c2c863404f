//! The interface shared by everything that bits can be written into.
use vstd::prelude::*;
use crate::bits::byte_bits;

verus! {

/// A sink for a stream of bits.
pub trait BitWrite {
    /// The sink's internal invariant.
    spec fn inv(&self) -> bool;

    /// The bits written so far, in order.
    spec fn written(&self) -> Seq<bool>;

    /// How many more bits can be written.
    spec fn room(&self) -> nat;

    /// The bit budget the sink keeps, which every bit written uses up.
    spec fn budget(&self) -> nat;

    /// A bound on the whole stream that writing leaves as it is.
    spec fn limit(&self) -> nat;

    /// Appends one bit.
    fn write_bit(&mut self, bit: bool)
        requires
            old(self).inv(),
            old(self).room() >= 1,
            old(self).budget() >= 1,
        ensures
            final(self).inv(),
            final(self).written() == old(self).written().push(bit),
            final(self).room() == old(self).room() - 1,
            final(self).budget() == old(self).budget() - 1,
            final(self).limit() == old(self).limit(),
    ;

    /// Appends the eight bits of a byte, most significant first.
    fn write_byte(&mut self, byte: u8)
        requires
            old(self).inv(),
            old(self).room() >= 8,
            old(self).budget() >= 8,
        ensures
            final(self).inv(),
            final(self).written() == old(self).written() + byte_bits(byte),
            final(self).room() == old(self).room() - 8,
            final(self).budget() == old(self).budget() - 8,
            final(self).limit() == old(self).limit(),
    ;
}

} // verus!
