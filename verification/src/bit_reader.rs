//! Reading single bits and whole bytes from a received buffer.
use vstd::prelude::*;
use crate::bits::{bit_of, byte_bits, bytes_bits, bit_at, lemma_mask_bit, lemma_split_position, lemma_straddle_byte};
use crate::error::SerdeErr;

verus! {

/// Reads bits in stream order from a byte buffer.
pub struct BitReader {
    bit_offset: u8,
    buffer: Vec<u8>,
    buffer_index: usize,
}

impl BitReader {
    /// The reader's internal invariant.
    pub closed spec fn wf(&self) -> bool {
        &&& self.bit_offset < 8
        &&& self.buffer_index <= self.buffer.len()
        &&& self.buffer_index == self.buffer.len() ==> self.bit_offset == 0
        &&& 8 * self.buffer.len() <= usize::MAX
    }

    /// Every bit of the buffer the reader was made with.
    pub closed spec fn bits(&self) -> Seq<bool> {
        bytes_bits(self.buffer@)
    }

    /// The number of bits read so far.
    pub closed spec fn position(&self) -> nat {
        (8 * self.buffer_index + self.bit_offset) as nat
    }

    /// The bits that have not been read yet.
    pub open spec fn remaining(&self) -> Seq<bool> {
        self.bits().skip(self.position() as int)
    }

    /// The read position lies within the bits, and the unread bits are the rest.
    pub proof fn lemma_wf(&self)
        requires
            self.wf(),
        ensures
            self.position() <= self.bits().len(),
            self.remaining().len() == self.bits().len() - self.position(),
    {
    }

    /// Creates a reader positioned at the first bit of `buffer`.
    pub fn new(buffer: Vec<u8>) -> (r: Self)
        requires
            8 * buffer.len() <= usize::MAX,
        ensures
            r.wf(),
            r.bits() == bytes_bits(buffer@),
            r.position() == 0,
            r.remaining() == bytes_bits(buffer@),
    {
        let r = Self { bit_offset: 0, buffer, buffer_index: 0 };
        assert(r.remaining() =~= bytes_bits(buffer@));
        r
    }

    /// The length of the underlying buffer, in bytes.
    pub fn bytes_len(&self) -> (r: usize)
        requires
            self.wf(),
        ensures
            8 * r == self.bits().len(),
    {
        self.buffer.len()
    }

    /// Reads the next bit; fails, and reads nothing, when every bit has been read.
    pub fn read_bit(&mut self) -> (r: Result<bool, SerdeErr>)
        requires
            old(self).wf(),
        ensures
            final(self).wf(),
            final(self).bits() == old(self).bits(),
            old(self).position() <= old(self).bits().len(),
            old(self).remaining().len() > 0 ==> r == Ok::<bool, SerdeErr>(old(self).remaining()[0])
                && final(self).position() == old(self).position() + 1,
            old(self).remaining().len() == 0 ==> r == Err::<bool, SerdeErr>(SerdeErr)
                && final(self).position() == old(self).position(),
    {
        proof {
            self.lemma_wf();
        }
        if self.buffer_index == self.buffer.len() {
            return Err(SerdeErr);
        }
        let ghost pos = self.position() as int;
        let byte = self.buffer[self.buffer_index];
        let mask: u8 = 1u8 << (7 - self.bit_offset);
        let bit = (byte & mask) != 0;
        proof {
            lemma_mask_bit(byte, self.bit_offset);
            lemma_split_position(pos, self.buffer_index as int);
            assert(self.remaining()[0] == self.bits()[pos]);
        }
        self.bit_offset = self.bit_offset + 1;
        if self.bit_offset == 8 {
            self.buffer_index = self.buffer_index + 1;
            self.bit_offset = 0;
        }
        Ok(bit)
    }

    /// Reads the next eight bits as a byte; fails, and reads nothing, when fewer than
    /// eight bits are left.
    pub fn read_byte(&mut self) -> (r: Result<u8, SerdeErr>)
        requires
            old(self).wf(),
        ensures
            final(self).wf(),
            final(self).bits() == old(self).bits(),
            old(self).position() <= old(self).bits().len(),
            old(self).remaining().len() >= 8 ==> (r matches Ok(b) && byte_bits(b)
                == old(self).remaining().take(8) && final(self).position() == old(self).position()
                + 8),
            old(self).remaining().len() < 8 ==> r == Err::<u8, SerdeErr>(SerdeErr)
                && final(self).position() == old(self).position(),
    {
        proof {
            self.lemma_wf();
        }
        let bits_left = 8 * (self.buffer.len() - self.buffer_index) - self.bit_offset as usize;
        if bits_left < 8 {
            return Err(SerdeErr);
        }
        let ghost old_self = *self;
        let ghost pos = self.position() as int;
        let idx = self.buffer_index;
        let off = self.bit_offset;
        let mut byte = self.buffer[idx];
        self.buffer_index = self.buffer_index + 1;
        if off != 0 {
            let next = self.buffer[self.buffer_index];
            byte = (byte << off) | (next >> (8 - off));
            proof {
                assert forall|j: int| 0 <= j < 8 implies #[trigger] byte_bits(byte)[j]
                    == old_self.remaining()[j] by {
                    lemma_straddle_byte(self.buffer@[idx as int], next, off, j as u8);
                    if j + off < 8 {
                        lemma_split_position(pos + j, idx as int);
                    } else {
                        lemma_split_position(pos + j, idx + 1);
                    }
                }
            }
        } else {
            proof {
                assert forall|j: int| 0 <= j < 8 implies #[trigger] byte_bits(byte)[j]
                    == old_self.remaining()[j] by {
                    lemma_split_position(pos + j, idx as int);
                }
            }
        }
        assert(byte_bits(byte) =~= old_self.remaining().take(8));
        Ok(byte)
    }
}

} // verus!
