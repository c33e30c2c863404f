//! Writing a bit stream into a packet-sized buffer.
use vstd::prelude::*;
use crate::bits::{bit_at, bit_of, byte_bits, bytes_bits, packs, lemma_or_high, lemma_or_low, lemma_set_bit, lemma_split_position, lemma_div8, lemma_zero_byte};
use crate::bit_counter::BitCounter;
use crate::bit_write::BitWrite;
use crate::constants::{MTU_SIZE_BITS, MTU_SIZE_BYTES};

verus! {

/// A finished packet: the first `size` bytes of a buffer.
pub struct OutgoingPacket {
    size: usize,
    buffer: Vec<u8>,
}

impl OutgoingPacket {
    /// The packet's internal invariant.
    pub closed spec fn inv(&self) -> bool {
        self.size <= self.buffer.len()
    }

    /// The bytes of the packet.
    pub closed spec fn payload(&self) -> Seq<u8> {
        self.buffer@.take(self.size as int)
    }

    /// The packet made of the first `size` bytes of `buffer`.
    pub fn new(size: usize, buffer: Vec<u8>) -> (r: Self)
        requires
            size <= buffer.len(),
        ensures
            r.inv(),
            r.payload() == buffer@.take(size as int),
    {
        Self { size, buffer }
    }

    /// The bytes of the packet.
    pub fn slice(&self) -> (r: &[u8])
        requires
            self.inv(),
        ensures
            r@ == self.payload(),
    {
        vstd::slice::slice_subrange(self.buffer.as_slice(), 0, self.size)
    }
}

/// Writes a bit stream into a buffer of `MTU_SIZE_BYTES` bytes, within a bit budget
/// that can be narrowed and widened again.
pub struct BitWriter {
    bit_offset: u8,
    buffer: Vec<u8>,
    buffer_index: usize,
    capacity_bits: u32,
}

impl BitWriter {
    /// The number of bits written.
    pub closed spec fn position(&self) -> nat {
        (8 * self.buffer_index + self.bit_offset) as nat
    }

    /// The bit budget left.
    pub open spec fn capacity(&self) -> nat {
        self.budget()
    }

    /// Bits left in the buffer itself, whatever the budget.
    pub open spec fn space(&self) -> nat {
        (8 * MTU_SIZE_BYTES - self.written().len()) as nat
    }

    /// Creates an empty writer whose budget is the whole packet.
    pub fn new() -> (r: Self)
        ensures
            r.inv(),
            r.written() == Seq::<bool>::empty(),
            r.capacity() == MTU_SIZE_BITS,
            r.room() == MTU_SIZE_BITS,
    {
        Self::with_capacity(MTU_SIZE_BITS)
    }

    /// Creates an empty writer with a budget of `capacity_bits` bits.
    pub fn with_capacity(capacity_bits: u32) -> (r: Self)
        ensures
            r.inv(),
            r.written() == Seq::<bool>::empty(),
            r.capacity() == capacity_bits,
            r.room() == if capacity_bits <= MTU_SIZE_BITS { capacity_bits as nat } else { MTU_SIZE_BITS as nat },
    {
        let buffer: Vec<u8> = vec![0u8; MTU_SIZE_BYTES];
        let r = Self { bit_offset: 0, buffer, buffer_index: 0, capacity_bits };
        proof {
            assert forall|k: int| 0 <= k < 8 * MTU_SIZE_BYTES implies !#[trigger] bit_at(r.buffer@, k) by {
                lemma_div8(k);
                lemma_zero_byte((k % 8) as u8);
            }
            assert(r.written() =~= Seq::<bool>::empty());
        }
        r
    }

    /// The number of bytes that the written bits occupy.
    fn size(&self) -> (r: usize)
        requires
            self.inv(),
        ensures
            r == (self.written().len() + 7) / 8,
            r <= MTU_SIZE_BYTES,
    {
        if self.bit_offset > 0 {
            self.buffer_index + 1
        } else {
            self.buffer_index
        }
    }

    proof fn lemma_packed_prefix(&self, size: int)
        requires
            self.inv(),
            size == (self.written().len() + 7) / 8,
        ensures
            packs(self.written(), self.buffer@.take(size)),
    {
        let bytes = self.buffer@.take(size);
        assert forall|k: int| 0 <= k < 8 * bytes.len() implies #[trigger] bit_at(bytes, k)
            == (k < self.written().len() && self.written()[k]) by {
            assert(bit_at(bytes, k) == bit_at(self.buffer@, k));
        }
    }

    /// The written bits as a packet, zero-padded to a whole byte.
    pub fn to_packet(&self) -> (r: OutgoingPacket)
        requires
            self.inv(),
        ensures
            r.inv(),
            packs(self.written(), r.payload()),
    {
        let size = self.size();
        proof {
            self.lemma_packed_prefix(size as int);
        }
        OutgoingPacket::new(size, self.buffer.clone())
    }

    /// The written bits as bytes, zero-padded to a whole byte.
    pub fn to_bytes(&self) -> (r: Vec<u8>)
        requires
            self.inv(),
        ensures
            packs(self.written(), r@),
    {
        let size = self.size();
        let mut out: Vec<u8> = Vec::with_capacity(size);
        let mut i: usize = 0;
        while i < size
            invariant
                self.inv(),
                size <= MTU_SIZE_BYTES,
                i <= size,
                out@ == self.buffer@.take(i as int),
            decreases size - i,
        {
            out.push(self.buffer[i]);
            i = i + 1;
            assert(out@ =~= self.buffer@.take(i as int));
        }
        proof {
            self.lemma_packed_prefix(size as int);
        }
        out
    }

    /// The written bits as the bytes of the buffer that hold them, zero-padded to a whole
    /// byte.
    pub fn slice(&self) -> (r: &[u8])
        requires
            self.inv(),
        ensures
            packs(self.written(), r@),
    {
        let size = self.size();
        proof {
            self.lemma_packed_prefix(size as int);
        }
        vstd::slice::slice_subrange(self.buffer.as_slice(), 0, size)
    }

    /// A counter measuring against this writer's remaining budget.
    pub fn counter(&self) -> (r: BitCounter)
        ensures
            r.inv(),
            r.written() == Seq::<bool>::empty(),
            r.capacity() == self.capacity(),
            r.room() == u32::MAX,
            r.budget() == u32::MAX,
    {
        BitCounter::new(self.capacity_bits)
    }

    /// Takes `bits` out of the budget, to keep them for later.
    pub fn reserve_bits(&mut self, bits: u32)
        requires
            old(self).inv(),
            bits <= old(self).capacity(),
        ensures
            final(self).inv(),
            final(self).written() == old(self).written(),
            final(self).capacity() == old(self).capacity() - bits,
    {
        self.capacity_bits = self.capacity_bits - bits;
    }

    /// Gives `bits` back to the budget.
    pub fn release_bits(&mut self, bits: u32)
        requires
            old(self).inv(),
            old(self).capacity() + bits <= u32::MAX,
        ensures
            final(self).inv(),
            final(self).written() == old(self).written(),
            final(self).capacity() == old(self).capacity() + bits,
    {
        self.capacity_bits = self.capacity_bits + bits;
    }

    /// Releasing the bits that were reserved gives the budget back as it was; neither
    /// call touches the bits written.
    pub proof fn law_release_undoes_reserve(&self, reserved: BitWriter, released: BitWriter, bits: u32)
        requires
            self.inv(),
            bits <= self.capacity(),
            reserved.written() == self.written(),
            reserved.capacity() == self.capacity() - bits,
            released.written() == reserved.written(),
            released.capacity() == reserved.capacity() + bits,
        ensures
            released.written() == self.written(),
            released.capacity() == self.capacity(),
            released.space() == self.space(),
    {
    }

    /// A bit can be written exactly when the budget has a bit left and the buffer is not
    /// full, and a byte exactly when both have eight; each write then takes its bits
    /// out of the budget (see `BitWrite::write_bit` and `BitWrite::write_byte`).
    pub proof fn law_room_for_writes(&self)
        requires
            self.inv(),
        ensures
            (self.room() >= 1) == (self.capacity() >= 1 && self.written().len() < 8 * MTU_SIZE_BYTES),
            (self.room() >= 8) == (self.capacity() >= 8 && 8 * MTU_SIZE_BYTES - self.written().len() >= 8),
    {
        self.lemma_room();
    }

    /// The budget is a `u32` count of bits.
    pub proof fn lemma_capacity_bound(&self)
        ensures
            self.capacity() <= u32::MAX,
    {
    }

    /// The bits that can be written are what the budget and the buffer both allow.
    pub proof fn lemma_room(&self)
        requires
            self.inv(),
        ensures
            self.written().len() <= 8 * MTU_SIZE_BYTES,
            self.room() == if self.capacity() <= self.space() { self.capacity() } else { self.space() },
    {
    }

    /// The bit budget left.
    pub fn bits_free(&self) -> (r: u32)
        ensures
            r == self.capacity(),
    {
        self.capacity_bits
    }
}

impl BitWrite for BitWriter {
    closed spec fn inv(&self) -> bool {
        &&& self.buffer.len() == MTU_SIZE_BYTES
        &&& self.bit_offset < 8
        &&& self.buffer_index <= MTU_SIZE_BYTES
        &&& self.buffer_index == MTU_SIZE_BYTES ==> self.bit_offset == 0
        &&& forall|k: int|
            self.position() <= k < 8 * MTU_SIZE_BYTES ==> !#[trigger] bit_at(self.buffer@, k)
    }

    closed spec fn written(&self) -> Seq<bool> {
        bytes_bits(self.buffer@).take(self.position() as int)
    }

    closed spec fn budget(&self) -> nat {
        self.capacity_bits as nat
    }

    /// The budget the writer had before any of the written bits: budget plus written.
    closed spec fn limit(&self) -> nat {
        (self.capacity_bits + self.position()) as nat
    }

    closed spec fn room(&self) -> nat {
        let space = (8 * MTU_SIZE_BYTES - self.position()) as nat;
        if self.capacity_bits <= space { self.capacity_bits as nat } else { space }
    }

    fn write_bit(&mut self, bit: bool)
        ensures
            final(self).capacity() == old(self).capacity() - 1,
    {
        let ghost old_self = *self;
        let ghost pos = self.position() as int;
        let idx = self.buffer_index;
        let off = self.bit_offset;
        self.capacity_bits = self.capacity_bits - 1;
        let mask: u8 = (if bit { 1u8 } else { 0u8 }) << (7 - off);
        let cur = self.buffer[idx];
        self.buffer.set(idx, cur | mask);
        self.bit_offset = self.bit_offset + 1;
        if self.bit_offset == 8 {
            self.buffer_index = self.buffer_index + 1;
            self.bit_offset = 0;
        }
        proof {
            assert forall|k: int| 0 <= k < 8 * MTU_SIZE_BYTES implies #[trigger] bit_at(self.buffer@, k)
                == (if k < pos { bit_at(old_self.buffer@, k) } else if k == pos { bit } else { false }) by {
                lemma_div8(k);
                assert(self.buffer@.len() == MTU_SIZE_BYTES);
                assert(0 <= k / 8 < MTU_SIZE_BYTES);
                if 8 * idx <= k < 8 * idx + 8 {
                    lemma_split_position(k, idx as int);
                    lemma_set_bit(cur, off, bit, (k - 8 * idx) as u8);
                    assert(self.buffer@[idx as int] == cur | mask);
                    assert(bit_at(self.buffer@, k) == bit_of((cur | mask) as u8, (k - 8 * idx) as u8));
                    assert(k < pos ==> bit_at(old_self.buffer@, k) == bit_of(cur, (k - 8 * idx) as u8));
                    assert(k >= pos ==> !bit_at(old_self.buffer@, k));
                } else {
                    assert(self.buffer@[k / 8] == old_self.buffer@[k / 8]);
                    assert(k >= pos ==> !bit_at(old_self.buffer@, k));
                    assert(k != pos);
                }
            }
            assert(self.written() =~= old_self.written().push(bit));
        }
    }

    fn write_byte(&mut self, byte: u8)
        ensures
            final(self).capacity() == old(self).capacity() - 8,
    {
        let ghost old_self = *self;
        let ghost pos = self.position() as int;
        let bits_left = 8 * (self.buffer.len() - self.buffer_index) - self.bit_offset as usize;
        assert(bits_left >= 8);
        self.capacity_bits = self.capacity_bits - 8;
        let idx = self.buffer_index;
        let off = self.bit_offset;
        let cur = self.buffer[idx];
        self.buffer.set(idx, cur | (byte >> off));
        self.buffer_index = self.buffer_index + 1;
        if off != 0 {
            let nxt = self.buffer[idx + 1];
            self.buffer.set(idx + 1, nxt | (byte << (8 - off)));
            proof {
                assert forall|k: int| 0 <= k < 8 * MTU_SIZE_BYTES implies #[trigger] bit_at(self.buffer@, k)
                    == (if k < pos { bit_at(old_self.buffer@, k) } else if k < pos + 8 {
                    byte_bits(byte)[k - pos] } else { false }) by {
                    lemma_div8(k);
                    if pos <= k < pos + 8 {
                        assert(byte_bits(byte)[k - pos] == bit_of(byte, (k - pos) as u8));
                    }
                    if 8 * idx <= k < 8 * idx + 8 {
                        lemma_split_position(k, idx as int);
                        lemma_or_high(cur, byte, off, (k - 8 * idx) as u8);
                        assert(self.buffer@[idx as int] == cur | (byte >> off));
                        assert(bit_at(self.buffer@, k) == bit_of((cur | (byte >> off)) as u8, (k - 8 * idx) as u8));
                        assert(bit_at(old_self.buffer@, k) == bit_of(cur, (k - 8 * idx) as u8));
                        assert(k >= pos ==> !bit_at(old_self.buffer@, k));
                    } else if 8 * idx + 8 <= k < 8 * idx + 16 {
                        lemma_split_position(k, idx + 1);
                        lemma_or_low(nxt, byte, off, (k - 8 * idx - 8) as u8);
                        assert(self.buffer@[idx + 1] == nxt | (byte << (8 - off) as u8));
                        assert(bit_at(self.buffer@, k) == bit_of((nxt | (byte << (8 - off) as u8)) as u8, (k - 8 * idx - 8) as u8));
                        assert(bit_at(old_self.buffer@, k) == bit_of(nxt, (k - 8 * idx - 8) as u8));
                        assert(!bit_at(old_self.buffer@, k));
                    } else {
                        assert(self.buffer@[k / 8] == old_self.buffer@[k / 8]);
                        assert(k >= pos + 8 ==> !bit_at(old_self.buffer@, k));
                    }
                }
            }
        } else {
            proof {
                assert forall|k: int| 0 <= k < 8 * MTU_SIZE_BYTES implies #[trigger] bit_at(self.buffer@, k)
                    == (if k < pos { bit_at(old_self.buffer@, k) } else if k < pos + 8 {
                    byte_bits(byte)[k - pos] } else { false }) by {
                    lemma_div8(k);
                    if pos <= k < pos + 8 {
                        assert(byte_bits(byte)[k - pos] == bit_of(byte, (k - pos) as u8));
                    }
                    if 8 * idx <= k < 8 * idx + 8 {
                        lemma_split_position(k, idx as int);
                        lemma_or_high(cur, byte, off, (k - 8 * idx) as u8);
                        assert(self.buffer@[idx as int] == cur | (byte >> off));
                        assert(bit_at(self.buffer@, k) == bit_of((cur | (byte >> off)) as u8, (k - 8 * idx) as u8));
                        assert(bit_at(old_self.buffer@, k) == bit_of(cur, (k - 8 * idx) as u8));
                        assert(!bit_at(old_self.buffer@, k));
                    } else {
                        assert(self.buffer@[k / 8] == old_self.buffer@[k / 8]);
                        assert(k >= pos + 8 ==> !bit_at(old_self.buffer@, k));
                    }
                }
            }
        }
        assert(self.written() =~= old_self.written() + byte_bits(byte));
    }
}

} // verus!
