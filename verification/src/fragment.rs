//! Splitting a message too long for one packet into fragments.
use vstd::prelude::*;
use crate::bits::{bit_of, byte_bits, bytes_bits, byte_from_bits, packs, lemma_bytes_bits_push, lemma_packs_append, lemma_byte_from_bits, lemma_byte_bits_injective};
use crate::bit_reader::BitReader;
use crate::bit_write::BitWrite;
use crate::bit_writer::BitWriter;
use crate::constants::FRAGMENTATION_LIMIT_BITS;
use crate::error::SerdeErr;
use crate::message::Message;
use crate::serde::{Serde, bytes_from_bits, lemma_bytes_from_bits, lemma_le_bytes_len};

verus! {

/// Identifies the message a fragment belongs to; wraps after 255.
#[derive(Clone, Copy, Debug, PartialEq, Eq, Hash, Structural)]
pub struct FragmentId {
    inner: u8,
}

impl FragmentId {
    /// The value of the identifier.
    pub closed spec fn value(&self) -> u8 {
        self.inner
    }

    /// The first identifier.
    pub fn zero() -> (r: Self)
        ensures
            r.value() == 0,
    {
        FragmentId { inner: 0 }
    }

    /// Steps to the next identifier, wrapping.
    pub fn increment(&mut self)
        ensures
            final(self).value() == (old(self).value() + 1) % 256,
    {
        self.inner = self.inner.wrapping_add(1);
    }
}

/// The position of a fragment in its message.
#[derive(Clone, Copy, Debug, PartialEq, Eq, Hash, Structural)]
pub struct FragmentIndex {
    inner: u32,
}

impl FragmentIndex {
    /// The value of the index.
    pub closed spec fn value(&self) -> u32 {
        self.inner
    }

    /// The first index.
    pub fn zero() -> (r: Self)
        ensures
            r.value() == 0,
    {
        FragmentIndex { inner: 0 }
    }

    /// Steps to the next index.
    pub fn increment(&mut self)
        requires
            old(self).value() < u32::MAX,
        ensures
            final(self).value() == old(self).value() + 1,
    {
        self.inner = self.inner + 1;
    }
}

/// One fragment of a message: its bytes, where it stands, and how many fragments
/// there are.
#[derive(Clone, Debug)]
pub struct FragmentedMessage {
    pub id: FragmentId,
    pub index: FragmentIndex,
    pub total: FragmentIndex,
    pub bytes: Vec<u8>,
}

impl FragmentedMessage {
    /// A fragment whose total is not yet known.
    pub fn new(id: FragmentId, index: FragmentIndex, bytes: Vec<u8>) -> (r: Self)
        ensures
            r.id == id && r.index == index && r.total.value() == 0 && r.bytes@ == bytes@,
    {
        FragmentedMessage { id, index, total: FragmentIndex::zero(), bytes }
    }

    /// Sets how many fragments the message has.
    pub fn set_total(&mut self, total: FragmentIndex)
        ensures
            *final(self) == (FragmentedMessage { total, ..*old(self) }),
    {
        self.total = total;
    }
}

/// The number of fragments a message of `len` bits is split into.
pub open spec fn fragment_count(len: nat) -> nat {
    if len == 0 {
        1
    } else {
        ((len + 3199) / 3200) as nat
    }
}

/// The bits of fragment `i` of the stream `bits`.
pub open spec fn fragment_piece(bits: Seq<bool>, i: int) -> Seq<bool> {
    bits.subrange(3200 * i, if 3200 * (i + 1) <= bits.len() { 3200 * (i + 1) } else { bits.len() as int })
}

/// The fragments carry `bits`: one fragment per `FRAGMENTATION_LIMIT_BITS` bits (at
/// least one), each fragment's bytes packing its share of the bits.
pub open spec fn carries(frags: Seq<FragmentedMessage>, bits: Seq<bool>) -> bool {
    &&& frags.len() == fragment_count(bits.len())
    &&& forall|i: int| 0 <= i < frags.len() ==> packs(fragment_piece(bits, i), #[trigger] frags[i].bytes@)
}

/// The pieces one after the other.
pub open spec fn concat(pieces: Seq<Seq<bool>>) -> Seq<bool>
    decreases pieces.len(),
{
    if pieces.len() == 0 {
        Seq::empty()
    } else {
        concat(pieces.drop_last()) + pieces.last()
    }
}

proof fn lemma_concat_uniform(pieces: Seq<Seq<bool>>)
    requires
        forall|i: int| 0 <= i < pieces.len() ==> (#[trigger] pieces[i]).len() == 3200,
    ensures
        concat(pieces).len() == 3200 * pieces.len(),
        forall|i: int| 0 <= i < pieces.len() ==> concat(pieces).subrange(3200 * i, 3200 * i + 3200) == #[trigger] pieces[i],
    decreases pieces.len(),
{
    if pieces.len() > 0 {
        let init = pieces.drop_last();
        assert forall|i: int| 0 <= i < init.len() implies (#[trigger] init[i]).len() == 3200 by {
            assert(init[i] == pieces[i]);
        }
        lemma_concat_uniform(init);
        assert forall|i: int| 0 <= i < pieces.len() implies concat(pieces).subrange(3200 * i, 3200 * i + 3200) == #[trigger] pieces[i] by {
            if i < init.len() {
                assert(concat(init).subrange(3200 * i, 3200 * i + 3200) == init[i]);
                assert(concat(pieces).subrange(3200 * i, 3200 * i + 3200) =~= concat(init).subrange(3200 * i, 3200 * i + 3200));
            } else {
                assert(concat(pieces).subrange(3200 * i, 3200 * i + 3200) =~= pieces.last());
            }
        }
    }
}

proof fn lemma_carries(pieces: Seq<Seq<bool>>, frags: Seq<Vec<u8>>, written: Seq<bool>)
    requires
        pieces.len() >= 1,
        frags.len() == pieces.len(),
        forall|i: int| 0 <= i < pieces.len() - 1 ==> (#[trigger] pieces[i]).len() == 3200,
        1 <= pieces.last().len() <= 3200 || (pieces.len() == 1 && pieces.last().len() == 0),
        forall|i: int| 0 <= i < pieces.len() ==> packs(#[trigger] pieces[i], frags[i]@),
        concat(pieces) == written,
    ensures
        frags.len() == fragment_count(written.len()),
        forall|i: int| 0 <= i < frags.len() ==> packs(fragment_piece(written, i), #[trigger] frags[i]@),
{
    let init = pieces.drop_last();
    assert forall|i: int| 0 <= i < init.len() implies (#[trigger] init[i]).len() == 3200 by {
        assert(init[i] == pieces[i]);
    }
    lemma_concat_uniform(init);
    let n = init.len();
    assert(written.len() == 3200 * n + pieces.last().len());
    assert(fragment_count(written.len()) == n + 1) by (nonlinear_arith)
        requires
            written.len() == 3200 * n + pieces.last().len(),
            1 <= pieces.last().len() <= 3200 || (n == 0 && pieces.last().len() == 0),
    {
    }
    assert forall|i: int| 0 <= i < frags.len() implies packs(fragment_piece(written, i), #[trigger] frags[i]@) by {
        if i < n {
            assert(written.subrange(3200 * i, 3200 * i + 3200) =~= concat(init).subrange(3200 * i, 3200 * i + 3200));
            assert(init[i] == pieces[i]);
            assert(fragment_piece(written, i) == pieces[i]);
        } else {
            assert(fragment_piece(written, i) =~= pieces.last());
        }
    }
}

/// The bytes of the fragments, one fragment after the other.
pub open spec fn joined(frags: Seq<FragmentedMessage>) -> Seq<u8>
    decreases frags.len(),
{
    if frags.len() == 0 {
        Seq::empty()
    } else {
        joined(frags.drop_last()) + frags.last().bytes@
    }
}

proof fn lemma_joined_prefix(frags: Seq<FragmentedMessage>, bits: Seq<bool>, k: int)
    requires
        carries(frags, bits),
        0 <= k < frags.len(),
    ensures
        3200 * k <= bits.len(),
        packs(bits.take(3200 * k), joined(frags.take(k))),
    decreases k,
{
    if k == 0 {
        assert(joined(frags.take(0)) =~= Seq::<u8>::empty());
        assert(bits.take(0) =~= Seq::<bool>::empty());
    } else {
        lemma_joined_prefix(frags, bits, k - 1);
        let n = frags.len();
        assert(3200 * k <= bits.len()) by (nonlinear_arith)
            requires
                k < n,
                n == fragment_count(bits.len()),
        {
        }
        let piece = fragment_piece(bits, k - 1);
        assert(piece =~= bits.subrange(3200 * (k - 1), 3200 * k));
        assert(packs(piece, frags[k - 1].bytes@));
        lemma_packs_append(bits.take(3200 * (k - 1)), joined(frags.take(k - 1)), piece, frags[k - 1].bytes@);
        assert(bits.take(3200 * (k - 1)) + piece =~= bits.take(3200 * k));
        assert(frags.take(k).drop_last() =~= frags.take(k - 1));
    }
}

/// The fragments of a message, their bytes joined in order, hold exactly the message's
/// bits, zero-padded to a whole byte: joining them rebuilds the message.
pub proof fn law_fragments_rejoin(frags: Seq<FragmentedMessage>, bits: Seq<bool>)
    requires
        carries(frags, bits),
    ensures
        packs(bits, joined(frags)),
{
    let n = frags.len();
    assert(n >= 1);
    lemma_joined_prefix(frags, bits, n - 1);
    let last = fragment_piece(bits, n - 1);
    assert(bits.len() <= 3200 * n) by (nonlinear_arith)
        requires
            n == fragment_count(bits.len()),
    {
    }
    assert(last =~= bits.subrange(3200 * (n - 1), bits.len() as int));
    assert(packs(last, frags[n - 1].bytes@));
    lemma_packs_append(bits.take(3200 * (n - 1)), joined(frags.take(n - 1)), last, frags[n - 1].bytes@);
    assert(bits.take(3200 * (n - 1)) + last =~= bits);
    assert(frags.drop_last() =~= frags.take(n - 1));
}

proof fn lemma_shift_msb(b: u8, k: u8)
    by (bit_vector)
    requires
        k < 8,
    ensures
        (((b << k) as u8) & 0x80u8 != 0u8) == bit_of(b, k),
        (((b << k) as u8) << 1u8) as u8 == (b << ((k + 1) as u8)) as u8,
{
}

/// Collects a written bit stream into fragments of `FRAGMENTATION_LIMIT_BITS` bits each
/// (the last one possibly shorter).
pub struct FragmentWriter {
    current_fragment_index: FragmentIndex,
    fragments: Vec<Vec<u8>>,
    current_writer: BitWriter,
    pieces: Ghost<Seq<Seq<bool>>>,
}

impl FragmentWriter {
    /// The finished fragments' bits.
    pub closed spec fn pieces(&self) -> Seq<Seq<bool>> {
        self.pieces@
    }

    fn new() -> (r: Self)
        ensures
            r.inv(),
            r.written() == Seq::<bool>::empty(),
            r.room() == u32::MAX,
            r.pieces() == Seq::<Seq<bool>>::empty(),
    {
        let r = Self {
            current_fragment_index: FragmentIndex::zero(),
            fragments: Vec::new(),
            current_writer: BitWriter::with_capacity(FRAGMENTATION_LIMIT_BITS),
            pieces: Ghost(Seq::empty()),
        };
        assert(concat(Seq::<Seq<bool>>::empty()) =~= Seq::<bool>::empty());
        r
    }

    /// Ends the current fragment, which is full, and starts a new one.
    fn flush_current(&mut self)
        requires
            old(self).core_inv(),
            old(self).current_writer.capacity() == 0,
        ensures
            final(self).core_inv(),
            final(self).written() == old(self).written(),
            final(self).current_writer.written() == Seq::<bool>::empty(),
            final(self).pieces().len() == old(self).pieces().len() + 1,
    {
        let ghost piece = self.current_writer.written();
        let ghost old_pieces = self.pieces@;
        let mut current = BitWriter::with_capacity(FRAGMENTATION_LIMIT_BITS);
        std::mem::swap(&mut current, &mut self.current_writer);
        let bytes = current.to_bytes();
        self.current_fragment_index.increment();
        self.fragments.push(bytes);
        proof {
            self.pieces@ = self.pieces@.push(piece);
            assert(self.pieces@.drop_last() =~= old_pieces);
            assert(self.written() =~= concat(old_pieces) + piece);
        }
    }

    /// Finishes the last fragment and returns every fragment, each knowing the total.
    fn to_messages(self, id: FragmentId) -> (r: Vec<FragmentedMessage>)
        requires
            self.inv(),
        ensures
            carries(r@, self.written()),
            forall|i: int| 0 <= i < r@.len() ==> {
                &&& (#[trigger] r@[i]).id == id
                &&& r@[i].index.value() == i
                &&& r@[i].total.value() == r@.len()
            },
    {
        let mut this = self;
        let ghost written = this.written();
        let ghost piece = this.current_writer.written();
        let ghost old_pieces = this.pieces@;
        let mut current = BitWriter::with_capacity(FRAGMENTATION_LIMIT_BITS);
        std::mem::swap(&mut current, &mut this.current_writer);
        let bytes = current.to_bytes();
        this.current_fragment_index.increment();
        this.fragments.push(bytes);
        proof {
            this.pieces@ = this.pieces@.push(piece);
            assert(this.pieces@.drop_last() =~= old_pieces);
            assert(concat(this.pieces@) =~= written);
            assert forall|i: int| 0 <= i < this.pieces@.len() implies packs(#[trigger] this.pieces@[i], this.fragments@[i]@) by {
                if i < old_pieces.len() {
                    assert(this.pieces@[i] == old_pieces[i]);
                }
            }
            assert forall|i: int| 0 <= i < this.pieces@.len() - 1 implies (#[trigger] this.pieces@[i]).len() == 3200 by {
                assert(this.pieces@[i] == old_pieces[i]);
            }
            lemma_carries(this.pieces@, this.fragments@, written);
        }
        let total = this.current_fragment_index;
        let mut output: Vec<FragmentedMessage> = Vec::with_capacity(this.fragments.len());
        let mut i: usize = 0;
        let mut index = FragmentIndex::zero();
        while i < this.fragments.len()
            invariant
                i <= this.fragments@.len(),
                this.fragments@.len() < u32::MAX,
                output@.len() == i,
                index.value() == i,
                total.value() == this.fragments@.len(),
                forall|j: int| 0 <= j < i ==> (#[trigger] output@[j]).id == id && output@[j].index.value() == j
                    && output@[j].total == total && output@[j].bytes@ == this.fragments@[j]@,
            decreases this.fragments@.len() - i,
        {
            let bytes = this.fragments[i].clone();
            proof {
                assert(bytes@ =~= this.fragments@[i as int]@);
            }
            let mut fragment = FragmentedMessage::new(id, index, bytes);
            fragment.set_total(total);
            output.push(fragment);
            index.increment();
            i = i + 1;
        }
        proof {
            assert forall|j: int| 0 <= j < output@.len() implies packs(fragment_piece(written, j), #[trigger] output@[j].bytes@) by {
                assert(packs(fragment_piece(written, j), this.fragments@[j]@));
            }
        }
        output
    }
}

impl FragmentWriter {
    /// The invariant, but for the rule that a fragment is only started to write a bit in
    /// it.
    closed spec fn core_inv(&self) -> bool {
        &&& self.current_writer.inv()
        &&& self.current_writer.capacity() + self.current_writer.written().len() == FRAGMENTATION_LIMIT_BITS
        &&& self.fragments@.len() == self.pieces@.len()
        &&& self.current_fragment_index.value() == self.pieces@.len()
        &&& forall|i: int| 0 <= i < self.pieces@.len() ==> {
            &&& (#[trigger] self.pieces@[i]).len() == FRAGMENTATION_LIMIT_BITS
            &&& packs(self.pieces@[i], self.fragments@[i]@)
        }
        &&& concat(self.pieces@).len() == FRAGMENTATION_LIMIT_BITS * self.pieces@.len()
        &&& concat(self.pieces@).len() + self.current_writer.written().len() <= u32::MAX
    }
}

impl BitWrite for FragmentWriter {
    closed spec fn inv(&self) -> bool {
        &&& self.core_inv()
        &&& self.pieces@.len() > 0 ==> self.current_writer.written().len() > 0
    }

    closed spec fn written(&self) -> Seq<bool> {
        concat(self.pieces@) + self.current_writer.written()
    }

    closed spec fn room(&self) -> nat {
        (u32::MAX - self.written().len()) as nat
    }

    closed spec fn budget(&self) -> nat {
        (u32::MAX - self.written().len()) as nat
    }

    closed spec fn limit(&self) -> nat {
        u32::MAX as nat
    }

    fn write_bit(&mut self, bit: bool) {
        if self.current_writer.bits_free() == 0 {
            self.flush_current();
        }
        proof {
            self.current_writer.lemma_room();
        }
        self.current_writer.write_bit(bit);
        assert(self.written() =~= old(self).written().push(bit));
    }

    fn write_byte(&mut self, byte: u8) {
        let mut b: u8 = byte;
        let mut k: u8 = 0;
        assert((byte << 0u8) as u8 == byte) by (bit_vector);
        while k < 8
            invariant
                k <= 8,
                self.inv(),
                b == (byte << k) as u8,
                self.written() == old(self).written() + byte_bits(byte).take(k as int),
                self.room() == old(self).room() - k,
                self.budget() == old(self).budget() - k,
                old(self).room() >= 8,
            decreases 8 - k,
        {
            proof {
                lemma_shift_msb(byte, k);
            }
            self.write_bit(b & 0x80 != 0);
            b = b << 1;
            assert(byte_bits(byte).take(k + 1) =~= byte_bits(byte).take(k as int).push(bit_of(byte, k)));
            k = k + 1;
        }
        assert(byte_bits(byte).take(8) =~= byte_bits(byte));
    }
}

} // verus!

verus! {

/// Splits messages that are too long for one packet, giving each message's fragments an
/// identifier of their own.
pub struct MessageFragmenter {
    current_fragment_id: FragmentId,
}

impl MessageFragmenter {
    /// The identifier the next fragmented message gets.
    pub closed spec fn next_id(&self) -> FragmentId {
        self.current_fragment_id
    }

    /// Creates a fragmenter whose first identifier is 0.
    pub fn new() -> (r: Self)
        ensures
            r.next_id().value() == 0,
    {
        Self { current_fragment_id: FragmentId::zero() }
    }

    /// Writes `message` into fragments of `FRAGMENTATION_LIMIT_BITS` bits, all under the
    /// next identifier, each knowing its position and the number of fragments.
    pub fn fragment_message<M: Message>(&mut self, message: &M) -> (r: Vec<FragmentedMessage>)
        requires
            message.encoding().len() <= u32::MAX,
        ensures
            carries(r@, message.encoding()),
            forall|i: int| 0 <= i < r@.len() ==> {
                &&& (#[trigger] r@[i]).id == old(self).next_id()
                &&& r@[i].index.value() == i
                &&& r@[i].total.value() == r@.len()
            },
            final(self).next_id().value() == (old(self).next_id().value() + 1) % 256,
    {
        let id = self.current_fragment_id;
        let mut fragmenter = FragmentWriter::new();
        self.current_fragment_id.increment();
        message.write(&mut fragmenter);
        assert(fragmenter.written() =~= message.encoding());
        fragmenter.to_messages(id)
    }
}

} // verus!

verus! {

impl Serde for FragmentId {
    open spec fn encoding(&self) -> Seq<bool> {
        self.value().encoding()
    }

    closed spec fn decoding(bits: Seq<bool>) -> Option<(FragmentId, nat)> {
        match u8::decoding(bits) {
            Some((v, n)) => Some((FragmentId { inner: v }, n)),
            None => None,
        }
    }

    proof fn lemma_decode_encoding(&self, rest: Seq<bool>) {
        self.inner.lemma_decode_encoding(rest);
    }

    fn ser<W: BitWrite>(&self, writer: &mut W) {
        self.inner.ser(writer)
    }

    fn de(reader: &mut BitReader) -> (r: Result<FragmentId, SerdeErr>) {
        match u8::de(reader) {
            Ok(v) => Ok(FragmentId { inner: v }),
            Err(e) => Err(e),
        }
    }

    fn bit_length(&self) -> (r: u32) {
        self.inner.bit_length()
    }
}

impl Serde for FragmentIndex {
    open spec fn encoding(&self) -> Seq<bool> {
        self.value().encoding()
    }

    closed spec fn decoding(bits: Seq<bool>) -> Option<(FragmentIndex, nat)> {
        match u32::decoding(bits) {
            Some((v, n)) => Some((FragmentIndex { inner: v }, n)),
            None => None,
        }
    }

    proof fn lemma_decode_encoding(&self, rest: Seq<bool>) {
        self.inner.lemma_decode_encoding(rest);
    }

    fn ser<W: BitWrite>(&self, writer: &mut W) {
        self.inner.ser(writer)
    }

    fn de(reader: &mut BitReader) -> (r: Result<FragmentIndex, SerdeErr>) {
        match u32::de(reader) {
            Ok(v) => Ok(FragmentIndex { inner: v }),
            Err(e) => Err(e),
        }
    }

    fn bit_length(&self) -> (r: u32) {
        self.inner.bit_length()
    }
}

/// The header of a fragment: its identifier, its index, the total, and the number of
/// bytes that follow.
pub open spec fn fragment_header(m: FragmentedMessage) -> Seq<bool> {
    m.id.encoding() + m.index.encoding() + m.total.encoding() + (m.bytes@.len() as u32).encoding()
}

/// The fields of the fragment header the bits start with, and the header's length.
pub open spec fn fragment_parts(bits: Seq<bool>) -> Option<(FragmentId, FragmentIndex, FragmentIndex, u32, nat)> {
    match FragmentId::decoding(bits) {
        Some((id, n1)) => match FragmentIndex::decoding(bits.skip(n1 as int)) {
            Some((index, n2)) => match FragmentIndex::decoding(bits.skip((n1 + n2) as int)) {
                Some((total, n3)) => match u32::decoding(bits.skip((n1 + n2 + n3) as int)) {
                    Some((count, n4)) => Some((id, index, total, count, n1 + n2 + n3 + n4)),
                    None => None,
                },
                None => None,
            },
            None => None,
        },
        None => None,
    }
}

/// A fragment travels as a message of its own: its header, then its bytes.
impl Message for FragmentedMessage {
    open spec fn encoding(&self) -> Seq<bool> {
        fragment_header(*self) + bytes_bits(self.bytes@)
    }

    fn bit_length(&self) -> (r: u32) {
        let count = self.bytes.len() as u32;
        let head = self.id.bit_length() + self.index.bit_length() + self.total.bit_length()
            + count.bit_length();
        head + 8 * count
    }

    open spec fn fragment_flag(&self) -> bool {
        true
    }

    fn is_fragment(&self) -> (r: bool) {
        true
    }

    fn encoding_shorter_than(&self, limit: u64) -> (r: bool) {
        proof {
            lemma_le_bytes_len(self.id.value() as nat, 1);
            lemma_le_bytes_len(self.index.value() as nat, 4);
            lemma_le_bytes_len(self.total.value() as nat, 4);
            lemma_le_bytes_len((self.bytes@.len() as u32) as nat, 4);
        }
        let count = self.bytes.len() as u128;
        104 + 8 * count < limit as u128
    }

    fn write<W: BitWrite>(&self, writer: &mut W) {
        let ghost head = fragment_header(*self);
        self.id.ser(writer);
        self.index.ser(writer);
        self.total.ser(writer);
        let count = self.bytes.len() as u32;
        count.ser(writer);
        assert(writer.written() =~= old(writer).written() + head + bytes_bits(self.bytes@.take(0)));
        let mut i: usize = 0;
        while i < self.bytes.len()
            invariant
                i <= self.bytes.len(),
                head == fragment_header(*self),
                writer.inv(),
                writer.limit() == old(writer).limit(),
                writer.written() == old(writer).written() + head + bytes_bits(self.bytes@.take(i as int)),
                writer.room() == old(writer).room() - head.len() - 8 * i,
                writer.budget() == old(writer).budget() - head.len() - 8 * i,
                old(writer).room() >= head.len() + 8 * self.bytes.len(),
                old(writer).budget() >= head.len() + 8 * self.bytes.len(),
            decreases self.bytes.len() - i,
        {
            proof {
                lemma_bytes_bits_push(self.bytes@.take(i as int), self.bytes@[i as int]);
                assert(self.bytes@.take(i + 1) =~= self.bytes@.take(i as int).push(self.bytes@[i as int]));
            }
            writer.write_byte(self.bytes[i]);
            i = i + 1;
        }
        assert(self.bytes@.take(i as int) =~= self.bytes@);
    }

    open spec fn decoded_len(bits: Seq<bool>) -> Option<nat> {
        match fragment_parts(bits) {
            Some((_, _, _, count, h)) => if h + 8 * count <= bits.len() {
                Some((h + 8 * count) as nat)
            } else {
                None
            },
            None => None,
        }
    }

    open spec fn parses(bits: Seq<bool>, m: FragmentedMessage, n: nat) -> bool {
        match fragment_parts(bits) {
            Some((id, index, total, count, h)) => {
                &&& m.id == id
                &&& m.index == index
                &&& m.total == total
                &&& m.bytes@ == bytes_from_bits(bits.skip(h as int), count as nat)
                &&& n == h + 8 * count
                &&& h + 8 * count <= bits.len()
            },
            None => false,
        }
    }

    proof fn lemma_parses_encoding(&self, rest: Seq<bool>) {
        let count = self.bytes@.len() as u32;
        let body = bytes_bits(self.bytes@) + rest;
        let c4 = count.encoding() + body;
        let c3 = self.total.encoding() + c4;
        let c2 = self.index.encoding() + c3;
        let all = self.id.encoding() + c2;
        assert(self.encoding() + rest =~= all);
        self.id.lemma_decode_encoding(c2);
        let n1 = self.id.encoding().len();
        assert(all.skip(n1 as int) =~= c2);
        self.index.lemma_decode_encoding(c3);
        let n2 = self.index.encoding().len();
        assert(all.skip((n1 + n2) as int) =~= c3);
        self.total.lemma_decode_encoding(c4);
        let n3 = self.total.encoding().len();
        assert(all.skip((n1 + n2 + n3) as int) =~= c4);
        count.lemma_decode_encoding(body);
        let n4 = count.encoding().len();
        assert(all.skip((n1 + n2 + n3 + n4) as int) =~= body);
        assert(fragment_header(*self).len() == n1 + n2 + n3 + n4);
        assert(count as nat == self.bytes@.len());
        lemma_bytes_from_bits(self.bytes@, rest);
    }

    fn read(reader: &mut BitReader) -> (r: Result<FragmentedMessage, SerdeErr>) {
        let ghost rem = reader.remaining();
        let ghost pos = reader.position();
        let id = match FragmentId::de(reader) {
            Ok(v) => v,
            Err(e) => {
                return Err(e);
            },
        };
        proof {
            reader.lemma_wf();
            assert(reader.remaining() =~= rem.skip(reader.position() - pos));
        }
        let index = match FragmentIndex::de(reader) {
            Ok(v) => v,
            Err(e) => {
                return Err(e);
            },
        };
        proof {
            reader.lemma_wf();
            assert(reader.remaining() =~= rem.skip(reader.position() - pos));
        }
        let total = match FragmentIndex::de(reader) {
            Ok(v) => v,
            Err(e) => {
                return Err(e);
            },
        };
        proof {
            reader.lemma_wf();
            assert(reader.remaining() =~= rem.skip(reader.position() - pos));
        }
        let count = match u32::de(reader) {
            Ok(v) => v,
            Err(e) => {
                return Err(e);
            },
        };
        proof {
            reader.lemma_wf();
            assert(reader.remaining() =~= rem.skip(reader.position() - pos));
        }
        let ghost h = (reader.position() - pos) as nat;
        let ghost after = rem.skip(h as int);
        assert(fragment_parts(rem) == Some((id, index, total, count, h)));
        let mut bytes: Vec<u8> = Vec::new();
        let mut i: u32 = 0;
        while i < count
            invariant
                i <= count,
                reader.wf(),
                reader.bits() == old(reader).bits(),
                rem == old(reader).remaining(),
                pos == old(reader).position(),
                after == rem.skip(h as int),
                h <= rem.len(),
                fragment_parts(rem) == Some((id, index, total, count, h)),
                reader.position() == pos + h + 8 * i,
                reader.remaining() =~= after.skip(8 * i),
                8 * i <= after.len(),
                bytes@ == bytes_from_bits(after, i as nat),
            decreases count - i,
        {
            proof {
                reader.lemma_wf();
            }
            let b = match reader.read_byte() {
                Ok(b) => b,
                Err(e) => {
                    assert(after.skip(8 * i).len() == after.len() - 8 * i);
                    return Err(e);
                },
            };
            proof {
                let sub = after.subrange(8 * i, 8 * i + 8);
                assert(sub =~= after.skip(8 * i).take(8));
                lemma_byte_from_bits(sub);
                lemma_byte_bits_injective(byte_from_bits(sub), b);
            }
            bytes.push(b);
            proof {
                assert(bytes@ =~= bytes_from_bits(after, (i + 1) as nat));
                reader.lemma_wf();
                assert(reader.remaining() =~= after.skip(8 * (i + 1)));
            }
            i = i + 1;
        }
        let r = FragmentedMessage { id, index, total, bytes };
        Ok(r)
    }
}

} // verus!

