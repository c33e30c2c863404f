//! Values that can be written to and read back from a bit stream, and the encodings of
//! the primitive types.
use vstd::prelude::*;
use crate::bits::{bit_at, bit_of, byte_bits, bytes_bits, byte_from_bits, packs, lemma_byte_bits_roundtrip, lemma_div8, lemma_packs_prefix, lemma_split_position};
use crate::bit_reader::BitReader;
use crate::bit_write::BitWrite;
use crate::error::SerdeErr;

verus! {

/// A value with a fixed encoding as a bit stream.
pub trait Serde: Sized {
    /// The bits that encode the value.
    spec fn encoding(&self) -> Seq<bool>;

    /// The value encoded at the start of `bits`, with the number of bits it takes, or
    /// `None` when the bits do not start with an encoding.
    spec fn decoding(bits: Seq<bool>) -> Option<(Self, nat)>;

    /// An encoding followed by anything decodes to the encoded value.
    proof fn lemma_decode_encoding(&self, rest: Seq<bool>)
        ensures
            Self::decoding(self.encoding() + rest) == Some((*self, self.encoding().len())),
    ;

    /// Writes the value's encoding.
    fn ser<W: BitWrite>(&self, writer: &mut W)
        requires
            old(writer).inv(),
            old(writer).room() >= self.encoding().len(),
            old(writer).budget() >= self.encoding().len(),
        ensures
            final(writer).inv(),
            final(writer).written() == old(writer).written() + self.encoding(),
            final(writer).room() == old(writer).room() - self.encoding().len(),
            final(writer).budget() == old(writer).budget() - self.encoding().len(),
            final(writer).limit() == old(writer).limit(),
    ;

    /// Reads a value; fails when the unread bits do not start with an encoding.
    fn de(reader: &mut BitReader) -> (r: Result<Self, SerdeErr>)
        requires
            old(reader).wf(),
        ensures
            final(reader).wf(),
            final(reader).bits() == old(reader).bits(),
            match Self::decoding(old(reader).remaining()) {
                Some((v, n)) => r == Ok::<Self, SerdeErr>(v) && final(reader).position() == old(reader).position() + n,
                None => r is Err,
            },
    ;

    /// The number of bits in the value's encoding.
    fn bit_length(&self) -> (r: u32)
        ensures
            r == self.encoding().len(),
    ;
}

/// A type whose every value is encoded in the same number of bits.
pub trait ConstBitLength {
    /// The number of bits every value's encoding takes.
    fn const_bit_length() -> u32;
}

/// `256` to the power `n`.
pub open spec fn pow256(n: nat) -> nat
    decreases n,
{
    if n == 0 {
        1
    } else {
        256 * pow256((n - 1) as nat)
    }
}

/// The `n` low bytes of `v`, least significant first.
pub open spec fn le_bytes(v: nat, n: nat) -> Seq<u8>
    decreases n,
{
    if n == 0 {
        Seq::empty()
    } else {
        seq![(v % 256) as u8] + le_bytes(v / 256, (n - 1) as nat)
    }
}

/// The number whose bytes, least significant first, are `s`.
pub open spec fn le_value(s: Seq<u8>) -> nat
    decreases s.len(),
{
    if s.len() == 0 {
        0
    } else {
        (s[0] + 256 * le_value(s.drop_first())) as nat
    }
}

/// The bits of the `n` low bytes of `v`, least significant byte first.
pub open spec fn le_bits(v: nat, n: nat) -> Seq<bool> {
    bytes_bits(le_bytes(v, n))
}

/// The `n` bytes at the start of `bits`.
pub open spec fn bytes_from_bits(bits: Seq<bool>, n: nat) -> Seq<u8> {
    Seq::new(n, |i: int| byte_from_bits(bits.subrange(8 * i, 8 * i + 8)))
}

/// The unsigned number of `n` bytes, least significant first, at the start of `bits`.
pub open spec fn uint_decoding(bits: Seq<bool>, n: nat) -> Option<nat> {
    if bits.len() >= 8 * n {
        Some(le_value(bytes_from_bits(bits, n)))
    } else {
        None
    }
}

/// `v` as an unsigned number of `width` bits, two's complement.
pub open spec fn to_unsigned(v: int, width: nat) -> nat {
    if v < 0 {
        (v + vstd::arithmetic::power2::pow2(width)) as nat
    } else {
        v as nat
    }
}

/// The unsigned `width`-bit number `u` read as two's complement.
pub open spec fn to_signed(u: nat, width: nat) -> int {
    if u >= vstd::arithmetic::power2::pow2((width - 1) as nat) {
        u - vstd::arithmetic::power2::pow2(width)
    } else {
        u as int
    }
}

/// The powers of 256 that the primitive integers need.
pub proof fn lemma_pow256_values()
    ensures
        pow256(1) == 0x100,
        pow256(2) == 0x1_0000,
        pow256(4) == 0x1_0000_0000,
        pow256(8) == 0x1_0000_0000_0000_0000,
{
    reveal_with_fuel(pow256, 9);
}

/// The powers of two that the signed primitive integers need.
pub proof fn lemma_pow2_values()
    ensures
        vstd::arithmetic::power2::pow2(7) == 0x80,
        vstd::arithmetic::power2::pow2(8) == 0x100,
        vstd::arithmetic::power2::pow2(15) == 0x8000,
        vstd::arithmetic::power2::pow2(16) == 0x1_0000,
        vstd::arithmetic::power2::pow2(31) == 0x8000_0000,
        vstd::arithmetic::power2::pow2(32) == 0x1_0000_0000,
        vstd::arithmetic::power2::pow2(63) == 0x8000_0000_0000_0000,
        vstd::arithmetic::power2::pow2(64) == 0x1_0000_0000_0000_0000,
{
    vstd::arithmetic::power2::lemma2_to64();
    vstd::arithmetic::power2::lemma2_to64_rest();
}

/// `le_bytes` has `n` bytes.
pub proof fn lemma_le_bytes_len(v: nat, n: nat)
    ensures
        le_bytes(v, n).len() == n,
    decreases n,
{
    if n > 0 {
        lemma_le_bytes_len(v / 256, (n - 1) as nat);
    }
}

/// A number below `256^n` is recovered from its `n` low bytes.
pub proof fn lemma_le_roundtrip(v: nat, n: nat)
    requires
        v < pow256(n),
    ensures
        le_value(le_bytes(v, n)) == v,
    decreases n,
{
    lemma_le_bytes_len(v, n);
    if n > 0 {
        lemma_le_roundtrip(v / 256, (n - 1) as nat);
        assert(le_bytes(v, n).drop_first() =~= le_bytes(v / 256, (n - 1) as nat));
    }
}

/// The value of `n` bytes is below `256^n`.
pub proof fn lemma_le_value_bound(s: Seq<u8>)
    ensures
        le_value(s) < pow256(s.len()),
    decreases s.len(),
{
    if s.len() > 0 {
        lemma_le_value_bound(s.drop_first());
    }
}

/// The bits of a byte followed by more bytes.
pub proof fn lemma_bytes_bits_cons(b: u8, s: Seq<u8>)
    ensures
        bytes_bits(seq![b] + s) == byte_bits(b) + bytes_bits(s),
{
    let l = seq![b] + s;
    assert forall|k: int| 0 <= k < 8 * l.len() implies #[trigger] bytes_bits(l)[k] == (byte_bits(b)
        + bytes_bits(s))[k] by {
        lemma_div8(k);
        if k < 8 {
            lemma_split_position(k, 0);
        } else {
            lemma_div8(k - 8);
            lemma_split_position(k, (k - 8) / 8 + 1);
            assert(l[k / 8] == s[(k - 8) / 8]);
        }
    }
    assert(bytes_bits(l) =~= byte_bits(b) + bytes_bits(s));
}

/// The bytes read back from the bits of `bs`, followed by anything, are `bs`.
pub proof fn lemma_bytes_from_bits(bs: Seq<u8>, rest: Seq<bool>)
    ensures
        bytes_from_bits(bytes_bits(bs) + rest, bs.len()) == bs,
{
    let all = bytes_bits(bs) + rest;
    assert forall|i: int| 0 <= i < bs.len() implies #[trigger] bytes_from_bits(all, bs.len())[i]
        == bs[i] by {
        let sub = all.subrange(8 * i, 8 * i + 8);
        assert forall|j: int| 0 <= j < 8 implies #[trigger] sub[j] == byte_bits(bs[i])[j] by {
            lemma_split_position(8 * i + j, i);
        }
        assert(sub =~= byte_bits(bs[i]));
        lemma_byte_bits_roundtrip(bs[i]);
    }
    assert(bytes_from_bits(all, bs.len()) =~= bs);
}

/// An unsigned number below `256^n`, encoded in `n` bytes and followed by anything,
/// decodes to itself.
pub proof fn lemma_uint_roundtrip(v: nat, n: nat, rest: Seq<bool>)
    requires
        v < pow256(n),
    ensures
        uint_decoding(le_bits(v, n) + rest, n) == Some(v),
        le_bits(v, n).len() == 8 * n,
{
    lemma_le_bytes_len(v, n);
    lemma_bytes_from_bits(le_bytes(v, n), rest);
    lemma_le_roundtrip(v, n);
}

/// Writes the `n` low bytes of `v`, least significant first.
pub(crate) fn write_uint<W: BitWrite>(writer: &mut W, v: u64, n: usize)
    requires
        old(writer).inv(),
        old(writer).room() >= 8 * n,
        old(writer).budget() >= 8 * n,
    ensures
        final(writer).inv(),
        final(writer).written() == old(writer).written() + le_bits(v as nat, n as nat),
        final(writer).room() == old(writer).room() - 8 * n,
        final(writer).budget() == old(writer).budget() - 8 * n,
        final(writer).limit() == old(writer).limit(),
{
    let mut rem: u64 = v;
    let mut i: usize = 0;
    while i < n
        invariant
            i <= n,
            writer.inv(),
            writer.limit() == old(writer).limit(),
            writer.room() == old(writer).room() - 8 * i,
            writer.budget() == old(writer).budget() - 8 * i,
            old(writer).budget() >= 8 * n,
            old(writer).room() >= 8 * n,
            old(writer).written() + le_bits(v as nat, n as nat) == writer.written() + le_bits(
                rem as nat,
                (n - i) as nat,
            ),
        decreases n - i,
    {
        let byte = (rem % 256) as u8;
        proof {
            lemma_bytes_bits_cons(byte, le_bytes((rem / 256) as nat, (n - i - 1) as nat));
            assert(le_bytes(rem as nat, (n - i) as nat) == seq![byte] + le_bytes(
                (rem / 256) as nat,
                (n - i - 1) as nat,
            ));
        }
        let ghost before = writer.written();
        writer.write_byte(byte);
        assert(before + le_bits(rem as nat, (n - i) as nat) =~= writer.written() + le_bits(
            (rem / 256) as nat,
            (n - i - 1) as nat,
        ));
        rem = rem / 256;
        i = i + 1;
    }
    assert(le_bits(rem as nat, 0) =~= Seq::<bool>::empty());
    assert(writer.written() + le_bits(rem as nat, 0) =~= writer.written());
}

/// Reads an unsigned number of `n` bytes, least significant first.
pub(crate) fn read_uint(reader: &mut BitReader, n: usize) -> (r: Result<u64, SerdeErr>)
    requires
        old(reader).wf(),
        n <= 8,
    ensures
        final(reader).wf(),
        final(reader).bits() == old(reader).bits(),
        match uint_decoding(old(reader).remaining(), n as nat) {
            Some(v) => r == Ok::<u64, SerdeErr>(v as u64) && final(reader).position() == old(reader).position() + 8 * n && v < pow256(n as nat),
            None => r is Err,
        },
{
    let ghost start = reader.remaining();
    let mut bytes: Vec<u8> = Vec::new();
    let mut i: usize = 0;
    while i < n
        invariant
            i <= n,
            n <= 8,
            reader.wf(),
            reader.bits() == old(reader).bits(),
            start == old(reader).remaining(),
            reader.position() == old(reader).position() + 8 * i,
            start.len() >= 8 * i,
            reader.remaining() == start.skip(8 * i),
            bytes@.len() == i,
            forall|k: int| 0 <= k < i ==> #[trigger] bytes@[k] == byte_from_bits(start.subrange(8 * k, 8 * k + 8)),
        decreases n - i,
    {
        let ghost rem = reader.remaining();
        match reader.read_byte() {
            Ok(b) => {
                proof {
                    assert(rem.take(8) =~= start.subrange(8 * i, 8 * i + 8));
                    lemma_byte_bits_roundtrip(b);
                    assert(reader.remaining() =~= start.skip(8 * (i + 1)));
                }
                bytes.push(b);
            },
            Err(e) => {
                return Err(e);
            },
        }
        i = i + 1;
    }
    assert(bytes@ =~= bytes_from_bits(start, n as nat));
    let mut v: u64 = 0;
    let mut j: usize = n;
    proof {
        assert(bytes@.skip(n as int) =~= Seq::<u8>::empty());
        lemma_pow256_values();
    }
    while j > 0
        invariant
            j <= n,
            n <= 8,
            bytes@.len() == n,
            v == le_value(bytes@.skip(j as int)),
            pow256(8) == 0x1_0000_0000_0000_0000,
        decreases j,
    {
        proof {
            lemma_le_value_bound(bytes@.skip(j as int));
            assert(pow256((n - j) as nat) <= pow256(7)) by {
                lemma_pow256_monotonic((n - j) as nat, 7);
            }
            reveal_with_fuel(pow256, 8);
            assert(bytes@.skip(j - 1).drop_first() =~= bytes@.skip(j as int));
        }
        v = v * 256 + bytes[j - 1] as u64;
        j = j - 1;
    }
    proof {
        assert(bytes@.skip(0) =~= bytes@);
        lemma_le_value_bound(bytes@);
    }
    Ok(v)
}

/// `256^n` grows with `n`.
pub proof fn lemma_pow256_monotonic(a: nat, b: nat)
    requires
        a <= b,
    ensures
        pow256(a) <= pow256(b),
    decreases b,
{
    if a < b {
        lemma_pow256_monotonic(a, (b - 1) as nat);
    }
}

/// Anything written and then packed into bytes is read back: a value whose encoding
/// starts at bit `at` of what was written decodes from the packed bytes' bits at `at`.
pub proof fn law_read_back_written<T: Serde>(v: T, written: Seq<bool>, bytes: Seq<u8>, at: nat)
    requires
        packs(written, bytes),
        at + v.encoding().len() <= written.len(),
        written.subrange(at as int, (at + v.encoding().len()) as int) == v.encoding(),
    ensures
        T::decoding(bytes_bits(bytes).skip(at as int)) == Some((v, v.encoding().len())),
{
    lemma_packs_prefix(written, bytes);
    let all = bytes_bits(bytes);
    let n = v.encoding().len();
    let rest = all.skip((at + n) as int);
    assert(all.skip(at as int) =~= v.encoding() + rest) by {
        assert forall|k: int| 0 <= k < n implies #[trigger] all.skip(at as int)[k] == v.encoding()[k] by {
            assert(all.take(written.len() as int)[at + k] == written[at + k]);
            assert(written.subrange(at as int, (at + n) as int)[k] == written[at + k]);
        }
    }
    v.lemma_decode_encoding(rest);
}

/// The `n` low bits of `v`, least significant first.
pub open spec fn low_bits(v: nat, n: nat) -> Seq<bool> {
    Seq::new(n, |i: int| (v / vstd::arithmetic::power2::pow2(i as nat)) % 2 == 1)
}

/// The number whose bits, least significant first, are `bits`.
pub open spec fn low_value(bits: Seq<bool>) -> nat
    decreases bits.len(),
{
    if bits.len() == 0 {
        0
    } else {
        low_value(bits.drop_last()) + if bits.last() {
            vstd::arithmetic::power2::pow2((bits.len() - 1) as nat)
        } else {
            0
        }
    }
}

/// The `n` low bits of `v` read back give `v` modulo `2^n`.
pub proof fn lemma_low_roundtrip(v: nat, n: nat)
    ensures
        low_value(low_bits(v, n)) == v % vstd::arithmetic::power2::pow2(n),
    decreases n,
{
    if n == 0 {
        vstd::arithmetic::power2::lemma2_to64();
        assert(low_bits(v, 0) =~= Seq::<bool>::empty());
    } else {
        let m = (n - 1) as nat;
        lemma_low_roundtrip(v, m);
        assert(low_bits(v, n).drop_last() =~= low_bits(v, m));
        vstd::arithmetic::power2::lemma_pow2_unfold(n);
        vstd::arithmetic::power2::lemma_pow2_pos(m);
        let p = vstd::arithmetic::power2::pow2(m) as int;
        vstd::arithmetic::div_mod::lemma_mod_breakdown(v as int, p, 2);
        assert(p * 2 == vstd::arithmetic::power2::pow2(n));
    }
}

/// A number of `n` bits is below `2^n`.
pub proof fn lemma_low_value_bound(bits: Seq<bool>)
    ensures
        low_value(bits) < vstd::arithmetic::power2::pow2(bits.len()),
    decreases bits.len(),
{
    if bits.len() == 0 {
        vstd::arithmetic::power2::lemma2_to64();
    } else {
        lemma_low_value_bound(bits.drop_last());
        vstd::arithmetic::power2::lemma_pow2_unfold(bits.len());
    }
}

/// Writes the `n` low bits of `v`, least significant first.
pub(crate) fn write_low_bits<W: BitWrite>(writer: &mut W, v: u8, n: u8)
    requires
        old(writer).inv(),
        n <= 8,
        old(writer).room() >= n,
        old(writer).budget() >= n,
    ensures
        final(writer).inv(),
        final(writer).written() == old(writer).written() + low_bits(v as nat, n as nat),
        final(writer).room() == old(writer).room() - n,
        final(writer).budget() == old(writer).budget() - n,
        final(writer).limit() == old(writer).limit(),
{
    let mut rest: u8 = v;
    let mut i: u8 = 0;
    proof {
        vstd::arithmetic::power2::lemma2_to64();
        assert(low_bits(v as nat, 0) =~= Seq::<bool>::empty());
        assert(old(writer).written() + low_bits(v as nat, 0) =~= old(writer).written());
    }
    while i < n
        invariant
            i <= n <= 8,
            writer.inv(),
            writer.limit() == old(writer).limit(),
            writer.written() == old(writer).written() + low_bits(v as nat, i as nat),
            rest == (v as nat) / vstd::arithmetic::power2::pow2(i as nat),
            writer.room() == old(writer).room() - i,
            writer.budget() == old(writer).budget() - i,
            old(writer).room() >= n,
            old(writer).budget() >= n,
        decreases n - i,
    {
        writer.write_bit(rest % 2 == 1);
        proof {
            assert(low_bits(v as nat, (i + 1) as nat) =~= low_bits(v as nat, i as nat).push(rest % 2 == 1));
            vstd::arithmetic::power2::lemma_pow2_unfold((i + 1) as nat);
            vstd::arithmetic::power2::lemma_pow2_pos(i as nat);
            vstd::arithmetic::div_mod::lemma_div_denominator(v as int, vstd::arithmetic::power2::pow2(i as nat) as int, 2);
        }
        rest = rest / 2;
        i = i + 1;
    }
}

/// Reads `n` bits as a number, least significant bit first; fails when fewer than `n`
/// bits are left.
pub(crate) fn read_low_bits(reader: &mut BitReader, n: u8) -> (r: Result<u16, SerdeErr>)
    requires
        old(reader).wf(),
        n <= 8,
    ensures
        final(reader).wf(),
        final(reader).bits() == old(reader).bits(),
        old(reader).remaining().len() >= n ==> r == Ok::<u16, SerdeErr>(
            low_value(old(reader).remaining().take(n as int)) as u16,
        ) && final(reader).position() == old(reader).position() + n,
        old(reader).remaining().len() < n ==> r is Err,
{
    let ghost rem0 = old(reader).remaining();
    let mut acc: u16 = 0;
    let mut weight: u16 = 1;
    let mut i: u8 = 0;
    proof {
        vstd::arithmetic::power2::lemma2_to64();
        old(reader).lemma_wf();
        assert(rem0.take(0) =~= Seq::<bool>::empty());
    }
    while i < n
        invariant
            i <= n <= 8,
            reader.wf(),
            reader.bits() == old(reader).bits(),
            rem0 == old(reader).remaining(),
            old(reader).position() <= old(reader).bits().len(),
            rem0.len() == old(reader).bits().len() - old(reader).position(),
            reader.position() == old(reader).position() + i,
            rem0.len() >= i,
            acc == low_value(rem0.take(i as int)),
            acc < vstd::arithmetic::power2::pow2(i as nat),
            weight == vstd::arithmetic::power2::pow2(i as nat),
        decreases n - i,
    {
        proof {
            vstd::arithmetic::power2::lemma2_to64();
            assert(reader.remaining() =~= rem0.skip(i as int));
        }
        let b = match reader.read_bit() {
            Ok(b) => b,
            Err(e) => {
                return Err(e);
            },
        };
        proof {
            assert(rem0.take(i + 1).drop_last() =~= rem0.take(i as int));
            assert(rem0.take(i + 1).last() == b);
            vstd::arithmetic::power2::lemma_pow2_unfold((i + 1) as nat);
        }
        if b {
            acc = acc + weight;
        }
        weight = weight * 2;
        i = i + 1;
    }
    Ok(acc)
}

} // verus!

