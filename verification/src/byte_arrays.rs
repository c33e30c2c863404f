//! The encoding of fixed-size byte arrays: their bytes, one after the other.
use vstd::prelude::*;
use crate::bit_reader::BitReader;
use crate::bit_write::BitWrite;
use crate::bits::{byte_bits, bytes_bits, lemma_byte_bits_roundtrip, lemma_bytes_bits_push};
use crate::error::SerdeErr;
use crate::serde::{Serde, bytes_from_bits, lemma_bytes_from_bits};

verus! {

broadcast use vstd::array::group_array_axioms;

/// The array holding the bytes `s`.
pub open spec fn array_of<const N: usize>(s: Seq<u8>) -> [u8; N] {
    choose|a: [u8; N]| a@ == s
}

/// The bytes of an array, read back from its bits followed by anything, make the same
/// array.
proof fn lemma_array_decode<const N: usize>(a: [u8; N], rest: Seq<bool>)
    ensures
        (bytes_bits(a@) + rest).len() >= 8 * N,
        array_of::<N>(bytes_from_bits(bytes_bits(a@) + rest, N as nat)) == a,
{
    lemma_bytes_from_bits(a@, rest);
    let c = array_of::<N>(a@);
    assert(exists|x: [u8; N]| x@ == a@);
    assert(c@ == a@);
    assert(c =~= a);
}

/// Writes the bytes of `a`.
fn write_array<W: BitWrite, const N: usize>(writer: &mut W, a: &[u8; N])
    requires
        old(writer).inv(),
        old(writer).room() >= 8 * N,
        old(writer).budget() >= 8 * N,
    ensures
        final(writer).inv(),
        final(writer).written() == old(writer).written() + bytes_bits(a@),
        final(writer).room() == old(writer).room() - 8 * N,
        final(writer).budget() == old(writer).budget() - 8 * N,
        final(writer).limit() == old(writer).limit(),
{
    let mut i: usize = 0;
    proof {
        assert(a@.take(0) =~= Seq::<u8>::empty());
        assert(bytes_bits(a@.take(0)) =~= Seq::<bool>::empty());
        assert(old(writer).written() + bytes_bits(a@.take(0)) =~= old(writer).written());
    }
    while i < N
        invariant
            i <= N,
            a@.len() == N,
            writer.inv(),
            writer.limit() == old(writer).limit(),
            writer.written() == old(writer).written() + bytes_bits(a@.take(i as int)),
            writer.room() == old(writer).room() - 8 * i,
            writer.budget() == old(writer).budget() - 8 * i,
            old(writer).room() >= 8 * N,
            old(writer).budget() >= 8 * N,
        decreases N - i,
    {
        proof {
            lemma_bytes_bits_push(a@.take(i as int), a@[i as int]);
            assert(a@.take(i + 1) =~= a@.take(i as int).push(a@[i as int]));
        }
        writer.write_byte(a[i]);
        i = i + 1;
    }
    assert(a@.take(N as int) =~= a@);
}

/// Reads `N` bytes into an array; fails when fewer than `8 * N` bits are left.
fn read_array<const N: usize>(reader: &mut BitReader) -> (r: Result<[u8; N], SerdeErr>)
    requires
        old(reader).wf(),
    ensures
        final(reader).wf(),
        final(reader).bits() == old(reader).bits(),
        old(reader).remaining().len() >= 8 * N ==> r == Ok::<[u8; N], SerdeErr>(
            array_of::<N>(bytes_from_bits(old(reader).remaining(), N as nat)),
        ) && final(reader).position() == old(reader).position() + 8 * N,
        old(reader).remaining().len() < 8 * N ==> r is Err,
{
    let ghost rem0 = old(reader).remaining();
    let ghost want = bytes_from_bits(rem0, N as nat);
    let mut a: [u8; N] = [0u8; N];
    let mut i: usize = 0;
    proof {
        old(reader).lemma_wf();
    }
    while i < N
        invariant
            i <= N,
            a@.len() == N,
            reader.wf(),
            reader.bits() == old(reader).bits(),
            rem0 == old(reader).remaining(),
            want == bytes_from_bits(rem0, N as nat),
            rem0.len() == old(reader).bits().len() - old(reader).position(),
            old(reader).position() <= old(reader).bits().len(),
            reader.position() == old(reader).position() + 8 * i,
            rem0.len() >= 8 * i,
            forall|j: int| 0 <= j < i ==> a@[j] == want[j],
        decreases N - i,
    {
        proof {
            assert(reader.remaining() =~= rem0.skip(8 * i));
        }
        let b = match reader.read_byte() {
            Ok(b) => b,
            Err(e) => {
                return Err(e);
            },
        };
        proof {
            assert(rem0.skip(8 * i).take(8) =~= rem0.subrange(8 * i, 8 * i + 8));
            lemma_byte_bits_roundtrip(b);
        }
        a[i] = b;
        i = i + 1;
    }
    proof {
        assert(a@ =~= want);
        assert(exists|x: [u8; N]| x@ == want);
        let c = array_of::<N>(want);
        assert(c =~= a);
    }
    Ok(a)
}

impl Serde for [u8; 32] {
    open spec fn encoding(&self) -> Seq<bool> {
        bytes_bits(self@)
    }

    open spec fn decoding(bits: Seq<bool>) -> Option<([u8; 32], nat)> {
        if bits.len() >= 256 {
            Some((array_of::<32>(bytes_from_bits(bits, 32)), 256))
        } else {
            None
        }
    }

    proof fn lemma_decode_encoding(&self, rest: Seq<bool>) {
        lemma_array_decode(*self, rest);
    }

    fn ser<W: BitWrite>(&self, writer: &mut W) {
        write_array(writer, self)
    }

    fn de(reader: &mut BitReader) -> (r: Result<[u8; 32], SerdeErr>) {
        read_array::<32>(reader)
    }

    fn bit_length(&self) -> (r: u32) {
        256
    }
}

impl Serde for [u8; 256] {
    open spec fn encoding(&self) -> Seq<bool> {
        bytes_bits(self@)
    }

    open spec fn decoding(bits: Seq<bool>) -> Option<([u8; 256], nat)> {
        if bits.len() >= 2048 {
            Some((array_of::<256>(bytes_from_bits(bits, 256)), 2048))
        } else {
            None
        }
    }

    proof fn lemma_decode_encoding(&self, rest: Seq<bool>) {
        lemma_array_decode(*self, rest);
    }

    fn ser<W: BitWrite>(&self, writer: &mut W) {
        write_array(writer, self)
    }

    fn de(reader: &mut BitReader) -> (r: Result<[u8; 256], SerdeErr>) {
        read_array::<256>(reader)
    }

    fn bit_length(&self) -> (r: u32) {
        2048
    }
}

} // verus!
