//! The encodings of the primitive types: integers are written least significant byte
//! first, in two's complement where signed; `bool` is one bit; `()` is no bits; `char`
//! is its code point as four bytes.
use vstd::prelude::*;
use crate::bit_reader::BitReader;
use crate::bit_write::BitWrite;
use crate::error::SerdeErr;
use crate::serde::{ConstBitLength, Serde, le_bits, uint_decoding, to_signed, to_unsigned, pow256, lemma_le_bytes_len, lemma_pow256_values, lemma_pow2_values, lemma_uint_roundtrip, write_uint, read_uint};

verus! {

impl Serde for u8 {
    open spec fn encoding(&self) -> Seq<bool> {
        le_bits(*self as nat, 1)
    }

    open spec fn decoding(bits: Seq<bool>) -> Option<(u8, nat)> {
        match uint_decoding(bits, 1) {
            Some(v) => Some((v as u8, 8)),
            None => None,
        }
    }

    proof fn lemma_decode_encoding(&self, rest: Seq<bool>) {
        lemma_pow256_values();
        lemma_uint_roundtrip(*self as nat, 1, rest);
    }

    fn ser<W: BitWrite>(&self, writer: &mut W) {
        proof {
            lemma_le_bytes_len(*self as nat, 1);
        }
        write_uint(writer, *self as u64, 1);
    }

    fn de(reader: &mut BitReader) -> (r: Result<u8, SerdeErr>) {
        proof {
            lemma_pow256_values();
        }
        match read_uint(reader, 1) {
            Ok(v) => Ok(v as u8),
            Err(e) => Err(e),
        }
    }

    fn bit_length(&self) -> (r: u32) {
        proof {
            lemma_le_bytes_len(*self as nat, 1);
        }
        8
    }
}

impl Serde for u16 {
    open spec fn encoding(&self) -> Seq<bool> {
        le_bits(*self as nat, 2)
    }

    open spec fn decoding(bits: Seq<bool>) -> Option<(u16, nat)> {
        match uint_decoding(bits, 2) {
            Some(v) => Some((v as u16, 16)),
            None => None,
        }
    }

    proof fn lemma_decode_encoding(&self, rest: Seq<bool>) {
        lemma_pow256_values();
        lemma_uint_roundtrip(*self as nat, 2, rest);
    }

    fn ser<W: BitWrite>(&self, writer: &mut W) {
        proof {
            lemma_le_bytes_len(*self as nat, 2);
        }
        write_uint(writer, *self as u64, 2);
    }

    fn de(reader: &mut BitReader) -> (r: Result<u16, SerdeErr>) {
        proof {
            lemma_pow256_values();
        }
        match read_uint(reader, 2) {
            Ok(v) => Ok(v as u16),
            Err(e) => Err(e),
        }
    }

    fn bit_length(&self) -> (r: u32) {
        proof {
            lemma_le_bytes_len(*self as nat, 2);
        }
        16
    }
}

impl Serde for u32 {
    open spec fn encoding(&self) -> Seq<bool> {
        le_bits(*self as nat, 4)
    }

    open spec fn decoding(bits: Seq<bool>) -> Option<(u32, nat)> {
        match uint_decoding(bits, 4) {
            Some(v) => Some((v as u32, 32)),
            None => None,
        }
    }

    proof fn lemma_decode_encoding(&self, rest: Seq<bool>) {
        lemma_pow256_values();
        lemma_uint_roundtrip(*self as nat, 4, rest);
    }

    fn ser<W: BitWrite>(&self, writer: &mut W) {
        proof {
            lemma_le_bytes_len(*self as nat, 4);
        }
        write_uint(writer, *self as u64, 4);
    }

    fn de(reader: &mut BitReader) -> (r: Result<u32, SerdeErr>) {
        proof {
            lemma_pow256_values();
        }
        match read_uint(reader, 4) {
            Ok(v) => Ok(v as u32),
            Err(e) => Err(e),
        }
    }

    fn bit_length(&self) -> (r: u32) {
        proof {
            lemma_le_bytes_len(*self as nat, 4);
        }
        32
    }
}

impl Serde for u64 {
    open spec fn encoding(&self) -> Seq<bool> {
        le_bits(*self as nat, 8)
    }

    open spec fn decoding(bits: Seq<bool>) -> Option<(u64, nat)> {
        match uint_decoding(bits, 8) {
            Some(v) => Some((v as u64, 64)),
            None => None,
        }
    }

    proof fn lemma_decode_encoding(&self, rest: Seq<bool>) {
        lemma_pow256_values();
        lemma_uint_roundtrip(*self as nat, 8, rest);
    }

    fn ser<W: BitWrite>(&self, writer: &mut W) {
        proof {
            lemma_le_bytes_len(*self as nat, 8);
        }
        write_uint(writer, *self as u64, 8);
    }

    fn de(reader: &mut BitReader) -> (r: Result<u64, SerdeErr>) {
        proof {
            lemma_pow256_values();
        }
        match read_uint(reader, 8) {
            Ok(v) => Ok(v as u64),
            Err(e) => Err(e),
        }
    }

    fn bit_length(&self) -> (r: u32) {
        proof {
            lemma_le_bytes_len(*self as nat, 8);
        }
        64
    }
}

impl Serde for i8 {
    open spec fn encoding(&self) -> Seq<bool> {
        le_bits(to_unsigned(*self as int, 8), 1)
    }

    open spec fn decoding(bits: Seq<bool>) -> Option<(i8, nat)> {
        match uint_decoding(bits, 1) {
            Some(v) => Some((to_signed(v, 8) as i8, 8)),
            None => None,
        }
    }

    proof fn lemma_decode_encoding(&self, rest: Seq<bool>) {
        lemma_pow256_values();
        lemma_pow2_values();
        lemma_uint_roundtrip(to_unsigned(*self as int, 8), 1, rest);
    }

    fn ser<W: BitWrite>(&self, writer: &mut W) {
        proof {
            lemma_le_bytes_len(to_unsigned(*self as int, 8), 1);
            lemma_pow2_values();
        }
        let v = *self;
        let u: u64 = if v < 0 {
            (v as i16 + 0x100) as u64
        } else {
            v as u64
        };
        write_uint(writer, u, 1);
    }

    fn de(reader: &mut BitReader) -> (r: Result<i8, SerdeErr>) {
        proof {
            lemma_pow256_values();
            lemma_pow2_values();
        }
        match read_uint(reader, 1) {
            Ok(u) => {
                if u >= 0x80 {
                    Ok((u as i16 - 0x100) as i8)
                } else {
                    Ok(u as i8)
                }
            },
            Err(e) => Err(e),
        }
    }

    fn bit_length(&self) -> (r: u32) {
        proof {
            lemma_le_bytes_len(to_unsigned(*self as int, 8), 1);
        }
        8
    }
}

impl Serde for i16 {
    open spec fn encoding(&self) -> Seq<bool> {
        le_bits(to_unsigned(*self as int, 16), 2)
    }

    open spec fn decoding(bits: Seq<bool>) -> Option<(i16, nat)> {
        match uint_decoding(bits, 2) {
            Some(v) => Some((to_signed(v, 16) as i16, 16)),
            None => None,
        }
    }

    proof fn lemma_decode_encoding(&self, rest: Seq<bool>) {
        lemma_pow256_values();
        lemma_pow2_values();
        lemma_uint_roundtrip(to_unsigned(*self as int, 16), 2, rest);
    }

    fn ser<W: BitWrite>(&self, writer: &mut W) {
        proof {
            lemma_le_bytes_len(to_unsigned(*self as int, 16), 2);
            lemma_pow2_values();
        }
        let v = *self;
        let u: u64 = if v < 0 {
            (v as i32 + 0x1_0000) as u64
        } else {
            v as u64
        };
        write_uint(writer, u, 2);
    }

    fn de(reader: &mut BitReader) -> (r: Result<i16, SerdeErr>) {
        proof {
            lemma_pow256_values();
            lemma_pow2_values();
        }
        match read_uint(reader, 2) {
            Ok(u) => {
                if u >= 0x8000 {
                    Ok((u as i32 - 0x1_0000) as i16)
                } else {
                    Ok(u as i16)
                }
            },
            Err(e) => Err(e),
        }
    }

    fn bit_length(&self) -> (r: u32) {
        proof {
            lemma_le_bytes_len(to_unsigned(*self as int, 16), 2);
        }
        16
    }
}

impl Serde for i32 {
    open spec fn encoding(&self) -> Seq<bool> {
        le_bits(to_unsigned(*self as int, 32), 4)
    }

    open spec fn decoding(bits: Seq<bool>) -> Option<(i32, nat)> {
        match uint_decoding(bits, 4) {
            Some(v) => Some((to_signed(v, 32) as i32, 32)),
            None => None,
        }
    }

    proof fn lemma_decode_encoding(&self, rest: Seq<bool>) {
        lemma_pow256_values();
        lemma_pow2_values();
        lemma_uint_roundtrip(to_unsigned(*self as int, 32), 4, rest);
    }

    fn ser<W: BitWrite>(&self, writer: &mut W) {
        proof {
            lemma_le_bytes_len(to_unsigned(*self as int, 32), 4);
            lemma_pow2_values();
        }
        let v = *self;
        let u: u64 = if v < 0 {
            (v as i64 + 0x1_0000_0000) as u64
        } else {
            v as u64
        };
        write_uint(writer, u, 4);
    }

    fn de(reader: &mut BitReader) -> (r: Result<i32, SerdeErr>) {
        proof {
            lemma_pow256_values();
            lemma_pow2_values();
        }
        match read_uint(reader, 4) {
            Ok(u) => {
                if u >= 0x8000_0000 {
                    Ok((u as i64 - 0x1_0000_0000) as i32)
                } else {
                    Ok(u as i32)
                }
            },
            Err(e) => Err(e),
        }
    }

    fn bit_length(&self) -> (r: u32) {
        proof {
            lemma_le_bytes_len(to_unsigned(*self as int, 32), 4);
        }
        32
    }
}

impl Serde for i64 {
    open spec fn encoding(&self) -> Seq<bool> {
        le_bits(to_unsigned(*self as int, 64), 8)
    }

    open spec fn decoding(bits: Seq<bool>) -> Option<(i64, nat)> {
        match uint_decoding(bits, 8) {
            Some(v) => Some((to_signed(v, 64) as i64, 64)),
            None => None,
        }
    }

    proof fn lemma_decode_encoding(&self, rest: Seq<bool>) {
        lemma_pow256_values();
        lemma_pow2_values();
        lemma_uint_roundtrip(to_unsigned(*self as int, 64), 8, rest);
    }

    fn ser<W: BitWrite>(&self, writer: &mut W) {
        proof {
            lemma_le_bytes_len(to_unsigned(*self as int, 64), 8);
            lemma_pow2_values();
        }
        let v = *self;
        let u: u64 = if v < 0 {
            ((v + i64::MAX + 1) as u64) + 0x8000_0000_0000_0000u64
        } else {
            v as u64
        };
        write_uint(writer, u, 8);
    }

    fn de(reader: &mut BitReader) -> (r: Result<i64, SerdeErr>) {
        proof {
            lemma_pow256_values();
            lemma_pow2_values();
        }
        match read_uint(reader, 8) {
            Ok(u) => {
                if u >= 0x8000_0000_0000_0000u64 {
                    Ok(((u - 0x8000_0000_0000_0000u64) as i64) + i64::MIN)
                } else {
                    Ok(u as i64)
                }
            },
            Err(e) => Err(e),
        }
    }

    fn bit_length(&self) -> (r: u32) {
        proof {
            lemma_le_bytes_len(to_unsigned(*self as int, 64), 8);
        }
        64
    }
}

impl Serde for bool {
    open spec fn encoding(&self) -> Seq<bool> {
        seq![*self]
    }

    open spec fn decoding(bits: Seq<bool>) -> Option<(bool, nat)> {
        if bits.len() >= 1 {
            Some((bits[0], 1))
        } else {
            None
        }
    }

    proof fn lemma_decode_encoding(&self, rest: Seq<bool>) {
        assert((seq![*self] + rest)[0] == *self);
    }

    fn ser<W: BitWrite>(&self, writer: &mut W) {
        writer.write_bit(*self);
        assert(writer.written() =~= old(writer).written() + seq![*self]);
    }

    fn de(reader: &mut BitReader) -> (r: Result<bool, SerdeErr>) {
        reader.read_bit()
    }

    fn bit_length(&self) -> (r: u32) {
        1
    }
}

impl Serde for () {
    open spec fn encoding(&self) -> Seq<bool> {
        Seq::empty()
    }

    open spec fn decoding(bits: Seq<bool>) -> Option<((), nat)> {
        Some(((), 0))
    }

    proof fn lemma_decode_encoding(&self, rest: Seq<bool>) {
    }

    fn ser<W: BitWrite>(&self, writer: &mut W) {
        assert(writer.written() =~= old(writer).written() + Seq::<bool>::empty());
    }

    fn de(reader: &mut BitReader) -> (r: Result<(), SerdeErr>) {
        Ok(())
    }

    fn bit_length(&self) -> (r: u32) {
        0
    }
}

/// Whether `u` is a Unicode scalar value, the code point of some `char`.
pub open spec fn is_char_code(u: nat) -> bool {
    u < 0xD800 || (0xE000 <= u && u <= 0x10FFFF)
}

/// Calls `char::from_u32`, which, as std documents, gives the `char` with code point
/// `u` when there is one, and `None` otherwise.
#[verifier::external_body]
fn char_from_u32(u: u32) -> (r: Option<char>)
    ensures
        match r {
            Some(c) => is_char_code(u as nat) && c as int == u as int,
            None => !is_char_code(u as nat),
        },
{
    char::from_u32(u)
}

/// The code point of a `char` is a Unicode scalar value.
proof fn lemma_char_code(c: char)
    ensures
        is_char_code((c as int) as nat),
        0 <= (c as int) < 0x1_0000_0000,
{
}

impl Serde for char {
    open spec fn encoding(&self) -> Seq<bool> {
        le_bits((*self as int) as nat, 4)
    }

    open spec fn decoding(bits: Seq<bool>) -> Option<(char, nat)> {
        match uint_decoding(bits, 4) {
            Some(v) => if is_char_code(v) {
                Some((v as char, 32))
            } else {
                None
            },
            None => None,
        }
    }

    proof fn lemma_decode_encoding(&self, rest: Seq<bool>) {
        lemma_pow256_values();
        lemma_char_code(*self);
        lemma_uint_roundtrip((*self as int) as nat, 4, rest);
    }

    fn ser<W: BitWrite>(&self, writer: &mut W) {
        proof {
            lemma_char_code(*self);
            lemma_le_bytes_len((*self as int) as nat, 4);
        }
        let code: u32 = *self as u32;
        assert(code as int == *self as int);
        write_uint(writer, code as u64, 4);
    }

    fn de(reader: &mut BitReader) -> (r: Result<char, SerdeErr>) {
        proof {
            lemma_pow256_values();
        }
        match read_uint(reader, 4) {
            Ok(u) => match char_from_u32(u as u32) {
                Some(c) => Ok(c),
                None => Err(SerdeErr),
            },
            Err(e) => Err(e),
        }
    }

    fn bit_length(&self) -> (r: u32) {
        proof {
            lemma_le_bytes_len((*self as int) as nat, 4);
        }
        32
    }
}

} // verus!

verus! {

impl ConstBitLength for () {
    fn const_bit_length() -> (r: u32)
        ensures
            r == 0,
    {
        0
    }
}

impl ConstBitLength for bool {
    fn const_bit_length() -> (r: u32)
        ensures
            r == 1,
    {
        1
    }
}

impl ConstBitLength for u8 {
    fn const_bit_length() -> (r: u32)
        ensures
            r == 8,
    {
        8
    }
}

impl ConstBitLength for u16 {
    fn const_bit_length() -> (r: u32)
        ensures
            r == 16,
    {
        16
    }
}

impl ConstBitLength for u32 {
    fn const_bit_length() -> (r: u32)
        ensures
            r == 32,
    {
        32
    }
}

impl ConstBitLength for u64 {
    fn const_bit_length() -> (r: u32)
        ensures
            r == 64,
    {
        64
    }
}

impl ConstBitLength for i8 {
    fn const_bit_length() -> (r: u32)
        ensures
            r == 8,
    {
        8
    }
}

impl ConstBitLength for i16 {
    fn const_bit_length() -> (r: u32)
        ensures
            r == 16,
    {
        16
    }
}

impl ConstBitLength for i32 {
    fn const_bit_length() -> (r: u32)
        ensures
            r == 32,
    {
        32
    }
}

impl ConstBitLength for i64 {
    fn const_bit_length() -> (r: u32)
        ensures
            r == 64,
    {
        64
    }
}

impl ConstBitLength for char {
    fn const_bit_length() -> (r: u32)
        ensures
            r == 32,
    {
        32
    }
}

impl ConstBitLength for isize {
    /// As many bits as a `u64`.
    fn const_bit_length() -> (r: u32)
        ensures
            r == 64,
    {
        64
    }
}

} // verus!

