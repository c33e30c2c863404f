use naia_lite::bit_reader::BitReader;
use naia_lite::bit_write::BitWrite;
use naia_lite::bit_writer::BitWriter;
use naia_lite::error::SerdeErr;
use naia_lite::serde::{ConstBitLength, Serde};
use naia_lite::seq_num::SeqNum;
use naia_lite::bit_counter::BitCounter;

#[test]
fn read_mixed() {
    let bin = [0b1011_1000, 0b1001_1010];
    let mut reader = BitReader::new(bin.into());
    assert_eq!(reader.read_bit(), Ok(true));
    assert_eq!(reader.read_bit(), Ok(false));
    assert_eq!(reader.read_bit(), Ok(true));
    assert_eq!(reader.read_byte(), Ok(0b1100_0100));
    assert_eq!(reader.read_byte(), Err(SerdeErr));
    assert_eq!(reader.read_bit(), Ok(true));
    assert_eq!(reader.read_bit(), Ok(true));
    assert_eq!(reader.read_bit(), Ok(false));
    assert_eq!(reader.read_bit(), Ok(true));
    assert_eq!(reader.read_bit(), Ok(false));
    assert_eq!(reader.read_bit(), Err(SerdeErr));
}

#[test]
fn read_write_bits() {
    let bits = [
        false, true, false, true, true, false, false, false, true, false, true, true, true, false,
        true, true,
    ];

    let mut writer = BitWriter::new();
    for bit in bits {
        writer.write_bit(bit);
    }

    let mut reader = BitReader::new(writer.to_bytes());
    for bit in bits {
        assert_eq!(reader.read_bit(), Ok(bit));
    }
}

#[test]
fn read_write_bytes() {
    let bytes = [48, 151, 62, 34, 2];

    let mut writer = BitWriter::new();
    for byte in bytes {
        writer.write_byte(byte);
    }
    let buffer = writer.to_bytes();

    // ensure bit order is preserved
    for (i, byte) in bytes.iter().enumerate() {
        assert_eq!(buffer[i], *byte);
    }

    let mut reader = BitReader::new(buffer);
    for byte in bytes {
        assert_eq!(reader.read_byte(), Ok(byte));
    }
}

#[test]
fn read_write_mixed() {
    let val16 = 12345u16;
    let val32 = 123456789u32;

    let mut writer = BitWriter::new();
    writer.write_bit(true);
    val16.ser(&mut writer);
    writer.write_bit(false);
    val32.ser(&mut writer);
    writer.write_bit(true);

    let mut reader = BitReader::new(writer.to_bytes());
    assert_eq!(reader.read_bit(), Ok(true));
    assert_eq!(u16::de(&mut reader), Ok(val16));
    assert_eq!(reader.read_bit(), Ok(false));
    assert_eq!(u32::de(&mut reader), Ok(val32));
    assert_eq!(reader.read_bit(), Ok(true));
}

#[test]
fn counter() {
    let mut writer = BitWriter::new();

    let counter = writer.counter();
    assert_eq!(counter.bits_needed(), 0);
    assert!(!counter.overflowed());

    writer.write_bit(true);
    37u32.ser(&mut writer);
    writer.write_bit(false);

    let mut counter = writer.counter();
    assert_eq!(counter.bits_needed(), 0);
    assert!(!counter.overflowed());
    counter.write_bit(true);
    37u32.ser(&mut counter);
    counter.write_bit(false);
    assert_eq!(counter.bits_needed(), 34);
    assert!(!counter.overflowed());
}

#[test]
fn scalars_read_write() {
    let mut writer = BitWriter::new();
    let in_unit = ();
    in_unit.ser(&mut writer);
    let mut reader = BitReader::new(writer.to_bytes());
    let out_unit: () = Serde::de(&mut reader).unwrap();
    assert_eq!(in_unit, out_unit);
}

#[test]
fn bool_read_write() {
    let mut writer = BitWriter::new();
    let in_1 = true;
    let in_2 = false;
    in_1.ser(&mut writer);
    in_2.ser(&mut writer);
    let mut reader = BitReader::new(writer.to_bytes());
    let out_1: bool = Serde::de(&mut reader).unwrap();
    let out_2: bool = Serde::de(&mut reader).unwrap();
    assert_eq!(in_1, out_1);
    assert_eq!(in_2, out_2);
}

#[test]
fn char_read_write() {
    let mut writer = BitWriter::new();
    let in_1 = 'O';
    let in_2 = '!';
    in_1.ser(&mut writer);
    in_2.ser(&mut writer);
    let mut reader = BitReader::new(writer.to_bytes());
    let out_1: char = Serde::de(&mut reader).unwrap();
    let out_2: char = Serde::de(&mut reader).unwrap();
    assert_eq!(in_1, out_1);
    assert_eq!(in_2, out_2);
}

#[test]
fn u8_roundtrip() {
    let mut writer = BitWriter::new();
    123u8.ser(&mut writer);
    let mut reader = BitReader::new(writer.to_bytes());
    assert_eq!(u8::de(&mut reader), Ok(123u8));
}

#[test]
fn u16_roundtrip() {
    let mut writer = BitWriter::new();
    12345u16.ser(&mut writer);
    let mut reader = BitReader::new(writer.to_bytes());
    assert_eq!(u16::de(&mut reader), Ok(12345u16));
}

#[test]
fn u32_roundtrip() {
    let mut writer = BitWriter::new();
    1234567890u32.ser(&mut writer);
    let mut reader = BitReader::new(writer.to_bytes());
    assert_eq!(u32::de(&mut reader), Ok(1234567890u32));
}

#[test]
fn u64_roundtrip() {
    let mut writer = BitWriter::new();
    12345678901234567890u64.ser(&mut writer);
    let mut reader = BitReader::new(writer.to_bytes());
    assert_eq!(u64::de(&mut reader), Ok(12345678901234567890u64));
}

#[test]
fn i8_roundtrip() {
    let mut writer = BitWriter::new();
    (-123i8).ser(&mut writer);
    let mut reader = BitReader::new(writer.to_bytes());
    assert_eq!(i8::de(&mut reader), Ok(-123i8));
}

#[test]
fn i16_roundtrip() {
    let mut writer = BitWriter::new();
    (-12345i16).ser(&mut writer);
    let mut reader = BitReader::new(writer.to_bytes());
    assert_eq!(i16::de(&mut reader), Ok(-12345i16));
}

#[test]
fn i32_roundtrip() {
    let mut writer = BitWriter::new();
    (-1234567890i32).ser(&mut writer);
    let mut reader = BitReader::new(writer.to_bytes());
    assert_eq!(i32::de(&mut reader), Ok(-1234567890i32));
}

#[test]
fn i64_roundtrip() {
    let mut writer = BitWriter::new();
    (-1234567890123456789i64).ser(&mut writer);
    let mut reader = BitReader::new(writer.to_bytes());
    assert_eq!(i64::de(&mut reader), Ok(-1234567890123456789i64));
}

#[test]
fn integers_are_little_endian_bytes() {
    let mut writer = BitWriter::new();
    0x1234u16.ser(&mut writer);
    (-2i16).ser(&mut writer);
    assert_eq!(writer.to_bytes(), vec![0x34, 0x12, 0xfe, 0xff]);
}

#[test]
fn byte_after_odd_bits_straddles_bytes() {
    let mut writer = BitWriter::new();
    writer.write_bit(true);
    writer.write_bit(false);
    writer.write_bit(true);
    writer.write_byte(0xff);
    // 101 11111 | 111 00000
    assert_eq!(writer.to_bytes(), vec![0b1011_1111, 0b1110_0000]);
}

#[test]
fn reading_past_the_end_fails() {
    let mut reader = BitReader::new(vec![0xab]);
    assert_eq!(u16::de(&mut reader).is_err(), true);
    let mut reader = BitReader::new(vec![]);
    assert_eq!(bool::de(&mut reader), Err(SerdeErr));
    assert_eq!(reader.bytes_len(), 0);
}

#[test]
fn invalid_char_code_is_refused() {
    let mut writer = BitWriter::new();
    0xD800u32.ser(&mut writer);
    let mut reader = BitReader::new(writer.to_bytes());
    assert_eq!(char::de(&mut reader), Err(SerdeErr));
}

#[test]
fn writer_budget_and_packet() {
    let mut writer = BitWriter::with_capacity(20);
    assert_eq!(writer.bits_free(), 20);
    writer.reserve_bits(4);
    assert_eq!(writer.bits_free(), 16);
    7u8.ser(&mut writer);
    assert_eq!(writer.bits_free(), 8);
    writer.release_bits(4);
    assert_eq!(writer.bits_free(), 12);
    writer.write_bit(true);
    let packet = writer.to_packet();
    assert_eq!(packet.slice(), &[7u8, 0b1000_0000][..]);
    let counter = writer.counter();
    assert!(!counter.overflowed());
}

#[test]
fn counter_overflows_past_capacity() {
    let mut counter = BitCounter::new(8);
    7u8.ser(&mut counter);
    assert!(!counter.overflowed());
    counter.write_bit(true);
    assert!(counter.overflowed());
    assert_eq!(counter.bits_needed(), 9);
}

#[test]
fn seq_num_serde_roundtrip() {
    let mut writer = BitWriter::new();
    SeqNum(40000).ser(&mut writer);
    assert_eq!(SeqNum(1).bit_length(), 16);
    let mut reader = BitReader::new(writer.to_bytes());
    assert_eq!(SeqNum::de(&mut reader), Ok(SeqNum(40000)));
}

#[test]
fn const_bit_lengths_match_encodings() {
    assert_eq!(<() as ConstBitLength>::const_bit_length(), ().bit_length());
    assert_eq!(<bool as ConstBitLength>::const_bit_length(), true.bit_length());
    assert_eq!(<u8 as ConstBitLength>::const_bit_length(), 7u8.bit_length());
    assert_eq!(<u16 as ConstBitLength>::const_bit_length(), 7u16.bit_length());
    assert_eq!(<u32 as ConstBitLength>::const_bit_length(), 7u32.bit_length());
    assert_eq!(<u64 as ConstBitLength>::const_bit_length(), 7u64.bit_length());
    assert_eq!(<i8 as ConstBitLength>::const_bit_length(), (-7i8).bit_length());
    assert_eq!(<i16 as ConstBitLength>::const_bit_length(), (-7i16).bit_length());
    assert_eq!(<i32 as ConstBitLength>::const_bit_length(), (-7i32).bit_length());
    assert_eq!(<i64 as ConstBitLength>::const_bit_length(), (-7i64).bit_length());
    assert_eq!(<char as ConstBitLength>::const_bit_length(), 'x'.bit_length());
    assert_eq!(<isize as ConstBitLength>::const_bit_length(), 64);
}
