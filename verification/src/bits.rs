//! Bit-level model of byte buffers: bits are numbered from the most significant bit
//! of the first byte onwards, which is the order in which streams are written and read.
use vstd::prelude::*;

verus! {

/// Bit `i` (0 = most significant) of the byte `b`.
pub open spec fn bit_of(b: u8, i: u8) -> bool {
    ((b >> ((7 - i) as u8)) & 1u8) == 1u8
}

/// The eight bits of a byte, most significant first.
pub open spec fn byte_bits(b: u8) -> Seq<bool> {
    Seq::new(8, |i: int| bit_of(b, i as u8))
}

/// Bit `k` of a byte sequence.
pub open spec fn bit_at(s: Seq<u8>, k: int) -> bool {
    bit_of(s[k / 8], (k % 8) as u8)
}

/// All the bits of a byte sequence, in stream order.
pub open spec fn bytes_bits(s: Seq<u8>) -> Seq<bool> {
    Seq::new((8 * s.len()) as nat, |k: int| bit_at(s, k))
}

/// The byte whose bits, most significant first, are `s[0..8]`.
pub open spec fn byte_from_bits(s: Seq<bool>) -> u8 {
    (if s[0] { 128u8 } else { 0u8 }) | (if s[1] { 64u8 } else { 0u8 }) | (if s[2] { 32u8 } else {
        0u8
    }) | (if s[3] { 16u8 } else { 0u8 }) | (if s[4] { 8u8 } else { 0u8 }) | (if s[5] {
        4u8
    } else {
        0u8
    }) | (if s[6] { 2u8 } else { 0u8 }) | (if s[7] { 1u8 } else { 0u8 })
}

/// Divides a bit position into its byte and the bit inside that byte.
pub proof fn lemma_split_position(k: int, idx: int)
    requires
        8 * idx <= k < 8 * idx + 8,
    ensures
        k / 8 == idx,
        k % 8 == k - 8 * idx,
{
}

/// Every bit position lies in the byte `k / 8`, at bit `k % 8`.
pub proof fn lemma_div8(k: int)
    requires
        k >= 0,
    ensures
        8 * (k / 8) <= k < 8 * (k / 8) + 8,
        k % 8 == k - 8 * (k / 8),
        0 <= k % 8 < 8,
{
}

/// A zero byte has no bit set.
pub proof fn lemma_zero_byte(j: u8)
    by (bit_vector)
    ensures
        !bit_of(0u8, j),
{
}

proof fn lemma_byte_from_bits_bv(b0: bool, b1: bool, b2: bool, b3: bool, b4: bool, b5: bool, b6: bool, b7: bool, x: u8)
    by (bit_vector)
    requires
        x == (if b0 { 128u8 } else { 0u8 }) | (if b1 { 64u8 } else { 0u8 }) | (if b2 { 32u8 } else {
            0u8
        }) | (if b3 { 16u8 } else { 0u8 }) | (if b4 { 8u8 } else { 0u8 }) | (if b5 {
            4u8
        } else {
            0u8
        }) | (if b6 { 2u8 } else { 0u8 }) | (if b7 { 1u8 } else { 0u8 }),
    ensures
        bit_of(x, 0) == b0,
        bit_of(x, 1) == b1,
        bit_of(x, 2) == b2,
        bit_of(x, 3) == b3,
        bit_of(x, 4) == b4,
        bit_of(x, 5) == b5,
        bit_of(x, 6) == b6,
        bit_of(x, 7) == b7,
{
}

/// The byte built from eight bits has exactly those bits.
pub proof fn lemma_byte_from_bits(s: Seq<bool>)
    requires
        s.len() == 8,
    ensures
        byte_bits(byte_from_bits(s)) == s,
{
    let x = byte_from_bits(s);
    lemma_byte_from_bits_bv(s[0], s[1], s[2], s[3], s[4], s[5], s[6], s[7], x);
    assert(byte_bits(x) =~= s);
}

proof fn lemma_bits_determine_byte_bv(x: u8, y: u8)
    by (bit_vector)
    requires
        bit_of(x, 0) == bit_of(y, 0),
        bit_of(x, 1) == bit_of(y, 1),
        bit_of(x, 2) == bit_of(y, 2),
        bit_of(x, 3) == bit_of(y, 3),
        bit_of(x, 4) == bit_of(y, 4),
        bit_of(x, 5) == bit_of(y, 5),
        bit_of(x, 6) == bit_of(y, 6),
        bit_of(x, 7) == bit_of(y, 7),
    ensures
        x == y,
{
}

/// Two bytes with the same bits are equal.
pub proof fn lemma_byte_bits_injective(x: u8, y: u8)
    requires
        byte_bits(x) == byte_bits(y),
    ensures
        x == y,
{
    assert(byte_bits(x)[0] == bit_of(x, 0u8) && byte_bits(y)[0] == bit_of(y, 0u8));
    assert(byte_bits(x)[1] == bit_of(x, 1u8) && byte_bits(y)[1] == bit_of(y, 1u8));
    assert(byte_bits(x)[2] == bit_of(x, 2u8) && byte_bits(y)[2] == bit_of(y, 2u8));
    assert(byte_bits(x)[3] == bit_of(x, 3u8) && byte_bits(y)[3] == bit_of(y, 3u8));
    assert(byte_bits(x)[4] == bit_of(x, 4u8) && byte_bits(y)[4] == bit_of(y, 4u8));
    assert(byte_bits(x)[5] == bit_of(x, 5u8) && byte_bits(y)[5] == bit_of(y, 5u8));
    assert(byte_bits(x)[6] == bit_of(x, 6u8) && byte_bits(y)[6] == bit_of(y, 6u8));
    assert(byte_bits(x)[7] == bit_of(x, 7u8) && byte_bits(y)[7] == bit_of(y, 7u8));
    lemma_bits_determine_byte_bv(x, y);
}

/// Reading the bits of a byte back gives the byte.
pub proof fn lemma_byte_bits_roundtrip(b: u8)
    ensures
        byte_from_bits(byte_bits(b)) == b,
{
    lemma_byte_from_bits(byte_bits(b));
    lemma_byte_bits_injective(byte_from_bits(byte_bits(b)), b);
}


/// Masking one bit of a byte reads bit `o`.
pub proof fn lemma_mask_bit(b: u8, o: u8)
    by (bit_vector)
    requires
        o < 8,
    ensures
        ((b & (1u8 << ((7 - o) as u8))) != 0u8) == bit_of(b, o),
{
}

/// A byte read across a byte boundary: the low `8 - o` bits of `a` followed by the high
/// `o` bits of `c`.
pub proof fn lemma_straddle_byte(a: u8, c: u8, o: u8, j: u8)
    by (bit_vector)
    requires
        0 < o < 8,
        j < 8,
    ensures
        j + o < 8 ==> bit_of(((a << o) | (c >> ((8 - o) as u8))) as u8, j) == bit_of(a, (j + o) as u8),
        j + o >= 8 ==> bit_of(((a << o) | (c >> ((8 - o) as u8))) as u8, j) == bit_of(c, (j + o - 8) as u8),
{
}

/// Setting bit `o` of a byte with a mask leaves the other bits alone.
pub proof fn lemma_set_bit(x: u8, o: u8, bit: bool, j: u8)
    by (bit_vector)
    requires
        o < 8,
        j < 8,
    ensures
        j == o ==> bit_of((x | ((if bit { 1u8 } else { 0u8 }) << ((7 - o) as u8))) as u8, j) == (bit_of(x, j) || bit),
        j != o ==> bit_of((x | ((if bit { 1u8 } else { 0u8 }) << ((7 - o) as u8))) as u8, j) == bit_of(x, j),
{
}

/// OR-ing the high part of a byte shifted right by `o` into `x`.
pub proof fn lemma_or_high(x: u8, byte: u8, o: u8, j: u8)
    by (bit_vector)
    requires
        o < 8,
        j < 8,
    ensures
        j < o ==> bit_of((x | (byte >> o)) as u8, j) == bit_of(x, j),
        j >= o ==> bit_of((x | (byte >> o)) as u8, j) == (bit_of(x, j) || bit_of(byte, (j - o) as u8)),
{
}

/// OR-ing the low part of a byte shifted left by `8 - o` into `x`.
pub proof fn lemma_or_low(x: u8, byte: u8, o: u8, j: u8)
    by (bit_vector)
    requires
        0 < o < 8,
        j < 8,
    ensures
        j < o ==> bit_of((x | (byte << ((8 - o) as u8))) as u8, j) == (bit_of(x, j) || bit_of(byte, (j + 8 - o) as u8)),
        j >= o ==> bit_of((x | (byte << ((8 - o) as u8))) as u8, j) == bit_of(x, j),
{
}

} // verus!

verus! {

/// `bytes` holds exactly the bits `bits`, followed by zero bits up to the next byte
/// boundary.
pub open spec fn packs(bits: Seq<bool>, bytes: Seq<u8>) -> bool {
    &&& bytes.len() == (bits.len() + 7) / 8
    &&& forall|k: int| 0 <= k < 8 * bytes.len() ==> #[trigger] bit_at(bytes, k) == (k < bits.len()
        && bits[k])
}

/// The bits of a packed buffer start with the packed bits.
pub proof fn lemma_packs_prefix(bits: Seq<bool>, bytes: Seq<u8>)
    requires
        packs(bits, bytes),
    ensures
        bits.len() <= bytes_bits(bytes).len(),
        bytes_bits(bytes).take(bits.len() as int) == bits,
{
    assert(bytes_bits(bytes).take(bits.len() as int) =~= bits);
}

/// The bits of a byte sequence with one more byte at its end.
pub proof fn lemma_bytes_bits_push(s: Seq<u8>, b: u8)
    ensures
        bytes_bits(s.push(b)) == bytes_bits(s) + byte_bits(b),
{
    let l = s.push(b);
    assert forall|k: int| 0 <= k < 8 * l.len() implies #[trigger] bytes_bits(l)[k] == (bytes_bits(s)
        + byte_bits(b))[k] by {
        lemma_div8(k);
        if k >= 8 * s.len() {
            lemma_split_position(k, s.len() as int);
        }
    }
    assert(bytes_bits(l) =~= bytes_bits(s) + byte_bits(b));
}

/// Packed bits that fill whole bytes, followed by more packed bits, pack the two bit
/// strings one after the other.
pub proof fn lemma_packs_append(a: Seq<bool>, x: Seq<u8>, b: Seq<bool>, y: Seq<u8>)
    requires
        packs(a, x),
        a.len() % 8 == 0,
        packs(b, y),
    ensures
        packs(a + b, x + y),
{
    let ab = a + b;
    let xy = x + y;
    assert(x.len() * 8 == a.len());
    assert forall|k: int| 0 <= k < 8 * xy.len() implies #[trigger] bit_at(xy, k) == (k < ab.len() && ab[k]) by {
        lemma_div8(k);
        if k < 8 * x.len() {
            lemma_split_position(k, k / 8);
            assert(xy[k / 8] == x[k / 8]);
            assert(bit_at(x, k) == (k < a.len() && a[k]));
        } else {
            let k2 = k - 8 * x.len();
            lemma_div8(k2);
            lemma_split_position(k, k2 / 8 + x.len());
            assert(xy[k / 8] == y[k2 / 8]);
            assert(bit_at(y, k2) == (k2 < b.len() && b[k2]));
        }
    }
}

} // verus!

