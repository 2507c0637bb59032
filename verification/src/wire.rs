//! Big-endian integers on the wire: what their bytes are, and the functions
//! that write them to a buffer and read them from a slice.

use vstd::prelude::*;

verus! {

/// The two's-complement bit pattern of `v`, as an unsigned byte.
pub open spec fn i8_bits(v: i8) -> u8 {
    if v >= 0 {
        v as u8
    } else {
        (v + 0x100) as u8
    }
}

/// The two's-complement bit pattern of `v`, as an unsigned 16-bit integer.
pub open spec fn i16_bits(v: i16) -> u16 {
    if v >= 0 {
        v as u16
    } else {
        (v + 0x1_0000) as u16
    }
}

/// The two's-complement bit pattern of `v`, as an unsigned 32-bit integer.
pub open spec fn i32_bits(v: i32) -> u32 {
    if v >= 0 {
        v as u32
    } else {
        (v + 0x1_0000_0000) as u32
    }
}

/// The two's-complement bit pattern of `v`, as an unsigned 64-bit integer.
pub open spec fn i64_bits(v: i64) -> u64 {
    if v >= 0 {
        v as u64
    } else {
        (v + 0x1_0000_0000_0000_0000) as u64
    }
}

/// The signed byte whose two's-complement bit pattern is `b`.
pub open spec fn i8_from_bits(b: u8) -> i8 {
    if b < 0x80 {
        b as i8
    } else {
        (b - 0x100) as i8
    }
}

/// The signed 16-bit integer whose two's-complement bit pattern is `b`.
pub open spec fn i16_from_bits(b: u16) -> i16 {
    if b < 0x8000 {
        b as i16
    } else {
        (b - 0x1_0000) as i16
    }
}

/// The signed 32-bit integer whose two's-complement bit pattern is `b`.
pub open spec fn i32_from_bits(b: u32) -> i32 {
    if b < 0x8000_0000 {
        b as i32
    } else {
        (b - 0x1_0000_0000) as i32
    }
}

/// The signed 64-bit integer whose two's-complement bit pattern is `b`.
pub open spec fn i64_from_bits(b: u64) -> i64 {
    if b < 0x8000_0000_0000_0000 {
        b as i64
    } else {
        (b - 0x1_0000_0000_0000_0000) as i64
    }
}

/// The two's-complement bit pattern of `v`.
pub fn i8_to_bits(v: i8) -> (b: u8)
    ensures
        b == i8_bits(v),
{
    let b: u8 = #[verifier::truncate] (v as u8);
    assert(b == if v >= 0 { v as u8 } else { (v + 0x100) as u8 }) by (bit_vector)
        requires b == v as u8;
    b
}

/// The two's-complement bit pattern of `v`.
pub fn i16_to_bits(v: i16) -> (b: u16)
    ensures
        b == i16_bits(v),
{
    let b: u16 = #[verifier::truncate] (v as u16);
    assert(b == if v >= 0 { v as u16 } else { (v + 0x1_0000) as u16 }) by (bit_vector)
        requires b == v as u16;
    b
}

/// The two's-complement bit pattern of `v`.
pub fn i32_to_bits(v: i32) -> (b: u32)
    ensures
        b == i32_bits(v),
{
    let b: u32 = #[verifier::truncate] (v as u32);
    assert(b == if v >= 0 { v as u32 } else { (v + 0x1_0000_0000) as u32 }) by (bit_vector)
        requires b == v as u32;
    b
}

/// The two's-complement bit pattern of `v`.
pub fn i64_to_bits(v: i64) -> (b: u64)
    ensures
        b == i64_bits(v),
{
    let b: u64 = #[verifier::truncate] (v as u64);
    assert(b == if v >= 0 { v as u64 } else { (v + 0x1_0000_0000_0000_0000) as u64 })
        by (bit_vector)
        requires b == v as u64;
    b
}

/// The signed integer whose two's-complement bit pattern is `b`.
pub fn bits_to_i8(b: u8) -> (v: i8)
    ensures
        v == i8_from_bits(b),
{
    let v: i8 = #[verifier::truncate] (b as i8);
    assert(v == if b < 0x80 { b as i8 } else { (b - 0x100) as i8 }) by (bit_vector)
        requires v == b as i8;
    v
}

/// The signed integer whose two's-complement bit pattern is `b`.
pub fn bits_to_i16(b: u16) -> (v: i16)
    ensures
        v == i16_from_bits(b),
{
    let v: i16 = #[verifier::truncate] (b as i16);
    assert(v == if b < 0x8000 { b as i16 } else { (b - 0x1_0000) as i16 }) by (bit_vector)
        requires v == b as i16;
    v
}

/// The signed integer whose two's-complement bit pattern is `b`.
pub fn bits_to_i32(b: u32) -> (v: i32)
    ensures
        v == i32_from_bits(b),
{
    let v: i32 = #[verifier::truncate] (b as i32);
    assert(v == if b < 0x8000_0000 { b as i32 } else { (b - 0x1_0000_0000) as i32 })
        by (bit_vector)
        requires v == b as i32;
    v
}

/// The signed integer whose two's-complement bit pattern is `b`.
pub fn bits_to_i64(b: u64) -> (v: i64)
    ensures
        v == i64_from_bits(b),
{
    let v: i64 = #[verifier::truncate] (b as i64);
    assert(v == if b < 0x8000_0000_0000_0000 { b as i64 } else {
        (b - 0x1_0000_0000_0000_0000) as i64
    }) by (bit_vector)
        requires v == b as i64;
    v
}

/// The two bytes of `v`, most significant first.
pub open spec fn be_u16(v: u16) -> Seq<u8> {
    seq![(v / 0x100) as u8, (v % 0x100) as u8]
}

/// The four bytes of `v`, most significant first.
pub open spec fn be_u32(v: u32) -> Seq<u8> {
    seq![
        (v / 0x100_0000) as u8,
        (v / 0x1_0000 % 0x100) as u8,
        (v / 0x100 % 0x100) as u8,
        (v % 0x100) as u8,
    ]
}

/// The eight bytes of `v`, most significant first.
pub open spec fn be_u64(v: u64) -> Seq<u8> {
    be_u32((v / 0x1_0000_0000) as u32) + be_u32((v % 0x1_0000_0000) as u32)
}

/// The 16-bit integer whose big-endian bytes stand in `bytes` at `pos`.
pub open spec fn u16_at(bytes: Seq<u8>, pos: int) -> u16 {
    (bytes[pos] * 0x100 + bytes[pos + 1]) as u16
}

/// The 32-bit integer whose big-endian bytes stand in `bytes` at `pos`.
pub open spec fn u32_at(bytes: Seq<u8>, pos: int) -> u32 {
    (bytes[pos] * 0x100_0000 + bytes[pos + 1] * 0x1_0000 + bytes[pos + 2] * 0x100 + bytes[pos
        + 3]) as u32
}

/// The 64-bit integer whose big-endian bytes stand in `bytes` at `pos`.
pub open spec fn u64_at(bytes: Seq<u8>, pos: int) -> u64 {
    (u32_at(bytes, pos) * 0x1_0000_0000 + u32_at(bytes, pos + 4)) as u64
}

/// `part` stands in `whole` from position `pos` on.
pub open spec fn holds_at(whole: Seq<u8>, pos: int, part: Seq<u8>) -> bool {
    &&& 0 <= pos
    &&& pos + part.len() <= whole.len()
    &&& whole.subrange(pos, pos + part.len()) == part
}

/// Appends the big-endian bytes of `v` to `buf`.
pub fn push_u16(buf: &mut Vec<u8>, v: u16)
    ensures
        final(buf)@ == old(buf)@ + be_u16(v),
{
    buf.push((v / 0x100) as u8);
    buf.push((v % 0x100) as u8);
    assert(buf@ =~= old(buf)@ + be_u16(v));
}

/// Appends the big-endian bytes of `v` to `buf`.
pub fn push_u32(buf: &mut Vec<u8>, v: u32)
    ensures
        final(buf)@ == old(buf)@ + be_u32(v),
{
    buf.push((v / 0x100_0000) as u8);
    buf.push((v / 0x1_0000 % 0x100) as u8);
    buf.push((v / 0x100 % 0x100) as u8);
    buf.push((v % 0x100) as u8);
    assert(buf@ =~= old(buf)@ + be_u32(v));
}

/// Appends the big-endian bytes of `v` to `buf`.
pub fn push_u64(buf: &mut Vec<u8>, v: u64)
    ensures
        final(buf)@ == old(buf)@ + be_u64(v),
{
    push_u32(buf, (v / 0x1_0000_0000) as u32);
    push_u32(buf, (v % 0x1_0000_0000) as u32);
    assert(buf@ =~= old(buf)@ + be_u64(v));
}

/// Reads the big-endian 16-bit integer at `pos`.
pub fn read_u16(bytes: &[u8], pos: usize) -> (v: u16)
    requires
        pos + 2 <= bytes@.len(),
    ensures
        v == u16_at(bytes@, pos as int),
{
    (bytes[pos] as u16) * 0x100 + (bytes[pos + 1] as u16)
}

/// Reads the big-endian 32-bit integer at `pos`.
pub fn read_u32(bytes: &[u8], pos: usize) -> (v: u32)
    requires
        pos + 4 <= bytes@.len(),
    ensures
        v == u32_at(bytes@, pos as int),
{
    (bytes[pos] as u32) * 0x100_0000 + (bytes[pos + 1] as u32) * 0x1_0000 + (bytes[pos + 2] as u32)
        * 0x100 + (bytes[pos + 3] as u32)
}

/// Reads the big-endian 64-bit integer at `pos`.
pub fn read_u64(bytes: &[u8], pos: usize) -> (v: u64)
    requires
        pos + 8 <= bytes@.len(),
    ensures
        v == u64_at(bytes@, pos as int),
{
    assert(bytes@.len() == bytes.len());
    let hi: u32 = read_u32(bytes, pos);
    let lo: u32 = read_u32(bytes, pos + 4);
    (hi as u64) * 0x1_0000_0000 + (lo as u64)
}

/// Reading back what `be_u16` wrote gives the integer written.
pub proof fn lemma_u16_at_be(whole: Seq<u8>, pos: int, v: u16)
    requires
        holds_at(whole, pos, be_u16(v)),
    ensures
        u16_at(whole, pos) == v,
{
    let part = whole.subrange(pos, pos + 2);
    assert(part[0] == whole[pos] && part[1] == whole[pos + 1]);
}

/// Reading back what `be_u32` wrote gives the integer written.
pub proof fn lemma_u32_at_be(whole: Seq<u8>, pos: int, v: u32)
    requires
        holds_at(whole, pos, be_u32(v)),
    ensures
        u32_at(whole, pos) == v,
{
    let part = whole.subrange(pos, pos + 4);
    assert(part[0] == whole[pos] && part[1] == whole[pos + 1] && part[2] == whole[pos + 2]
        && part[3] == whole[pos + 3]);
}

/// Reading back what `be_u64` wrote gives the integer written.
pub proof fn lemma_u64_at_be(whole: Seq<u8>, pos: int, v: u64)
    requires
        holds_at(whole, pos, be_u64(v)),
    ensures
        u64_at(whole, pos) == v,
{
    let hi = (v / 0x1_0000_0000) as u32;
    let lo = (v % 0x1_0000_0000) as u32;
    lemma_holds_at_concat(whole, pos, be_u32(hi), be_u32(lo));
    lemma_u32_at_be(whole, pos, hi);
    lemma_u32_at_be(whole, pos + 4, lo);
}

/// A concatenation stands at `pos` exactly when its first part stands there
/// and its second part stands right behind it.
pub proof fn lemma_holds_at_concat(whole: Seq<u8>, pos: int, first: Seq<u8>, second: Seq<u8>)
    ensures
        holds_at(whole, pos, first + second) <==> holds_at(whole, pos, first) && holds_at(
            whole,
            pos + first.len(),
            second,
        ),
{
    let both = first + second;
    if holds_at(whole, pos, both) {
        assert(whole.subrange(pos, pos + first.len()) =~= first) by {
            assert forall|i: int| 0 <= i < first.len() implies whole[pos + i] == first[i] by {
                assert(whole.subrange(pos, pos + both.len())[i] == both[i]);
            }
        }
        assert(whole.subrange(pos + first.len(), pos + first.len() + second.len()) =~= second) by {
            assert forall|i: int| 0 <= i < second.len() implies whole[pos + first.len() + i]
                == second[i] by {
                assert(whole.subrange(pos, pos + both.len())[first.len() + i] == both[first.len()
                    + i]);
            }
        }
    }
    if holds_at(whole, pos, first) && holds_at(whole, pos + first.len(), second) {
        assert(whole.subrange(pos, pos + both.len()) =~= both) by {
            assert forall|i: int| 0 <= i < both.len() implies whole[pos + i] == both[i] by {
                if i < first.len() {
                    assert(whole.subrange(pos, pos + first.len())[i] == first[i]);
                } else {
                    assert(whole.subrange(pos + first.len(), pos + first.len() + second.len())[i
                        - first.len()] == second[i - first.len()]);
                }
            }
        }
    }
}

/// The two bytes at `pos` are the big-endian bytes of the integer read there.
pub proof fn lemma_be_u16_at(whole: Seq<u8>, pos: int)
    requires
        0 <= pos,
        pos + 2 <= whole.len(),
    ensures
        holds_at(whole, pos, be_u16(u16_at(whole, pos))),
{
    assert(whole.subrange(pos, pos + 2) =~= be_u16(u16_at(whole, pos)));
}

/// The digits of a number to the base 256 are what it was put together from.
proof fn lemma_four_digits(b0: u8, b1: u8, b2: u8, b3: u8)
    ensures
        ({
            let v = b0 * 0x100_0000 + b1 * 0x1_0000 + b2 * 0x100 + b3;
            &&& 0 <= v <= u32::MAX
            &&& v / 0x100_0000 == b0
            &&& v / 0x1_0000 % 0x100 == b1
            &&& v / 0x100 % 0x100 == b2
            &&& v % 0x100 == b3
        }),
{
    assert({
        let v = b0 * 0x100_0000 + b1 * 0x1_0000 + b2 * 0x100 + b3;
        &&& 0 <= v <= 0xFFFF_FFFF
        &&& v / 0x100_0000 == b0
        &&& v / 0x1_0000 % 0x100 == b1
        &&& v / 0x100 % 0x100 == b2
        &&& v % 0x100 == b3
    }) by (bit_vector);
}

/// The four bytes at `pos` are the big-endian bytes of the integer read there.
pub proof fn lemma_be_u32_at(whole: Seq<u8>, pos: int)
    requires
        0 <= pos,
        pos + 4 <= whole.len(),
    ensures
        holds_at(whole, pos, be_u32(u32_at(whole, pos))),
{
    lemma_four_digits(whole[pos], whole[pos + 1], whole[pos + 2], whole[pos + 3]);
    let part = be_u32(u32_at(whole, pos));
    assert(part[0] == whole[pos] && part[1] == whole[pos + 1] && part[2] == whole[pos + 2]
        && part[3] == whole[pos + 3]);
    assert(whole.subrange(pos, pos + 4) =~= part);
}

/// The eight bytes at `pos` are the big-endian bytes of the integer read
/// there.
pub proof fn lemma_be_u64_at(whole: Seq<u8>, pos: int)
    requires
        0 <= pos,
        pos + 8 <= whole.len(),
    ensures
        holds_at(whole, pos, be_u64(u64_at(whole, pos))),
{
    let v = u64_at(whole, pos);
    let hi = u32_at(whole, pos);
    let lo = u32_at(whole, pos + 4);
    assert((v / 0x1_0000_0000) as u32 == hi);
    assert((v % 0x1_0000_0000) as u32 == lo);
    lemma_be_u32_at(whole, pos);
    lemma_be_u32_at(whole, pos + 4);
    lemma_holds_at_concat(whole, pos, be_u32(hi), be_u32(lo));
}

} // verus!
