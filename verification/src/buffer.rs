use bytebuffer::ByteBuffer;
use vstd::prelude::*;

verus! {

/// `bytebuffer::ByteBuffer`: a growable byte array with a write cursor.
/// Opaque here; the two names below stand for what this library uses of it.
#[verifier::external_type_specification]
#[verifier::external_body]
pub struct ExByteBuffer(ByteBuffer);

/// The bytes that a buffer holds: what `ByteBuffer::to_bytes` returns.
pub uninterp spec fn buffer_bytes(b: ByteBuffer) -> Seq<u8>;

/// Index at which the next written byte lands: the write cursor, moved past
/// a byte that was begun bit by bit.
pub uninterp spec fn buffer_write_pos(b: ByteBuffer) -> nat;

/// Big-endian bytes of a 16-bit value.
pub open spec fn be16(v: u16) -> Seq<u8> {
    seq![(v / 0x100) as u8, (v % 0x100) as u8]
}

/// Big-endian bytes of a 32-bit value.
pub open spec fn be32(v: u32) -> Seq<u8> {
    seq![
        (v / 0x100_0000) as u8,
        (v / 0x1_0000 % 0x100) as u8,
        (v / 0x100 % 0x100) as u8,
        (v % 0x100) as u8,
    ]
}

/// Big-endian bytes of a 64-bit value.
pub open spec fn be64(v: u64) -> Seq<u8> {
    be32((v / 0x1_0000_0000) as u32) + be32((v % 0x1_0000_0000) as u32)
}

/// The value that four big-endian bytes stand for.
pub open spec fn be32_value(s: Seq<u8>) -> nat {
    (s[0] as nat) * 0x100_0000 + (s[1] as nat) * 0x1_0000 + (s[2] as nat) * 0x100 + (s[3] as nat)
}

/// The unsigned value with the bits of `v` in two's complement.
pub open spec fn bits16(v: i16) -> u16 {
    if v >= 0 {
        v as u16
    } else {
        (v + 0x1_0000) as u16
    }
}

/// The unsigned value with the bits of `v` in two's complement.
pub open spec fn bits32(v: i32) -> u32 {
    if v >= 0 {
        v as u32
    } else {
        (v + 0x1_0000_0000) as u32
    }
}

/// The unsigned value with the bits of `v` in two's complement.
pub open spec fn bits64(v: i64) -> u64 {
    if v >= 0 {
        v as u64
    } else {
        (v + 0x1_0000_0000_0000_0000) as u64
    }
}

/// A buffer to which nothing was written but whole bytes at its end: writes
/// append to it.
pub open spec fn fresh(b: ByteBuffer) -> bool {
    buffer_write_pos(b) == buffer_bytes(b).len()
}

/// `ByteBuffer::new` returns an empty buffer with its write cursor at 0.
pub assume_specification[ ByteBuffer::new ]() -> (b: ByteBuffer)
    ensures
        buffer_bytes(b) == Seq::<u8>::empty(),
        buffer_write_pos(b) == 0,
;

/// `ByteBuffer::len` returns the number of bytes held.
pub assume_specification[ ByteBuffer::len ](b: &ByteBuffer) -> (n: usize)
    ensures
        n == buffer_bytes(*b).len(),
;

/// `ByteBuffer::to_bytes` returns a copy of the bytes held, whatever the
/// cursors.
pub assume_specification[ ByteBuffer::to_bytes ](b: &ByteBuffer) -> (v: Vec<u8>)
    ensures
        v@ == buffer_bytes(*b),
;

/// `ByteBuffer::write_bytes`, with the write cursor at the end, appends the
/// bytes and moves the cursor to the new end.
pub assume_specification[ ByteBuffer::write_bytes ](b: &mut ByteBuffer, bytes: &[u8])
    requires
        buffer_write_pos(*old(b)) == buffer_bytes(*old(b)).len(),
    ensures
        buffer_bytes(*final(b)) == buffer_bytes(*old(b)) + bytes@,
        buffer_write_pos(*final(b)) == buffer_bytes(*final(b)).len(),
;

/// `ByteBuffer::write_u8`, with the write cursor at the end, appends one byte.
pub assume_specification[ ByteBuffer::write_u8 ](b: &mut ByteBuffer, val: u8)
    requires
        buffer_write_pos(*old(b)) == buffer_bytes(*old(b)).len(),
    ensures
        buffer_bytes(*final(b)) == buffer_bytes(*old(b)).push(val),
        buffer_write_pos(*final(b)) == buffer_bytes(*final(b)).len(),
;

/// `ByteBuffer::write_u16`, with the write cursor at the end, appends the two
/// big-endian bytes of the value.
pub assume_specification[ ByteBuffer::write_u16 ](b: &mut ByteBuffer, val: u16)
    requires
        buffer_write_pos(*old(b)) == buffer_bytes(*old(b)).len(),
    ensures
        buffer_bytes(*final(b)) == buffer_bytes(*old(b)) + be16(val),
        buffer_write_pos(*final(b)) == buffer_bytes(*final(b)).len(),
;

/// `ByteBuffer::write_u32`, with the write cursor at the end, appends the four
/// big-endian bytes of the value.
pub assume_specification[ ByteBuffer::write_u32 ](b: &mut ByteBuffer, val: u32)
    requires
        buffer_write_pos(*old(b)) == buffer_bytes(*old(b)).len(),
    ensures
        buffer_bytes(*final(b)) == buffer_bytes(*old(b)) + be32(val),
        buffer_write_pos(*final(b)) == buffer_bytes(*final(b)).len(),
;

/// `ByteBuffer::write_u64`, with the write cursor at the end, appends the
/// eight big-endian bytes of the value.
pub assume_specification[ ByteBuffer::write_u64 ](b: &mut ByteBuffer, val: u64)
    requires
        buffer_write_pos(*old(b)) == buffer_bytes(*old(b)).len(),
    ensures
        buffer_bytes(*final(b)) == buffer_bytes(*old(b)) + be64(val),
        buffer_write_pos(*final(b)) == buffer_bytes(*final(b)).len(),
;

/// `ByteBuffer::write_i16` writes the value's two's-complement bits as
/// `write_u16` does.
pub assume_specification[ ByteBuffer::write_i16 ](b: &mut ByteBuffer, val: i16)
    requires
        buffer_write_pos(*old(b)) == buffer_bytes(*old(b)).len(),
    ensures
        buffer_bytes(*final(b)) == buffer_bytes(*old(b)) + be16(bits16(val)),
        buffer_write_pos(*final(b)) == buffer_bytes(*final(b)).len(),
;

/// `ByteBuffer::write_i32` writes the value's two's-complement bits as
/// `write_u32` does.
pub assume_specification[ ByteBuffer::write_i32 ](b: &mut ByteBuffer, val: i32)
    requires
        buffer_write_pos(*old(b)) == buffer_bytes(*old(b)).len(),
    ensures
        buffer_bytes(*final(b)) == buffer_bytes(*old(b)) + be32(bits32(val)),
        buffer_write_pos(*final(b)) == buffer_bytes(*final(b)).len(),
;

/// `ByteBuffer::write_i64` writes the value's two's-complement bits as
/// `write_u64` does.
pub assume_specification[ ByteBuffer::write_i64 ](b: &mut ByteBuffer, val: i64)
    requires
        buffer_write_pos(*old(b)) == buffer_bytes(*old(b)).len(),
    ensures
        buffer_bytes(*final(b)) == buffer_bytes(*old(b)) + be64(bits64(val)),
        buffer_write_pos(*final(b)) == buffer_bytes(*final(b)).len(),
;

/// The value of the four big-endian bytes of `bytes` from `at` on.
pub fn be32_at(bytes: &[u8], at: usize) -> (v: u32)
    requires
        at + 4 <= bytes@.len(),
    ensures
        v == be32_value(bytes@.subrange(at as int, at + 4)),
{
    assert(bytes.len() <= usize::MAX);
    let a: u32 = bytes[at] as u32;
    let b: u32 = bytes[at + 1] as u32;
    let c: u32 = bytes[at + 2] as u32;
    let d: u32 = bytes[at + 3] as u32;
    a * 0x100_0000 + b * 0x1_0000 + c * 0x100 + d
}

} // verus!
