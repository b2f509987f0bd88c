//! Little-endian writing of the scalar values that make up an exported blob.
use vstd::prelude::*;

verus! {

/// Little-endian bytes of a 16-bit word.
pub open spec fn le_bytes_u16(x: u16) -> Seq<u8> {
    seq![(x & 0xff) as u8, ((x >> 8) & 0xff) as u8]
}

/// The 16-bit word spelled by two little-endian bytes.
pub open spec fn le_word_u16(b: Seq<u8>) -> u16 {
    (b[0] as u16) | ((b[1] as u16) << 8)
}

/// Little-endian bytes of a 32-bit word.
pub open spec fn le_bytes_u32(x: u32) -> Seq<u8> {
    seq![
        (x & 0xff) as u8,
        ((x >> 8) & 0xff) as u8,
        ((x >> 16) & 0xff) as u8,
        ((x >> 24) & 0xff) as u8,
    ]
}

/// The 32-bit word spelled by four little-endian bytes.
pub open spec fn le_word_u32(b: Seq<u8>) -> u32 {
    (b[0] as u32) | ((b[1] as u32) << 8) | ((b[2] as u32) << 16) | ((b[3] as u32) << 24)
}

pub proof fn lemma_le_u16_roundtrip(x: u16)
    ensures
        le_bytes_u16(x).len() == 2,
        le_word_u16(le_bytes_u16(x)) == x,
{
    let b0 = (x & 0xff) as u8;
    let b1 = ((x >> 8) & 0xff) as u8;
    assert((b0 as u16) | ((b1 as u16) << 8) == x) by (bit_vector)
        requires
            b0 == (x & 0xff) as u8,
            b1 == ((x >> 8) & 0xff) as u8,
    ;
}

pub proof fn lemma_le_u32_roundtrip(x: u32)
    ensures
        le_bytes_u32(x).len() == 4,
        le_word_u32(le_bytes_u32(x)) == x,
{
    let b0 = (x & 0xff) as u8;
    let b1 = ((x >> 8) & 0xff) as u8;
    let b2 = ((x >> 16) & 0xff) as u8;
    let b3 = ((x >> 24) & 0xff) as u8;
    assert((b0 as u32) | ((b1 as u32) << 8) | ((b2 as u32) << 16) | ((b3 as u32) << 24) == x)
        by (bit_vector)
        requires
            b0 == (x & 0xff) as u8,
            b1 == ((x >> 8) & 0xff) as u8,
            b2 == ((x >> 16) & 0xff) as u8,
            b3 == ((x >> 24) & 0xff) as u8,
    ;
}

/// A pair of 32-bit words standing for a two-component float vector (each word holds the
/// IEEE-754 bit pattern of one component).
#[derive(Clone, Copy, PartialEq, Eq, Debug)]
pub struct Vector2 {
    pub x: u32,
    pub y: u32,
}

/// The vector spelled by eight little-endian bytes.
pub open spec fn vector2_of(bytes: Seq<u8>) -> Vector2 {
    Vector2 { x: le_word_u32(bytes.subrange(0, 4)), y: le_word_u32(bytes.subrange(4, 8)) }
}

/// A value that can be appended to a byte buffer.
pub trait Writable: Sized {
    /// The bytes that writing the value appends.
    spec fn encoding(self) -> Seq<u8>;

    fn write(self, buffer: &mut Vec<u8>)
        ensures
            final(buffer)@ == old(buffer)@ + self.encoding(),
    ;
}

/// A fixed-size value whose encoding can be read back.
pub trait CopyWritable: Writable + Copy {
    /// The number of bytes in the encoding of every value.
    spec fn byte_size() -> nat;

    /// The value that `byte_size()` bytes decode to.
    spec fn decode(bytes: Seq<u8>) -> Self;

    proof fn lemma_decode_encode(self)
        ensures
            self.encoding().len() == Self::byte_size(),
            Self::decode(self.encoding()) == self,
    ;

    fn size_of() -> (n: usize)
        ensures
            n == Self::byte_size(),
            1 <= n <= 8,
    ;

    fn read_from(bytes: &[u8]) -> (v: Self)
        requires
            bytes@.len() == Self::byte_size(),
        ensures
            v == Self::decode(bytes@),
    ;
}

impl Writable for u8 {
    open spec fn encoding(self) -> Seq<u8> {
        seq![self]
    }

    fn write(self, buffer: &mut Vec<u8>) {
        buffer.push(self);
    }
}

impl CopyWritable for u8 {
    open spec fn byte_size() -> nat {
        1
    }

    open spec fn decode(bytes: Seq<u8>) -> u8 {
        bytes[0]
    }

    proof fn lemma_decode_encode(self) {
    }

    fn size_of() -> usize {
        1
    }

    fn read_from(bytes: &[u8]) -> u8 {
        bytes[0]
    }
}

impl Writable for i8 {
    open spec fn encoding(self) -> Seq<u8> {
        seq![self as u8]
    }

    fn write(self, buffer: &mut Vec<u8>) {
        buffer.push(self as u8);
    }
}

impl CopyWritable for i8 {
    open spec fn byte_size() -> nat {
        1
    }

    open spec fn decode(bytes: Seq<u8>) -> i8 {
        bytes[0] as i8
    }

    proof fn lemma_decode_encode(self) {
        let x = self;
        assert(((x as u8) as i8) == x) by (bit_vector);
    }

    fn size_of() -> usize {
        1
    }

    fn read_from(bytes: &[u8]) -> i8 {
        bytes[0] as i8
    }
}

impl Writable for u16 {
    open spec fn encoding(self) -> Seq<u8> {
        le_bytes_u16(self)
    }

    fn write(self, buffer: &mut Vec<u8>) {
        buffer.push((self & 0xff) as u8);
        buffer.push(((self >> 8) & 0xff) as u8);
    }
}

impl CopyWritable for u16 {
    open spec fn byte_size() -> nat {
        2
    }

    open spec fn decode(bytes: Seq<u8>) -> u16 {
        le_word_u16(bytes)
    }

    proof fn lemma_decode_encode(self) {
        lemma_le_u16_roundtrip(self);
    }

    fn size_of() -> usize {
        2
    }

    fn read_from(bytes: &[u8]) -> u16 {
        (bytes[0] as u16) | ((bytes[1] as u16) << 8)
    }
}

impl Writable for i16 {
    open spec fn encoding(self) -> Seq<u8> {
        le_bytes_u16(self as u16)
    }

    fn write(self, buffer: &mut Vec<u8>) {
        (self as u16).write(buffer);
    }
}

impl CopyWritable for i16 {
    open spec fn byte_size() -> nat {
        2
    }

    open spec fn decode(bytes: Seq<u8>) -> i16 {
        le_word_u16(bytes) as i16
    }

    proof fn lemma_decode_encode(self) {
        lemma_le_u16_roundtrip(self as u16);
        let x = self;
        assert(((x as u16) as i16) == x) by (bit_vector);
    }

    fn size_of() -> usize {
        2
    }

    fn read_from(bytes: &[u8]) -> i16 {
        u16::read_from(bytes) as i16
    }
}

impl Writable for u32 {
    open spec fn encoding(self) -> Seq<u8> {
        le_bytes_u32(self)
    }

    fn write(self, buffer: &mut Vec<u8>) {
        buffer.push((self & 0xff) as u8);
        buffer.push(((self >> 8) & 0xff) as u8);
        buffer.push(((self >> 16) & 0xff) as u8);
        buffer.push(((self >> 24) & 0xff) as u8);
        assert(self.encoding() == le_bytes_u32(self));
        assert(buffer@ =~= old(buffer)@ + le_bytes_u32(self));
    }
}

impl CopyWritable for u32 {
    open spec fn byte_size() -> nat {
        4
    }

    open spec fn decode(bytes: Seq<u8>) -> u32 {
        le_word_u32(bytes)
    }

    proof fn lemma_decode_encode(self) {
        lemma_le_u32_roundtrip(self);
    }

    fn size_of() -> usize {
        4
    }

    fn read_from(bytes: &[u8]) -> u32 {
        assert(bytes@.len() == 4);
        (bytes[0] as u32) | ((bytes[1] as u32) << 8) | ((bytes[2] as u32) << 16) | ((
        bytes[3] as u32) << 24)
    }
}

impl Writable for i32 {
    open spec fn encoding(self) -> Seq<u8> {
        le_bytes_u32(self as u32)
    }

    fn write(self, buffer: &mut Vec<u8>) {
        (self as u32).write(buffer);
    }
}

impl CopyWritable for i32 {
    open spec fn byte_size() -> nat {
        4
    }

    open spec fn decode(bytes: Seq<u8>) -> i32 {
        le_word_u32(bytes) as i32
    }

    proof fn lemma_decode_encode(self) {
        lemma_le_u32_roundtrip(self as u32);
        let x = self;
        assert(((x as u32) as i32) == x) by (bit_vector);
    }

    fn size_of() -> usize {
        4
    }

    fn read_from(bytes: &[u8]) -> i32 {
        u32::read_from(bytes) as i32
    }
}

impl Writable for Vector2 {
    open spec fn encoding(self) -> Seq<u8> {
        le_bytes_u32(self.x) + le_bytes_u32(self.y)
    }

    fn write(self, buffer: &mut Vec<u8>) {
        self.x.write(buffer);
        self.y.write(buffer);
    }
}

impl CopyWritable for Vector2 {
    open spec fn byte_size() -> nat {
        8
    }

    open spec fn decode(bytes: Seq<u8>) -> Vector2 {
        vector2_of(bytes)
    }

    proof fn lemma_decode_encode(self) {
        lemma_le_u32_roundtrip(self.x);
        lemma_le_u32_roundtrip(self.y);
        let e = self.encoding();
        assert(e.subrange(0, 4) =~= le_bytes_u32(self.x));
        assert(e.subrange(4, 8) =~= le_bytes_u32(self.y));
    }

    fn size_of() -> usize {
        8
    }

    fn read_from(bytes: &[u8]) -> Vector2 {
        let lo = vstd::slice::slice_subrange(bytes, 0, 4);
        let hi = vstd::slice::slice_subrange(bytes, 4, 8);
        Vector2 { x: u32::read_from(lo), y: u32::read_from(hi) }
    }
}

/// Appends the encoding of `val` to `buffer`.
pub fn write<T: Writable>(buffer: &mut Vec<u8>, val: T)
    ensures
        final(buffer)@ == old(buffer)@ + val.encoding(),
{
    val.write(buffer);
}

/// Eight little-endian bytes of a vector read back as the vector.
pub proof fn lemma_vector2_roundtrip(v: Vector2)
    ensures
        vector2_of(le_bytes_u32(v.x) + le_bytes_u32(v.y)) == v,
{
    lemma_le_u32_roundtrip(v.x);
    lemma_le_u32_roundtrip(v.y);
    let e = le_bytes_u32(v.x) + le_bytes_u32(v.y);
    assert(e.subrange(0, 4) =~= le_bytes_u32(v.x));
    assert(e.subrange(4, 8) =~= le_bytes_u32(v.y));
}

pub proof fn lemma_vector2_encoding(v: Vector2)
    ensures
        v.encoding() == le_bytes_u32(v.x) + le_bytes_u32(v.y),
{
}

} // verus!
