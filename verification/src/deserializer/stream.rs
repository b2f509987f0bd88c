//! A cursor over a borrowed byte slice that hands out little-endian scalars and sub-streams.
use vstd::prelude::*;
use crate::binary_writer::{CopyWritable, Vector2, Writable};

verus! {

/// The first `n` values of type `T` encoded back to back at the start of `bytes`.
pub open spec fn decode_seq<T: CopyWritable>(bytes: Seq<u8>, n: nat) -> Seq<T>
    decreases n,
{
    if n == 0 {
        Seq::empty()
    } else {
        seq![T::decode(bytes.take(T::byte_size() as int))].add(
            decode_seq::<T>(bytes.skip(T::byte_size() as int), (n - 1) as nat),
        )
    }
}

/// The encodings of `vals`, back to back.
pub open spec fn encode_seq<T: CopyWritable>(vals: Seq<T>) -> Seq<u8>
    decreases vals.len(),
{
    if vals.len() == 0 {
        Seq::empty()
    } else {
        vals[0].encoding() + encode_seq(vals.drop_first())
    }
}

pub proof fn lemma_encode_seq_len<T: CopyWritable>(vals: Seq<T>)
    ensures
        encode_seq(vals).len() == vals.len() * T::byte_size(),
    decreases vals.len(),
{
    if vals.len() > 0 {
        vals[0].lemma_decode_encode();
        lemma_encode_seq_len(vals.drop_first());
        assert(vals.len() * T::byte_size() == T::byte_size() + (vals.len() - 1) * T::byte_size())
            by (nonlinear_arith);
    }
}

/// Decoding the encodings of a sequence of values, followed by anything, gives the values back.
pub proof fn lemma_decode_encode_seq<T: CopyWritable>(vals: Seq<T>, rest: Seq<u8>)
    ensures
        decode_seq::<T>(encode_seq(vals) + rest, vals.len()) == vals,
    decreases vals.len(),
{
    if vals.len() > 0 {
        let v0 = vals[0];
        v0.lemma_decode_encode();
        let tail = vals.drop_first();
        let bytes = encode_seq(vals) + rest;
        let k = T::byte_size() as int;
        assert(bytes =~= v0.encoding() + (encode_seq(tail) + rest));
        assert(bytes.take(k) =~= v0.encoding());
        assert(bytes.skip(k) =~= encode_seq(tail) + rest);
        lemma_decode_encode_seq(tail, rest);
        assert(decode_seq::<T>(bytes, vals.len()) =~= vals);
    }
}

/// Decoding `n` values only looks at the first `n * byte_size` bytes.
pub proof fn lemma_decode_seq_prefix<T: CopyWritable>(bytes: Seq<u8>, m: int, n: nat)
    requires
        n * T::byte_size() <= m <= bytes.len(),
    ensures
        decode_seq::<T>(bytes.take(m), n) == decode_seq::<T>(bytes, n),
    decreases n,
{
    if n > 0 {
        let k = T::byte_size() as int;
        assert(n * T::byte_size() == T::byte_size() + (n - 1) * T::byte_size()) by (nonlinear_arith);
        assert(bytes.take(m).take(k) =~= bytes.take(k));
        assert(bytes.take(m).skip(k) =~= bytes.skip(k).take(m - k));
        lemma_decode_seq_prefix::<T>(bytes.skip(k), m - k, (n - 1) as nat);
    }
}

/// A read position in a byte slice; the stream's view is the bytes not yet consumed.
pub struct Stream<'bytes> {
    bytes: &'bytes [u8],
}

impl<'bytes> View for Stream<'bytes> {
    type V = Seq<u8>;

    closed spec fn view(&self) -> Seq<u8> {
        self.bytes@
    }
}

impl<'bytes> Stream<'bytes> {
    pub fn new(bytes: &'bytes [u8]) -> (s: Self)
        ensures
            s@ == bytes@,
    {
        Stream { bytes }
    }

    /// Number of bytes left.
    pub fn len(&self) -> (n: usize)
        ensures
            n == self@.len(),
    {
        self.bytes.len()
    }

    fn read<T: CopyWritable>(&mut self) -> (v: T)
        requires
            T::byte_size() <= old(self)@.len(),
        ensures
            v == T::decode(old(self)@.take(T::byte_size() as int)),
            final(self)@ == old(self)@.skip(T::byte_size() as int),
    {
        let size = T::size_of();
        let head = vstd::slice::slice_subrange(self.bytes, 0, size);
        let val = T::read_from(head);
        self.seek(size);
        val
    }

    /// Skips `bytes` bytes.
    pub fn seek(&mut self, bytes: usize)
        requires
            bytes <= old(self)@.len(),
        ensures
            final(self)@ == old(self)@.skip(bytes as int),
    {
        let len = self.bytes.len();
        self.bytes = vstd::slice::slice_subrange(self.bytes, bytes, len);
    }

    pub fn read_u8(&mut self) -> (v: u8)
        requires
            1 <= old(self)@.len(),
        ensures
            v == old(self)@[0],
            final(self)@ == old(self)@.skip(1),
    {
        self.read()
    }

    pub fn read_u16(&mut self) -> (v: u16)
        requires
            2 <= old(self)@.len(),
        ensures
            v == u16::decode(old(self)@.take(2)),
            final(self)@ == old(self)@.skip(2),
    {
        self.read()
    }

    pub fn read_u32(&mut self) -> (v: u32)
        requires
            4 <= old(self)@.len(),
        ensures
            v == u32::decode(old(self)@.take(4)),
            final(self)@ == old(self)@.skip(4),
    {
        self.read()
    }

    pub fn read_i8(&mut self) -> (v: i8)
        requires
            1 <= old(self)@.len(),
        ensures
            v == old(self)@[0] as i8,
            final(self)@ == old(self)@.skip(1),
    {
        self.read()
    }

    pub fn read_i16(&mut self) -> (v: i16)
        requires
            2 <= old(self)@.len(),
        ensures
            v == i16::decode(old(self)@.take(2)),
            final(self)@ == old(self)@.skip(2),
    {
        self.read()
    }

    pub fn read_i32(&mut self) -> (v: i32)
        requires
            4 <= old(self)@.len(),
        ensures
            v == i32::decode(old(self)@.take(4)),
            final(self)@ == old(self)@.skip(4),
    {
        self.read()
    }

    pub fn read_vector2(&mut self) -> (v: Vector2)
        requires
            8 <= old(self)@.len(),
        ensures
            v == Vector2::decode(old(self)@.take(8)),
            final(self)@ == old(self)@.skip(8),
    {
        self.read()
    }

    /// Splits off the next `size` bytes as a stream of their own.
    pub fn substream(&mut self, size: usize) -> (sub: Stream<'bytes>)
        requires
            size <= old(self)@.len(),
        ensures
            sub@ == old(self)@.take(size as int),
            final(self)@ == old(self)@.skip(size as int),
    {
        let head = vstd::slice::slice_subrange(self.bytes, 0, size);
        self.seek(size);
        Stream::new(head)
    }

    /// Reads `count` consecutive values of type `T`; at least one value is read.
    pub fn substream_of<T: CopyWritable>(&mut self, count: usize) -> (vals: Vec<T>)
        requires
            count > 0,
            count * T::byte_size() <= old(self)@.len(),
        ensures
            vals@ == decode_seq::<T>(old(self)@, count as nat),
            final(self)@ == old(self)@.skip(count * T::byte_size()),
    {
        let size = T::size_of();
        let avail = self.bytes.len();
        assert(count * size <= usize::MAX) by (nonlinear_arith)
            requires count * size <= avail, avail <= usize::MAX;
        let ghost before = self@;
        let sub = self.substream(count * size);
        proof {
            lemma_decode_seq_prefix::<T>(before, count * size, count as nat);
        }
        sub.interpret_first(count)
    }

    /// Reads a `u32` byte count, then splits off that many bytes as a stream.
    pub fn read_substream(&mut self) -> (sub: Stream<'bytes>)
        requires
            4 <= old(self)@.len(),
            4 + u32::decode(old(self)@.take(4)) <= old(self)@.len(),
        ensures
            sub@ == old(self)@.skip(4).take(u32::decode(old(self)@.take(4)) as int),
            final(self)@ == old(self)@.skip(4 + u32::decode(old(self)@.take(4))),
    {
        let size = self.read_u32();
        let sub = self.substream(size as usize);
        assert(old(self)@.skip(4).skip(size as int) =~= old(self)@.skip(4 + size));
        sub
    }

    fn interpret_first<T: CopyWritable>(&self, count: usize) -> (vals: Vec<T>)
        requires
            count * T::byte_size() <= self@.len(),
        ensures
            vals@ == decode_seq::<T>(self@, count as nat),
    {
        let mut rest = Stream { bytes: self.bytes };
        let mut vals: Vec<T> = Vec::new();
        let mut i: usize = 0;
        while i < count
            invariant
                i <= count,
                (count - i) * T::byte_size() <= rest@.len(),
                vals@ + decode_seq::<T>(rest@, (count - i) as nat) == decode_seq::<T>(
                    self@,
                    count as nat,
                ),
            decreases count - i,
        {
            let ghost before = rest@;
            assert((count - i) * T::byte_size() == T::byte_size() + (count - i - 1)
                * T::byte_size()) by (nonlinear_arith)
                requires i < count;
            let v: T = rest.read();
            proof {
                let tail = decode_seq::<T>(rest@, (count - i - 1) as nat);
                assert(decode_seq::<T>(before, (count - i) as nat) =~= seq![v] + tail);
                assert(vals@.push(v) + tail =~= vals@ + (seq![v] + tail));
            }
            vals.push(v);
            i = i + 1;
        }
        assert(vals@ + decode_seq::<T>(rest@, 0) =~= vals@);
        vals
    }

    /// Reads as many whole values of type `T` as the stream holds, without consuming them. The
    /// stream must not be empty.
    pub fn interpret<T: CopyWritable>(&self) -> (vals: Vec<T>)
        requires
            self@.len() > 0,
        ensures
            vals@ == decode_seq::<T>(self@, self@.len() / T::byte_size()),
    {
        let size = T::size_of();
        let count = self.bytes.len() / size;
        assert(count * size <= self@.len()) by (nonlinear_arith)
            requires count == self@.len() / (size as nat), size > 0;
        self.interpret_first(count)
    }

    /// The bytes not yet consumed.
    pub fn as_slice(&self) -> (s: &'bytes [u8])
        ensures
            s@ == self@,
    {
        self.bytes
    }
}

/// The number of bytes consumed by a run of reads.
pub open spec fn total_consumed(consumed: Seq<nat>) -> nat
    decreases consumed.len(),
{
    if consumed.len() == 0 {
        0
    } else {
        total_consumed(consumed.drop_last()) + consumed.last()
    }
}

/// Reading consumes a stream's bytes in order, none skipped and none read twice: after any run
/// of reads on a stream made from `bytes` (`states[k]` the stream before read `k`, each read
/// leaving the bytes after the `consumed[k]` it consumed, as every reading method states), what
/// is left is `bytes` after all the bytes consumed.
pub proof fn law_reads_leave_suffix<'a>(bytes: Seq<u8>, states: Seq<Stream<'a>>, consumed: Seq<nat>)
    requires
        states.len() == consumed.len() + 1,
        states[0]@ == bytes,
        forall|k: int|
            0 <= k < consumed.len() ==> (#[trigger] consumed[k]) <= states[k]@.len() && states[k + 1]@
                == states[k]@.skip(consumed[k] as int),
    ensures
        total_consumed(consumed) <= bytes.len(),
        states[consumed.len() as int]@ == bytes.skip(total_consumed(consumed) as int),
    decreases consumed.len(),
{
    let m = consumed.len();
    if m == 0 {
        assert(bytes.skip(0) =~= bytes);
    } else {
        let st = states.take(m as int);
        let cs = consumed.drop_last();
        assert forall|k: int| 0 <= k < cs.len() implies (#[trigger] cs[k]) <= st[k]@.len() && st[k + 1]@
            == st[k]@.skip(cs[k] as int) by {
            assert(cs[k] == consumed[k] && st[k] == states[k] && st[k + 1] == states[k + 1]);
        }
        law_reads_leave_suffix(bytes, st, cs);
        assert(consumed[m - 1] <= states[m - 1]@.len());
        assert(st[m - 1] == states[m - 1]);
        let t = total_consumed(cs) as int;
        assert(states[m as int]@ =~= bytes.skip(t + consumed[m - 1]));
    }
}

} // verus!
