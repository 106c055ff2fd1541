//! The byte-stream primitive: fixed-width big-endian reads and writes over
//! a linear buffer, with the single-byte pushback that slot decoding needs.
//!
//! The reader owns its buffer and keeps a cursor into it, so pushback is a
//! cursor decrement rather than a copy.

use vstd::prelude::*;

verus! {

/// Why decoding failed: the stream ended before the record did, or the
/// metadata payload was not a well-formed compound.
#[derive(Clone, Copy, Debug, PartialEq, Eq, Structural)]
pub enum DecodeError {
    UnexpectedEof,
    InvalidNbt,
}

/// The two big-endian bytes that carry a 16-bit unsigned value.
pub open spec fn be16(v: u16) -> Seq<u8> {
    seq![(v / 256) as u8, (v % 256) as u8]
}

/// The 16-bit unsigned value carried by two big-endian bytes.
pub open spec fn u16_be(hi: u8, lo: u8) -> u16 {
    (hi * 256 + lo) as u16
}

/// The unsigned 16-bit wire pattern of a signed 16-bit value.
pub open spec fn u16_of_i16(v: i16) -> u16 {
    (if v < 0 { v + 0x10000 } else { v as int }) as u16
}

/// The signed 16-bit value carried by an unsigned 16-bit wire pattern.
pub open spec fn i16_of_u16(u: u16) -> i16 {
    (if u >= 0x8000 { u - 0x10000 } else { u as int }) as i16
}

/// Writing a signed value and reading the pattern back is the identity.
pub proof fn lemma_i16_u16_round_trip(v: i16)
    ensures
        i16_of_u16(u16_of_i16(v)) == v,
{
}

/// The two wire bytes determine the pattern they were made from.
pub proof fn lemma_be16_round_trip(v: u16)
    ensures
        u16_be(be16(v)[0], be16(v)[1]) == v,
{
}

/// An output byte stream: bytes only ever get appended.
pub struct ByteWriter {
    bytes: Vec<u8>,
}

impl View for ByteWriter {
    type V = Seq<u8>;

    closed spec fn view(&self) -> Seq<u8> {
        self.bytes@
    }
}

impl ByteWriter {
    pub fn new() -> (w: ByteWriter)
        ensures
            w@ == Seq::<u8>::empty(),
    {
        ByteWriter { bytes: Vec::new() }
    }

    /// Hands the written bytes out.
    pub fn into_bytes(self) -> (r: Vec<u8>)
        ensures
            r@ == self@,
    {
        self.bytes
    }

    pub fn write_u8(&mut self, v: u8)
        ensures
            final(self)@ == old(self)@.push(v),
    {
        self.bytes.push(v);
    }

    pub fn write_u16(&mut self, v: u16)
        ensures
            final(self)@ == old(self)@ + be16(v),
    {
        let hi: u8 = (v / 256) as u8;
        let lo: u8 = (v % 256) as u8;
        self.bytes.push(hi);
        self.bytes.push(lo);
        proof {
            assert(self.bytes@ =~= old(self)@ + be16(v));
        }
    }

    pub fn write_i16(&mut self, v: i16)
        ensures
            final(self)@ == old(self)@ + be16(u16_of_i16(v)),
    {
        let u: u16 = if v < 0 {
            ((v as i32) + 0x10000) as u16
        } else {
            v as u16
        };
        assert(u == u16_of_i16(v));
        self.write_u16(u);
    }

    /// Appends a whole byte string.
    pub fn append(&mut self, other: &Vec<u8>)
        ensures
            final(self)@ == old(self)@ + other@,
    {
        let n = other.len();
        let mut i: usize = 0;
        while i < n
            invariant
                i <= n,
                n == other@.len(),
                self.bytes@ == old(self)@ + other@.take(i as int),
            decreases n - i,
        {
            self.bytes.push(other[i]);
            i = i + 1;
            proof {
                assert(self.bytes@ =~= old(self)@ + other@.take(i as int));
            }
        }
        proof {
            assert(other@.take(n as int) =~= other@);
        }
    }
}

/// An input byte stream: an owned buffer and a cursor. Reads move the
/// cursor forward; pushback moves it back.
pub struct ByteReader {
    bytes: Vec<u8>,
    pos: usize,
}

impl ByteReader {
    /// The whole underlying buffer; no operation changes it.
    pub closed spec fn sdata(&self) -> Seq<u8> {
        self.bytes@
    }

    /// Where the cursor stands.
    pub closed spec fn spos(&self) -> int {
        self.pos as int
    }

    /// The cursor never passes the end of the buffer.
    pub open spec fn wf(&self) -> bool {
        0 <= self.spos() <= self.sdata().len()
    }

    /// The bytes not yet consumed.
    pub open spec fn remaining(&self) -> Seq<u8> {
        self.sdata().skip(self.spos())
    }

    pub fn new(bytes: Vec<u8>) -> (r: ByteReader)
        ensures
            r.wf(),
            r.sdata() == bytes@,
            r.spos() == 0,
    {
        ByteReader { bytes, pos: 0 }
    }

    pub fn position(&self) -> (r: usize)
        ensures
            r == self.spos(),
    {
        self.pos
    }

    /// A borrow of the buffer, for codecs that look past the cursor.
    pub fn data(&self) -> (r: &Vec<u8>)
        ensures
            r@ == self.sdata(),
    {
        &self.bytes
    }

    pub fn read_u8(&mut self) -> (r: Result<u8, DecodeError>)
        requires
            old(self).wf(),
        ensures
            final(self).wf(),
            final(self).sdata() == old(self).sdata(),
            old(self).remaining().len() == 0 ==> r == Err::<u8, DecodeError>(
                DecodeError::UnexpectedEof,
            ) && final(self).spos() == old(self).spos(),
            old(self).remaining().len() >= 1 ==> r == Ok::<u8, DecodeError>(
                old(self).remaining()[0],
            ) && final(self).spos() == old(self).spos() + 1,
    {
        if self.pos < self.bytes.len() {
            let b = self.bytes[self.pos];
            self.pos = self.pos + 1;
            Ok(b)
        } else {
            Err(DecodeError::UnexpectedEof)
        }
    }

    pub fn read_u16(&mut self) -> (r: Result<u16, DecodeError>)
        requires
            old(self).wf(),
        ensures
            final(self).wf(),
            final(self).sdata() == old(self).sdata(),
            old(self).remaining().len() < 2 ==> r == Err::<u16, DecodeError>(
                DecodeError::UnexpectedEof,
            ) && final(self).spos() == old(self).spos(),
            old(self).remaining().len() >= 2 ==> r == Ok::<u16, DecodeError>(
                u16_be(old(self).remaining()[0], old(self).remaining()[1]),
            ) && final(self).spos() == old(self).spos() + 2,
    {
        if self.bytes.len() - self.pos >= 2 {
            let hi = self.bytes[self.pos];
            let lo = self.bytes[self.pos + 1];
            self.pos = self.pos + 2;
            Ok((hi as u16) * 256 + (lo as u16))
        } else {
            Err(DecodeError::UnexpectedEof)
        }
    }

    pub fn read_i16(&mut self) -> (r: Result<i16, DecodeError>)
        requires
            old(self).wf(),
        ensures
            final(self).wf(),
            final(self).sdata() == old(self).sdata(),
            old(self).remaining().len() < 2 ==> r == Err::<i16, DecodeError>(
                DecodeError::UnexpectedEof,
            ) && final(self).spos() == old(self).spos(),
            old(self).remaining().len() >= 2 ==> r == Ok::<i16, DecodeError>(
                i16_of_u16(u16_be(old(self).remaining()[0], old(self).remaining()[1])),
            ) && final(self).spos() == old(self).spos() + 2,
    {
        match self.read_u16() {
            Err(e) => Err(e),
            Ok(u) => {
                let v: i16 = if u >= 0x8000 {
                    ((u as i32) - 0x10000) as i16
                } else {
                    u as i16
                };
                Ok(v)
            },
        }
    }

    /// Returns `n` already-consumed bytes to the stream.
    pub fn back(&mut self, n: usize)
        requires
            old(self).wf(),
            n <= old(self).spos(),
        ensures
            final(self).wf(),
            final(self).sdata() == old(self).sdata(),
            final(self).spos() == old(self).spos() - n,
    {
        self.pos = self.pos - n;
    }

    /// Consumes `n` bytes without looking at them.
    pub fn advance(&mut self, n: usize)
        requires
            old(self).wf(),
            n <= old(self).remaining().len(),
        ensures
            final(self).wf(),
            final(self).sdata() == old(self).sdata(),
            final(self).spos() == old(self).spos() + n,
    {
        proof {
            assert(self.spos() + n <= self.sdata().len());
            assert(self.bytes@.len() == self.bytes.len());
        }
        self.pos = self.pos + n;
    }
}

} // verus!
