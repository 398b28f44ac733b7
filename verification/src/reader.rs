//! An in-memory byte source with a read position.

use crate::error::LoadError;
use crate::pixel::RGBE;
use vstd::prelude::*;

verus! {

/// A cursor over a byte slice. To the contracts it is the sequence of bytes
/// that have not been read yet: reading removes bytes from its front.
pub struct ByteReader<'a> {
    bytes: &'a [u8],
    pos: usize,
}

impl<'a> View for ByteReader<'a> {
    type V = Seq<u8>;

    closed spec fn view(&self) -> Seq<u8> {
        self.bytes@.skip(self.pos as int)
    }
}

impl<'a> ByteReader<'a> {
    #[verifier::type_invariant]
    spec fn in_bounds(self) -> bool {
        self.pos <= self.bytes@.len()
    }

    /// A reader that has all of `bytes` before it.
    pub fn new(bytes: &'a [u8]) -> (reader: Self)
        ensures
            reader@ == bytes@,
    {
        ByteReader { bytes, pos: 0 }
    }

    /// The number of bytes that have not been read yet.
    pub fn remaining(&self) -> (n: usize)
        ensures
            n == self@.len(),
    {
        proof {
            use_type_invariant(self);
        }
        self.bytes.len() - self.pos
    }

    /// The bytes that have not been read yet, without reading them.
    pub fn fill_buf(&self) -> (buf: &'a [u8])
        ensures
            buf@ == self@,
    {
        proof {
            use_type_invariant(self);
        }
        vstd::slice::slice_subrange(self.bytes, self.pos, self.bytes.len())
    }

    /// Marks the next `amt` bytes as read.
    pub fn consume(&mut self, amt: usize)
        requires
            amt <= old(self)@.len(),
        ensures
            final(self)@ == old(self)@.skip(amt as int),
    {
        proof {
            use_type_invariant(&*self);
        }
        let len = self.bytes.len();
        assert(self.pos + amt <= len);
        self.pos = self.pos + amt;
    }

    /// Reads exactly `n` bytes. Where fewer are left, the reader is drained
    /// and the read fails with [`LoadError::Eof`].
    pub fn read_exact(&mut self, n: usize) -> (result: Result<&'a [u8], LoadError>)
        ensures
            n <= old(self)@.len() ==> (result matches Ok(bytes) && bytes@ == old(self)@.take(
                n as int,
            )) && final(self)@ == old(self)@.skip(n as int),
            n > old(self)@.len() ==> result == Err::<&[u8], LoadError>(LoadError::Eof) && final(self)@.len() == 0,
    {
        proof {
            use_type_invariant(&*self);
        }
        if n > self.bytes.len() - self.pos {
            self.pos = self.bytes.len();
            return Err(LoadError::Eof);
        }
        let bytes = vstd::slice::slice_subrange(self.bytes, self.pos, self.pos + n);
        self.pos = self.pos + n;
        Ok(bytes)
    }

    /// Reads one byte.
    #[inline]
    pub fn read_byte(&mut self) -> (result: Result<u8, LoadError>)
        ensures
            old(self)@.len() >= 1 ==> result == Ok::<u8, LoadError>(old(self)@[0]) && final(self)@
                == old(self)@.skip(1),
            old(self)@.len() < 1 ==> result == Err::<u8, LoadError>(LoadError::Eof) && final(self)@.len() == 0,
    {
        let buf = self.read_exact(1)?;
        Ok(buf[0])
    }

    /// Reads one encoded pixel: four bytes, in the order red, green, blue,
    /// exponent.
    #[inline]
    pub fn read_rgbe(&mut self) -> (result: Result<RGBE, LoadError>)
        ensures
            old(self)@.len() >= 4 ==> result == Ok::<RGBE, LoadError>(
                RGBE::from_seq(old(self)@),
            ) && final(self)@ == old(self)@.skip(4),
            old(self)@.len() < 4 ==> result == Err::<RGBE, LoadError>(LoadError::Eof) && final(self)@.len() == 0,
    {
        let buf = self.read_exact(4)?;
        Ok(RGBE { r: buf[0], g: buf[1], b: buf[2], e: buf[3] })
    }
}

} // verus!
