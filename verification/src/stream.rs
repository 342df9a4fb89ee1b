//! The byte source the decoder pulls from.
//!
//! The whole input is held as one byte vector with a read position;
//! the parser is fully streaming and never seeks backwards.

use vstd::prelude::*;

use crate::error::DecodeError;

verus! {

/// A byte source delivering the bytes of one JPEG stream in order.
pub struct ByteStream {
    /// The bytes of the stream.
    pub data: Vec<u8>,
    /// The index of the next byte to deliver.
    pub pos: usize,
}

impl ByteStream {
    /// Wrap a byte vector as a source positioned at its start.
    pub fn new(data: Vec<u8>) -> (s: Self)
        ensures
            s.data@ == data@,
            s.pos == 0,
    {
        ByteStream { data, pos: 0 }
    }

    /// Deliver the next byte, or fail if the source is exhausted.
    pub fn read_u8(&mut self) -> (r: Result<u8, DecodeError>)
        ensures
            final(self).data@ == old(self).data@,
            old(self).pos < old(self).data@.len() ==> (r == Ok::<u8, DecodeError>(
                old(self).data@[old(self).pos as int],
            ) && final(self).pos == old(self).pos + 1),
            old(self).pos >= old(self).data@.len() ==> (r == Err::<u8, DecodeError>(
                DecodeError::TruncatedStream,
            ) && final(self).pos == old(self).pos),
    {
        if self.pos < self.data.len() {
            let b = self.data[self.pos];
            self.pos = self.pos + 1;
            Ok(b)
        } else {
            Err(DecodeError::TruncatedStream)
        }
    }

    /// The big-endian 16-bit integer formed by the two bytes at `p`.
    pub open spec fn be16_at(data: Seq<u8>, p: int) -> int {
        data[p] * 0x100 + data[p + 1]
    }

    /// Deliver the next two bytes as a big-endian 16-bit integer.
    pub fn read_u16(&mut self) -> (r: Result<u16, DecodeError>)
        ensures
            final(self).data@ == old(self).data@,
            old(self).pos + 2 <= old(self).data@.len() ==> (r == Ok::<u16, DecodeError>(
                Self::be16_at(old(self).data@, old(self).pos as int) as u16,
            ) && final(self).pos == old(self).pos + 2),
            old(self).pos + 2 > old(self).data@.len() ==> (r == Err::<u16, DecodeError>(
                DecodeError::TruncatedStream,
            ) && old(self).pos <= final(self).pos <= old(self).pos + 2),
    {
        let b0 = self.read_u8()?;
        let b1 = self.read_u8()?;
        Ok((b0 as u16) * 0x100 + (b1 as u16))
    }

    /// Deliver the next `n` bytes as a vector, or fail without a
    /// defined position if fewer are left.
    pub fn read_exact(&mut self, n: usize) -> (r: Result<Vec<u8>, DecodeError>)
        ensures
            final(self).data@ == old(self).data@,
            old(self).pos + n <= old(self).data@.len() ==> (match r {
                Ok(v) => v@ == old(self).data@.subrange(
                    old(self).pos as int,
                    old(self).pos + n,
                ) && final(self).pos == old(self).pos + n,
                Err(_) => false,
            }),
            old(self).pos + n > old(self).data@.len() ==> (r == Err::<Vec<u8>, DecodeError>(
                DecodeError::TruncatedStream,
            ) && final(self).pos == old(self).pos),
    {
        if n > self.data.len() || self.pos > self.data.len() - n {
            return Err(DecodeError::TruncatedStream);
        }
        let len = self.data.len();
        let mut v: Vec<u8> = Vec::new();
        let mut i: usize = 0;
        while i < n
            invariant
                i <= n,
                self.pos == old(self).pos + i,
                self.pos + (n - i) <= len,
                len == self.data@.len(),
                self.data@ == old(self).data@,
                v@ == old(self).data@.subrange(old(self).pos as int, old(self).pos + i),
            decreases n - i,
        {
            let b = self.data[self.pos];
            v.push(b);
            self.pos = self.pos + 1;
            i = i + 1;
            proof {
                assert(v@ =~= old(self).data@.subrange(old(self).pos as int, old(self).pos + i));
            }
        }
        Ok(v)
    }
}

} // verus!
