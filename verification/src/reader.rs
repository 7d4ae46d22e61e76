//! Fixed-width decode operations over any sequential byte source.
//!
//! [`Reader`] asks of an implementor only a view of the bytes not yet
//! consumed ([`Reader::remaining`]) and one raw read primitive
//! ([`Reader::read`]); every decode operation is a provided method verified
//! against that primitive's contract. Each operation issues exactly one raw
//! read of the requested width and yields the decoded scalar if and only if
//! the read returned the full width; a shorter read — including zero bytes
//! at end of stream — is a [`ReadError::ShortRead`], and a failure of the
//! raw read itself is passed through as [`ReadError::Transport`].

use vstd::prelude::*;

use crate::endian::as_signed;
use crate::endian::be_value;
use crate::endian::fold_be;
use crate::endian::fold_le;
use crate::endian::le_value;
use crate::endian::lemma_be_value_bound;
use crate::endian::lemma_le_value_bound;
use crate::endian::pow256;
use crate::endian::to_i16;
use crate::endian::to_i32;
use crate::endian::to_i64;
use crate::endian::to_i8;

verus! {

/// Why a decode operation failed. `E` is the native error type of the
/// underlying stream.
#[derive(Debug)]
pub enum ReadError<E> {
    /// The stream yielded fewer bytes than the requested width in the one
    /// raw read the operation issued (zero bytes means end of stream).
    ShortRead,
    /// The raw read itself failed; the stream's error is carried through
    /// unchanged.
    Transport(E),
}

impl<E> ReadError<E> {
    /// True exactly when this error reports a short read.
    pub fn is_short_read(&self) -> (b: bool)
        ensures
            b == (self is ShortRead),
    {
        match self {
            ReadError::ShortRead => true,
            ReadError::Transport(_) => false,
        }
    }

    /// True exactly when this error carries a failure of the underlying
    /// stream.
    pub fn is_transport(&self) -> (b: bool)
        ensures
            b == (self is Transport),
    {
        match self {
            ReadError::ShortRead => false,
            ReadError::Transport(_) => true,
        }
    }

    /// A human-readable description of the failure.
    pub fn describe(&self) -> (r: &'static str)
        ensures
            self is ShortRead ==> r@ == "could not read enough bytes (end of stream?)"@,
            self is Transport ==> r@ == "the underlying stream failed"@,
    {
        match self {
            ReadError::ShortRead => "could not read enough bytes (end of stream?)",
            ReadError::Transport(_) => "the underlying stream failed",
        }
    }
}

/// Decides the outcome of one big-endian decode step from what the raw read
/// returned: the buffer's value if the read filled it, and exactly a short
/// read otherwise.
pub fn complete_be<E>(count: usize, buf: &Vec<u8>) -> (r: Result<u64, ReadError<E>>)
    requires
        count <= buf@.len(),
        buf@.len() <= 8,
    ensures
        count == buf@.len() ==> (r matches Ok(v) && v as nat == be_value(buf@)),
        count < buf@.len() ==> (r matches Err(e) && e is ShortRead),
{
    if count == buf.len() {
        Ok(fold_be(buf))
    } else {
        Err(ReadError::ShortRead)
    }
}

/// Decides the outcome of one little-endian decode step from what the raw
/// read returned: the buffer's value if the read filled it, and exactly a
/// short read otherwise.
pub fn complete_le<E>(count: usize, buf: &Vec<u8>) -> (r: Result<u64, ReadError<E>>)
    requires
        count <= buf@.len(),
        buf@.len() <= 8,
    ensures
        count == buf@.len() ==> (r matches Ok(v) && v as nat == le_value(buf@)),
        count < buf@.len() ==> (r matches Err(e) && e is ShortRead),
{
    if count == buf.len() {
        Ok(fold_le(buf))
    } else {
        Err(ReadError::ShortRead)
    }
}

/// Wraps a stream's native read failure as a transport error, carrying it
/// through unchanged.
pub fn transport<E>(error: E) -> (r: ReadError<E>)
    ensures
        r == ReadError::Transport(error),
{
    ReadError::Transport(error)
}

/// Extends any sequential byte source with typed, fixed-width decoding.
///
/// An implementor supplies the raw read primitive and a spec view of the
/// bytes it has not yet handed out; all decode operations come as provided
/// methods. Every operation consumes at most its width from the stream and
/// never buffers across calls, so a failed operation may still have
/// advanced the stream by the bytes the one raw read consumed.
///
/// A source whose raw read always delivers everything available at once and
/// never fails declares so through [`Reader::reliable`]; on such a source
/// every decode operation is guaranteed to succeed whenever the width is
/// available and to report exactly a short read whenever it is not.
pub trait Reader {
    /// The stream's native error type for failures of the raw read itself.
    type TransportError;

    /// The bytes this source has not yet handed out, in the order it would
    /// hand them out.
    spec fn remaining(&self) -> Seq<u8>;

    /// True of sources whose raw read always places as many of the
    /// remaining bytes as fit in the buffer and never fails. An implementor
    /// that cannot promise that — a socket, a pipe, anything that may
    /// return fewer bytes than are eventually available or fail in
    /// transport — answers false and keeps only the unconditional
    /// guarantees.
    spec fn reliable(&self) -> bool;

    /// The raw read primitive: places up to `buf.len()` of the next
    /// remaining bytes at the front of `buf` and returns how many, or fails
    /// with the stream's native error. A successful read may return fewer
    /// bytes than requested, even when more remain; a failed read consumes
    /// at most `buf.len()` bytes. A reliable source stays reliable, never
    /// fails, and delivers all it has, up to the buffer's length.
    fn read(&mut self, buf: &mut Vec<u8>) -> (r: Result<usize, Self::TransportError>)
        ensures
            final(buf)@.len() == old(buf)@.len(),
            old(self).reliable() ==> final(self).reliable(),
            old(self).reliable() ==> (r matches Ok(n) && n == vstd::math::min(
                old(buf)@.len() as int,
                old(self).remaining().len() as int,
            )),
            match r {
                Ok(n) => {
                    &&& n <= old(buf)@.len()
                    &&& n <= old(self).remaining().len()
                    &&& final(buf)@.subrange(0, n as int) == old(self).remaining().subrange(
                        0,
                        n as int,
                    )
                    &&& final(self).remaining() == old(self).remaining().skip(n as int)
                },
                Err(_) => exists|n: int|
                    {
                        &&& 0 <= n <= old(buf)@.len()
                        &&& n <= old(self).remaining().len()
                        &&& final(self).remaining() == old(self).remaining().skip(n)
                    },
            },
    ;

    /// Reads one byte as an unsigned integer.
    fn read_u8(&mut self) -> (r: Result<u8, ReadError<Self::TransportError>>)
        ensures
            old(self).remaining().len() < 1 ==> r is Err,
            old(self).reliable() ==> final(self).reliable(),
            (old(self).reliable() && old(self).remaining().len() >= 1) ==> r is Ok,
            (old(self).reliable() && old(self).remaining().len() < 1) ==> (r matches Err(e)
                && e is ShortRead),
            match r {
                Ok(v) => {
                    &&& old(self).remaining().len() >= 1
                    &&& v as nat == be_value(old(self).remaining().take(1))
                    &&& v == old(self).remaining()[0]
                    &&& final(self).remaining() == old(self).remaining().skip(1)
                },
                Err(e) => exists|n: int|
                    {
                        &&& 0 <= n <= 1
                        &&& (e is ShortRead ==> n < 1)
                        &&& n <= old(self).remaining().len()
                        &&& final(self).remaining() == old(self).remaining().skip(n)
                    },
            },
    {
        let ghost orig = self.remaining();
        let mut buf: Vec<u8> = vec![0u8; 1];
        match self.read(&mut buf) {
            Ok(count) => {
                proof {
                    if count == 1 {
                        assert(buf@ =~= orig.take(1));
                        lemma_be_value_bound(buf@);
                        assert(pow256(1) == 0x100) by {
                            reveal_with_fuel(pow256, 2);
                        }
                        assert(orig.take(1).drop_last() =~= Seq::<u8>::empty());
                        assert(be_value(Seq::<u8>::empty()) == 0);
                        assert(be_value(orig.take(1)) == orig[0]);
                    }
                }
                match complete_be(count, &buf) {
                    Ok(wide) => Ok(wide as u8),
                    Err(e) => Err(e),
                }
            },
            Err(t) => Err(transport(t)),
        }
    }

    /// Reads one byte as a two's-complement signed integer.
    fn read_i8(&mut self) -> (r: Result<i8, ReadError<Self::TransportError>>)
        ensures
            old(self).remaining().len() < 1 ==> r is Err,
            old(self).reliable() ==> final(self).reliable(),
            (old(self).reliable() && old(self).remaining().len() >= 1) ==> r is Ok,
            (old(self).reliable() && old(self).remaining().len() < 1) ==> (r matches Err(e)
                && e is ShortRead),
            match r {
                Ok(v) => {
                    &&& old(self).remaining().len() >= 1
                    &&& v as int == as_signed(be_value(old(self).remaining().take(1)), 1)
                    &&& v as int == as_signed(old(self).remaining()[0] as nat, 1)
                    &&& final(self).remaining() == old(self).remaining().skip(1)
                },
                Err(e) => exists|n: int|
                    {
                        &&& 0 <= n <= 1
                        &&& (e is ShortRead ==> n < 1)
                        &&& n <= old(self).remaining().len()
                        &&& final(self).remaining() == old(self).remaining().skip(n)
                    },
            },
    {
        let ghost orig = self.remaining();
        let mut buf: Vec<u8> = vec![0u8; 1];
        match self.read(&mut buf) {
            Ok(count) => {
                proof {
                    if count == 1 {
                        assert(buf@ =~= orig.take(1));
                        lemma_be_value_bound(buf@);
                        assert(pow256(1) == 0x100) by {
                            reveal_with_fuel(pow256, 2);
                        }
                        assert(orig.take(1).drop_last() =~= Seq::<u8>::empty());
                        assert(be_value(Seq::<u8>::empty()) == 0);
                        assert(be_value(orig.take(1)) == orig[0]);
                    }
                }
                match complete_be(count, &buf) {
                    Ok(wide) => Ok(to_i8(wide)),
                    Err(e) => Err(e),
                }
            },
            Err(t) => Err(transport(t)),
        }
    }

    /// Reads a two-byte big-endian unsigned integer.
    fn read_be_u16(&mut self) -> (r: Result<u16, ReadError<Self::TransportError>>)
        ensures
            old(self).remaining().len() < 2 ==> r is Err,
            old(self).reliable() ==> final(self).reliable(),
            (old(self).reliable() && old(self).remaining().len() >= 2) ==> r is Ok,
            (old(self).reliable() && old(self).remaining().len() < 2) ==> (r matches Err(e)
                && e is ShortRead),
            match r {
                Ok(v) => {
                    &&& old(self).remaining().len() >= 2
                    &&& v as nat == be_value(old(self).remaining().take(2))
                    &&& final(self).remaining() == old(self).remaining().skip(2)
                },
                Err(e) => exists|n: int|
                    {
                        &&& 0 <= n <= 2
                        &&& (e is ShortRead ==> n < 2)
                        &&& n <= old(self).remaining().len()
                        &&& final(self).remaining() == old(self).remaining().skip(n)
                    },
            },
    {
        let ghost orig = self.remaining();
        let mut buf: Vec<u8> = vec![0u8; 2];
        match self.read(&mut buf) {
            Ok(count) => {
                proof {
                    if count == 2 {
                        assert(buf@ =~= orig.take(2));
                        lemma_be_value_bound(buf@);
                        assert(pow256(2) == 0x10000) by {
                            reveal_with_fuel(pow256, 3);
                        }
                    }
                }
                match complete_be(count, &buf) {
                    Ok(wide) => Ok(wide as u16),
                    Err(e) => Err(e),
                }
            },
            Err(t) => Err(transport(t)),
        }
    }

    /// Reads a two-byte big-endian two's-complement signed integer.
    fn read_be_i16(&mut self) -> (r: Result<i16, ReadError<Self::TransportError>>)
        ensures
            old(self).remaining().len() < 2 ==> r is Err,
            old(self).reliable() ==> final(self).reliable(),
            (old(self).reliable() && old(self).remaining().len() >= 2) ==> r is Ok,
            (old(self).reliable() && old(self).remaining().len() < 2) ==> (r matches Err(e)
                && e is ShortRead),
            match r {
                Ok(v) => {
                    &&& old(self).remaining().len() >= 2
                    &&& v as int == as_signed(be_value(old(self).remaining().take(2)), 2)
                    &&& final(self).remaining() == old(self).remaining().skip(2)
                },
                Err(e) => exists|n: int|
                    {
                        &&& 0 <= n <= 2
                        &&& (e is ShortRead ==> n < 2)
                        &&& n <= old(self).remaining().len()
                        &&& final(self).remaining() == old(self).remaining().skip(n)
                    },
            },
    {
        let ghost orig = self.remaining();
        let mut buf: Vec<u8> = vec![0u8; 2];
        match self.read(&mut buf) {
            Ok(count) => {
                proof {
                    if count == 2 {
                        assert(buf@ =~= orig.take(2));
                        lemma_be_value_bound(buf@);
                        assert(pow256(2) == 0x10000) by {
                            reveal_with_fuel(pow256, 3);
                        }
                    }
                }
                match complete_be(count, &buf) {
                    Ok(wide) => Ok(to_i16(wide)),
                    Err(e) => Err(e),
                }
            },
            Err(t) => Err(transport(t)),
        }
    }

    /// Reads a two-byte little-endian unsigned integer.
    fn read_le_u16(&mut self) -> (r: Result<u16, ReadError<Self::TransportError>>)
        ensures
            old(self).remaining().len() < 2 ==> r is Err,
            old(self).reliable() ==> final(self).reliable(),
            (old(self).reliable() && old(self).remaining().len() >= 2) ==> r is Ok,
            (old(self).reliable() && old(self).remaining().len() < 2) ==> (r matches Err(e)
                && e is ShortRead),
            match r {
                Ok(v) => {
                    &&& old(self).remaining().len() >= 2
                    &&& v as nat == le_value(old(self).remaining().take(2))
                    &&& final(self).remaining() == old(self).remaining().skip(2)
                },
                Err(e) => exists|n: int|
                    {
                        &&& 0 <= n <= 2
                        &&& (e is ShortRead ==> n < 2)
                        &&& n <= old(self).remaining().len()
                        &&& final(self).remaining() == old(self).remaining().skip(n)
                    },
            },
    {
        let ghost orig = self.remaining();
        let mut buf: Vec<u8> = vec![0u8; 2];
        match self.read(&mut buf) {
            Ok(count) => {
                proof {
                    if count == 2 {
                        assert(buf@ =~= orig.take(2));
                        lemma_le_value_bound(buf@);
                        assert(pow256(2) == 0x10000) by {
                            reveal_with_fuel(pow256, 3);
                        }
                    }
                }
                match complete_le(count, &buf) {
                    Ok(wide) => Ok(wide as u16),
                    Err(e) => Err(e),
                }
            },
            Err(t) => Err(transport(t)),
        }
    }

    /// Reads a two-byte little-endian two's-complement signed integer.
    fn read_le_i16(&mut self) -> (r: Result<i16, ReadError<Self::TransportError>>)
        ensures
            old(self).remaining().len() < 2 ==> r is Err,
            old(self).reliable() ==> final(self).reliable(),
            (old(self).reliable() && old(self).remaining().len() >= 2) ==> r is Ok,
            (old(self).reliable() && old(self).remaining().len() < 2) ==> (r matches Err(e)
                && e is ShortRead),
            match r {
                Ok(v) => {
                    &&& old(self).remaining().len() >= 2
                    &&& v as int == as_signed(le_value(old(self).remaining().take(2)), 2)
                    &&& final(self).remaining() == old(self).remaining().skip(2)
                },
                Err(e) => exists|n: int|
                    {
                        &&& 0 <= n <= 2
                        &&& (e is ShortRead ==> n < 2)
                        &&& n <= old(self).remaining().len()
                        &&& final(self).remaining() == old(self).remaining().skip(n)
                    },
            },
    {
        let ghost orig = self.remaining();
        let mut buf: Vec<u8> = vec![0u8; 2];
        match self.read(&mut buf) {
            Ok(count) => {
                proof {
                    if count == 2 {
                        assert(buf@ =~= orig.take(2));
                        lemma_le_value_bound(buf@);
                        assert(pow256(2) == 0x10000) by {
                            reveal_with_fuel(pow256, 3);
                        }
                    }
                }
                match complete_le(count, &buf) {
                    Ok(wide) => Ok(to_i16(wide)),
                    Err(e) => Err(e),
                }
            },
            Err(t) => Err(transport(t)),
        }
    }

    /// Reads a four-byte big-endian unsigned integer.
    fn read_be_u32(&mut self) -> (r: Result<u32, ReadError<Self::TransportError>>)
        ensures
            old(self).remaining().len() < 4 ==> r is Err,
            old(self).reliable() ==> final(self).reliable(),
            (old(self).reliable() && old(self).remaining().len() >= 4) ==> r is Ok,
            (old(self).reliable() && old(self).remaining().len() < 4) ==> (r matches Err(e)
                && e is ShortRead),
            match r {
                Ok(v) => {
                    &&& old(self).remaining().len() >= 4
                    &&& v as nat == be_value(old(self).remaining().take(4))
                    &&& final(self).remaining() == old(self).remaining().skip(4)
                },
                Err(e) => exists|n: int|
                    {
                        &&& 0 <= n <= 4
                        &&& (e is ShortRead ==> n < 4)
                        &&& n <= old(self).remaining().len()
                        &&& final(self).remaining() == old(self).remaining().skip(n)
                    },
            },
    {
        let ghost orig = self.remaining();
        let mut buf: Vec<u8> = vec![0u8; 4];
        match self.read(&mut buf) {
            Ok(count) => {
                proof {
                    if count == 4 {
                        assert(buf@ =~= orig.take(4));
                        lemma_be_value_bound(buf@);
                        assert(pow256(4) == 0x100000000) by {
                            reveal_with_fuel(pow256, 5);
                        }
                    }
                }
                match complete_be(count, &buf) {
                    Ok(wide) => Ok(wide as u32),
                    Err(e) => Err(e),
                }
            },
            Err(t) => Err(transport(t)),
        }
    }

    /// Reads a four-byte big-endian two's-complement signed integer.
    fn read_be_i32(&mut self) -> (r: Result<i32, ReadError<Self::TransportError>>)
        ensures
            old(self).remaining().len() < 4 ==> r is Err,
            old(self).reliable() ==> final(self).reliable(),
            (old(self).reliable() && old(self).remaining().len() >= 4) ==> r is Ok,
            (old(self).reliable() && old(self).remaining().len() < 4) ==> (r matches Err(e)
                && e is ShortRead),
            match r {
                Ok(v) => {
                    &&& old(self).remaining().len() >= 4
                    &&& v as int == as_signed(be_value(old(self).remaining().take(4)), 4)
                    &&& final(self).remaining() == old(self).remaining().skip(4)
                },
                Err(e) => exists|n: int|
                    {
                        &&& 0 <= n <= 4
                        &&& (e is ShortRead ==> n < 4)
                        &&& n <= old(self).remaining().len()
                        &&& final(self).remaining() == old(self).remaining().skip(n)
                    },
            },
    {
        let ghost orig = self.remaining();
        let mut buf: Vec<u8> = vec![0u8; 4];
        match self.read(&mut buf) {
            Ok(count) => {
                proof {
                    if count == 4 {
                        assert(buf@ =~= orig.take(4));
                        lemma_be_value_bound(buf@);
                        assert(pow256(4) == 0x100000000) by {
                            reveal_with_fuel(pow256, 5);
                        }
                    }
                }
                match complete_be(count, &buf) {
                    Ok(wide) => Ok(to_i32(wide)),
                    Err(e) => Err(e),
                }
            },
            Err(t) => Err(transport(t)),
        }
    }

    /// Reads a four-byte little-endian unsigned integer.
    fn read_le_u32(&mut self) -> (r: Result<u32, ReadError<Self::TransportError>>)
        ensures
            old(self).remaining().len() < 4 ==> r is Err,
            old(self).reliable() ==> final(self).reliable(),
            (old(self).reliable() && old(self).remaining().len() >= 4) ==> r is Ok,
            (old(self).reliable() && old(self).remaining().len() < 4) ==> (r matches Err(e)
                && e is ShortRead),
            match r {
                Ok(v) => {
                    &&& old(self).remaining().len() >= 4
                    &&& v as nat == le_value(old(self).remaining().take(4))
                    &&& final(self).remaining() == old(self).remaining().skip(4)
                },
                Err(e) => exists|n: int|
                    {
                        &&& 0 <= n <= 4
                        &&& (e is ShortRead ==> n < 4)
                        &&& n <= old(self).remaining().len()
                        &&& final(self).remaining() == old(self).remaining().skip(n)
                    },
            },
    {
        let ghost orig = self.remaining();
        let mut buf: Vec<u8> = vec![0u8; 4];
        match self.read(&mut buf) {
            Ok(count) => {
                proof {
                    if count == 4 {
                        assert(buf@ =~= orig.take(4));
                        lemma_le_value_bound(buf@);
                        assert(pow256(4) == 0x100000000) by {
                            reveal_with_fuel(pow256, 5);
                        }
                    }
                }
                match complete_le(count, &buf) {
                    Ok(wide) => Ok(wide as u32),
                    Err(e) => Err(e),
                }
            },
            Err(t) => Err(transport(t)),
        }
    }

    /// Reads a four-byte little-endian two's-complement signed integer.
    fn read_le_i32(&mut self) -> (r: Result<i32, ReadError<Self::TransportError>>)
        ensures
            old(self).remaining().len() < 4 ==> r is Err,
            old(self).reliable() ==> final(self).reliable(),
            (old(self).reliable() && old(self).remaining().len() >= 4) ==> r is Ok,
            (old(self).reliable() && old(self).remaining().len() < 4) ==> (r matches Err(e)
                && e is ShortRead),
            match r {
                Ok(v) => {
                    &&& old(self).remaining().len() >= 4
                    &&& v as int == as_signed(le_value(old(self).remaining().take(4)), 4)
                    &&& final(self).remaining() == old(self).remaining().skip(4)
                },
                Err(e) => exists|n: int|
                    {
                        &&& 0 <= n <= 4
                        &&& (e is ShortRead ==> n < 4)
                        &&& n <= old(self).remaining().len()
                        &&& final(self).remaining() == old(self).remaining().skip(n)
                    },
            },
    {
        let ghost orig = self.remaining();
        let mut buf: Vec<u8> = vec![0u8; 4];
        match self.read(&mut buf) {
            Ok(count) => {
                proof {
                    if count == 4 {
                        assert(buf@ =~= orig.take(4));
                        lemma_le_value_bound(buf@);
                        assert(pow256(4) == 0x100000000) by {
                            reveal_with_fuel(pow256, 5);
                        }
                    }
                }
                match complete_le(count, &buf) {
                    Ok(wide) => Ok(to_i32(wide)),
                    Err(e) => Err(e),
                }
            },
            Err(t) => Err(transport(t)),
        }
    }

    /// Reads an eight-byte big-endian unsigned integer.
    fn read_be_u64(&mut self) -> (r: Result<u64, ReadError<Self::TransportError>>)
        ensures
            old(self).remaining().len() < 8 ==> r is Err,
            old(self).reliable() ==> final(self).reliable(),
            (old(self).reliable() && old(self).remaining().len() >= 8) ==> r is Ok,
            (old(self).reliable() && old(self).remaining().len() < 8) ==> (r matches Err(e)
                && e is ShortRead),
            match r {
                Ok(v) => {
                    &&& old(self).remaining().len() >= 8
                    &&& v as nat == be_value(old(self).remaining().take(8))
                    &&& final(self).remaining() == old(self).remaining().skip(8)
                },
                Err(e) => exists|n: int|
                    {
                        &&& 0 <= n <= 8
                        &&& (e is ShortRead ==> n < 8)
                        &&& n <= old(self).remaining().len()
                        &&& final(self).remaining() == old(self).remaining().skip(n)
                    },
            },
    {
        let ghost orig = self.remaining();
        let mut buf: Vec<u8> = vec![0u8; 8];
        match self.read(&mut buf) {
            Ok(count) => {
                proof {
                    if count == 8 {
                        assert(buf@ =~= orig.take(8));
                        lemma_be_value_bound(buf@);
                    }
                }
                match complete_be(count, &buf) {
                    Ok(wide) => Ok(wide),
                    Err(e) => Err(e),
                }
            },
            Err(t) => Err(transport(t)),
        }
    }

    /// Reads an eight-byte big-endian two's-complement signed integer.
    fn read_be_i64(&mut self) -> (r: Result<i64, ReadError<Self::TransportError>>)
        ensures
            old(self).remaining().len() < 8 ==> r is Err,
            old(self).reliable() ==> final(self).reliable(),
            (old(self).reliable() && old(self).remaining().len() >= 8) ==> r is Ok,
            (old(self).reliable() && old(self).remaining().len() < 8) ==> (r matches Err(e)
                && e is ShortRead),
            match r {
                Ok(v) => {
                    &&& old(self).remaining().len() >= 8
                    &&& v as int == as_signed(be_value(old(self).remaining().take(8)), 8)
                    &&& final(self).remaining() == old(self).remaining().skip(8)
                },
                Err(e) => exists|n: int|
                    {
                        &&& 0 <= n <= 8
                        &&& (e is ShortRead ==> n < 8)
                        &&& n <= old(self).remaining().len()
                        &&& final(self).remaining() == old(self).remaining().skip(n)
                    },
            },
    {
        let ghost orig = self.remaining();
        let mut buf: Vec<u8> = vec![0u8; 8];
        match self.read(&mut buf) {
            Ok(count) => {
                proof {
                    if count == 8 {
                        assert(buf@ =~= orig.take(8));
                        lemma_be_value_bound(buf@);
                        assert(pow256(8) == 0x10000000000000000) by {
                            reveal_with_fuel(pow256, 9);
                        }
                    }
                }
                match complete_be(count, &buf) {
                    Ok(wide) => Ok(to_i64(wide)),
                    Err(e) => Err(e),
                }
            },
            Err(t) => Err(transport(t)),
        }
    }

    /// Reads an eight-byte little-endian unsigned integer.
    fn read_le_u64(&mut self) -> (r: Result<u64, ReadError<Self::TransportError>>)
        ensures
            old(self).remaining().len() < 8 ==> r is Err,
            old(self).reliable() ==> final(self).reliable(),
            (old(self).reliable() && old(self).remaining().len() >= 8) ==> r is Ok,
            (old(self).reliable() && old(self).remaining().len() < 8) ==> (r matches Err(e)
                && e is ShortRead),
            match r {
                Ok(v) => {
                    &&& old(self).remaining().len() >= 8
                    &&& v as nat == le_value(old(self).remaining().take(8))
                    &&& final(self).remaining() == old(self).remaining().skip(8)
                },
                Err(e) => exists|n: int|
                    {
                        &&& 0 <= n <= 8
                        &&& (e is ShortRead ==> n < 8)
                        &&& n <= old(self).remaining().len()
                        &&& final(self).remaining() == old(self).remaining().skip(n)
                    },
            },
    {
        let ghost orig = self.remaining();
        let mut buf: Vec<u8> = vec![0u8; 8];
        match self.read(&mut buf) {
            Ok(count) => {
                proof {
                    if count == 8 {
                        assert(buf@ =~= orig.take(8));
                        lemma_le_value_bound(buf@);
                    }
                }
                match complete_le(count, &buf) {
                    Ok(wide) => Ok(wide),
                    Err(e) => Err(e),
                }
            },
            Err(t) => Err(transport(t)),
        }
    }

    /// Reads an eight-byte little-endian two's-complement signed integer.
    fn read_le_i64(&mut self) -> (r: Result<i64, ReadError<Self::TransportError>>)
        ensures
            old(self).remaining().len() < 8 ==> r is Err,
            old(self).reliable() ==> final(self).reliable(),
            (old(self).reliable() && old(self).remaining().len() >= 8) ==> r is Ok,
            (old(self).reliable() && old(self).remaining().len() < 8) ==> (r matches Err(e)
                && e is ShortRead),
            match r {
                Ok(v) => {
                    &&& old(self).remaining().len() >= 8
                    &&& v as int == as_signed(le_value(old(self).remaining().take(8)), 8)
                    &&& final(self).remaining() == old(self).remaining().skip(8)
                },
                Err(e) => exists|n: int|
                    {
                        &&& 0 <= n <= 8
                        &&& (e is ShortRead ==> n < 8)
                        &&& n <= old(self).remaining().len()
                        &&& final(self).remaining() == old(self).remaining().skip(n)
                    },
            },
    {
        let ghost orig = self.remaining();
        let mut buf: Vec<u8> = vec![0u8; 8];
        match self.read(&mut buf) {
            Ok(count) => {
                proof {
                    if count == 8 {
                        assert(buf@ =~= orig.take(8));
                        lemma_le_value_bound(buf@);
                        assert(pow256(8) == 0x10000000000000000) by {
                            reveal_with_fuel(pow256, 9);
                        }
                    }
                }
                match complete_le(count, &buf) {
                    Ok(wide) => Ok(to_i64(wide)),
                    Err(e) => Err(e),
                }
            },
            Err(t) => Err(transport(t)),
        }
    }
}

} // verus!
