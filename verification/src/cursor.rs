//! An in-memory byte source.
//!
//! [`ByteCursor`] walks a byte vector from front to back and implements
//! [`crate::reader::Reader`], so all decode operations apply to it. Its raw
//! read always hands out as many bytes as are still available, up to the
//! buffer's length, and never fails.

use vstd::prelude::*;

use crate::reader::Reader;

verus! {

/// A sequential byte source over an owned byte vector.
pub struct ByteCursor {
    data: Vec<u8>,
    pos: usize,
}

impl ByteCursor {
    #[verifier::type_invariant]
    spec fn well_formed(&self) -> bool {
        self.pos <= self.data@.len()
    }

    /// Makes a cursor that will hand out all of `data`, front to back.
    pub fn new(data: Vec<u8>) -> (c: ByteCursor)
        ensures
            c.remaining() == data@,
    {
        let c = ByteCursor { data, pos: 0 };
        proof {
            assert(c.remaining() =~= c.data@);
        }
        c
    }

    /// How many bytes are still available.
    pub fn len(&self) -> (n: usize)
        ensures
            n == self.remaining().len(),
    {
        proof {
            use_type_invariant(self);
        }
        self.data.len() - self.pos
    }
}

impl Reader for ByteCursor {
    /// The cursor's reads never fail, so no transport error value exists.
    type TransportError = ();

    closed spec fn remaining(&self) -> Seq<u8> {
        self.data@.skip(self.pos as int)
    }

    /// The cursor's raw read always delivers all it has, up to the
    /// buffer's length, and never fails.
    open spec fn reliable(&self) -> bool {
        true
    }

    fn read(&mut self, buf: &mut Vec<u8>) -> (r: Result<usize, ()>) {
        proof {
            use_type_invariant(&*self);
        }
        let available: usize = self.data.len() - self.pos;
        let n: usize = if buf.len() < available {
            buf.len()
        } else {
            available
        };
        let mut i: usize = 0;
        while i < n
            invariant
                i <= n,
                n <= old(buf)@.len(),
                self == old(self),
                self.pos + n <= self.data@.len(),
                self.pos + n <= usize::MAX,
                buf@.len() == old(buf)@.len(),
                forall|j: int| 0 <= j < i ==> buf@[j] == self.data@[self.pos + j],
            decreases n - i,
        {
            let b: u8 = self.data[self.pos + i];
            buf[i] = b;
            i = i + 1;
        }
        self.pos = self.pos + n;
        proof {
            assert(buf@.subrange(0, n as int) =~= old(self).remaining().subrange(0, n as int));
            assert(self.remaining() =~= old(self).remaining().skip(n as int));
        }
        Ok(n)
    }
}

} // verus!
