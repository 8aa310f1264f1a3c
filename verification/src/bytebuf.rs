//! A byte buffer for packet payloads, with the trimming operations the
//! engine needs: drop bytes from the front (`adjust`), drop bytes from the
//! back (`trim`), and split the front off as an independent buffer
//! (`split_front`).  A zero-length buffer serves as the end-of-stream
//! marker in the receive queue.

use vstd::prelude::*;

verus! {

/// A contiguous run of payload bytes.
pub struct ByteBuf {
    data: Vec<u8>,
}

impl View for ByteBuf {
    type V = Seq<u8>;

    closed spec fn view(&self) -> Seq<u8> {
        self.data@
    }
}

impl ByteBuf {
    /// A buffer of `size` zero bytes; `new(0)` is the zero-length marker.
    pub fn new(size: usize) -> (r: ByteBuf)
        ensures
            r@.len() == size,
            forall|i: int| 0 <= i < size ==> r@[i] == 0u8,
    {
        let mut data: Vec<u8> = Vec::new();
        let mut i: usize = 0;
        while i < size
            invariant
                i <= size,
                data@.len() == i,
                forall|j: int| 0 <= j < i ==> data@[j] == 0u8,
            decreases size - i,
        {
            data.push(0);
            i = i + 1;
        }
        ByteBuf { data }
    }

    /// A buffer holding the given bytes.
    pub fn from_vec(data: Vec<u8>) -> (r: ByteBuf)
        ensures
            r@ == data@,
    {
        ByteBuf { data }
    }

    pub fn len(&self) -> (r: usize)
        ensures
            r == self@.len(),
    {
        self.data.len()
    }

    /// Read one byte.
    pub fn byte_at(&self, i: usize) -> (r: u8)
        requires
            i < self@.len(),
        ensures
            r == self@[i as int],
    {
        self.data[i]
    }

    /// The buffer's bytes as a plain vector.
    pub fn to_vec(&self) -> (r: Vec<u8>)
        ensures
            r@ == self@,
    {
        let mut out: Vec<u8> = Vec::new();
        let mut i: usize = 0;
        while i < self.data.len()
            invariant
                i <= self.data@.len(),
                out@ == self.data@.subrange(0, i as int),
            decreases self.data@.len() - i,
        {
            out.push(self.data[i]);
            i = i + 1;
            proof {
                assert(out@ =~= self.data@.subrange(0, i as int));
            }
        }
        proof {
            assert(out@ =~= self.data@);
        }
        out
    }

    /// An independent buffer with the same bytes.
    pub fn duplicate(&self) -> (r: ByteBuf)
        ensures
            r@ == self@,
    {
        ByteBuf { data: self.to_vec() }
    }

    /// Drop `n` bytes from the front (advance the buffer's head).
    pub fn adjust(&mut self, n: usize)
        requires
            n <= old(self)@.len(),
        ensures
            final(self)@ == old(self)@.subrange(n as int, old(self)@.len() as int),
    {
        let mut out: Vec<u8> = Vec::new();
        let mut i: usize = n;
        while i < self.data.len()
            invariant
                n <= i <= self.data@.len(),
                out@ == self.data@.subrange(n as int, i as int),
            decreases self.data@.len() - i,
        {
            out.push(self.data[i]);
            i = i + 1;
            proof {
                assert(out@ =~= self.data@.subrange(n as int, i as int));
            }
        }
        self.data = out;
    }

    /// Drop `n` bytes from the back (shorten the buffer's tail).
    pub fn trim(&mut self, n: usize)
        requires
            n <= old(self)@.len(),
        ensures
            final(self)@ == old(self)@.subrange(0, old(self)@.len() - n),
    {
        let new_len: usize = self.data.len() - n;
        self.data.truncate(new_len);
        proof {
            assert(self.data@ =~= old(self)@.subrange(0, old(self)@.len() - n));
        }
    }

    /// Split the first `n` bytes off as an independent buffer; this buffer
    /// keeps the remainder.
    pub fn split_front(&mut self, n: usize) -> (r: ByteBuf)
        requires
            n <= old(self)@.len(),
        ensures
            r@ == old(self)@.subrange(0, n as int),
            final(self)@ == old(self)@.subrange(n as int, old(self)@.len() as int),
    {
        let mut front: Vec<u8> = Vec::new();
        let mut i: usize = 0;
        while i < n
            invariant
                i <= n <= self.data@.len(),
                front@ == self.data@.subrange(0, i as int),
                self.data@ == old(self)@,
            decreases n - i,
        {
            front.push(self.data[i]);
            i = i + 1;
            proof {
                assert(front@ =~= self.data@.subrange(0, i as int));
            }
        }
        self.adjust(n);
        ByteBuf { data: front }
    }
}

} // verus!
