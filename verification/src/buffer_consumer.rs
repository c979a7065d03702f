//! A cursor that hands out a byte slice piece by piece.
use vstd::prelude::*;

verus! {

/// A cursor over a borrowed byte slice. `pos` bytes have been handed out and
/// `remaining` are left.
pub struct BufferConsumer<'a> {
    buf: &'a [u8],
    pos: usize,
    remaining: usize,
}

impl<'a> BufferConsumer<'a> {
    /// The cursor never leaves the slice, and the two counters add up to the
    /// slice's length.
    #[verifier::type_invariant]
    spec fn inv(self) -> bool {
        self.pos + self.remaining == self.buf@.len()
    }

    /// The whole slice that the cursor runs over.
    pub closed spec fn buffer(self) -> Seq<u8> {
        self.buf@
    }

    /// How many bytes have been handed out.
    pub closed spec fn consumed(self) -> nat {
        self.pos as nat
    }

    /// The bytes that are still to be handed out.
    pub open spec fn rest(self) -> Seq<u8> {
        self.buffer().skip(self.consumed() as int)
    }

    /// A cursor at the start of `buf`.
    pub fn new(buf: &'a [u8]) -> (consumer: BufferConsumer<'a>)
        ensures
            consumer.buffer() == buf@,
            consumer.consumed() == 0,
    {
        BufferConsumer { buf, pos: 0, remaining: buf.len() }
    }

    /// Hands out the next `min(n, remaining)` bytes and moves past them.
    pub fn consume(&mut self, n: usize) -> (data: &'a [u8])
        ensures
            final(self).buffer() == old(self).buffer(),
            old(self).consumed() <= old(self).buffer().len(),
            data@.len() == if n <= old(self).buffer().len() - old(self).consumed() {
                n as int
            } else {
                old(self).buffer().len() - old(self).consumed()
            },
            data@ == old(self).rest().take(data@.len() as int),
            final(self).consumed() == old(self).consumed() + data@.len(),
    {
        proof {
            use_type_invariant(&*self);
        }
        let bytes_to_consume = if n < self.remaining {
            n
        } else {
            self.remaining
        };
        let start = self.pos;
        let buf = self.buf;
        assert(start + bytes_to_consume <= buf@.len() <= usize::MAX) by {
            vstd::slice::axiom_spec_len(buf);
        }
        let data = &buf[start..start + bytes_to_consume];
        *self = BufferConsumer {
            buf,
            pos: start + bytes_to_consume,
            remaining: self.remaining - bytes_to_consume,
        };
        data
    }

    /// Whether every byte has been handed out.
    pub fn done(&self) -> (d: bool)
        ensures
            d == (self.consumed() == self.buffer().len()),
            self.consumed() <= self.buffer().len(),
    {
        proof {
            use_type_invariant(self);
        }
        self.remaining == 0
    }

    /// How many bytes are left.
    pub fn remaining(&self) -> (n: usize)
        ensures
            n == self.buffer().len() - self.consumed(),
    {
        proof {
            use_type_invariant(self);
        }
        self.remaining
    }
}

} // verus!
