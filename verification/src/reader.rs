//! A cursor over a byte buffer.

use vstd::layout::layout_of_primitives;
use vstd::prelude::*;

use crate::bytes::{
    convert_from_bytes, lemma_uint_value_bound, lemma_word_size, uint_value, word_size, ByteOrder,
};

verus! {

/// Reads integers from a buffer, one after the other.
pub struct BufReader<'a> {
    pub buf: &'a [u8],
    pub pos: usize,
    pub order: ByteOrder,
}

impl<'a> BufReader<'a> {
    /// The cursor lies inside the buffer or at its end.
    pub open spec fn wf(&self) -> bool {
        self.pos <= self.buf@.len()
    }

    /// What is left to read.
    pub open spec fn remaining(&self) -> Seq<u8> {
        self.buf@.skip(self.pos as int)
    }

    /// `self` is `before` with the cursor moved forward by `count` bytes.
    pub open spec fn advanced(&self, before: &BufReader<'a>, count: nat) -> bool {
        &&& self.wf()
        &&& self.buf@ == before.buf@
        &&& self.order == before.order
        &&& self.pos == before.pos + count
        &&& self.remaining() == before.remaining().skip(count as int)
    }

    /// Starts at the first byte of `buf`.
    pub fn new(buf: &'a [u8], order: ByteOrder) -> (reader: BufReader<'a>)
        ensures
            reader.wf(),
            reader.buf@ == buf@,
            reader.pos == 0,
            reader.order == order,
            reader.remaining() == buf@,
    {
        let reader = BufReader { buf, pos: 0, order };
        assert(reader.remaining() =~= buf@);
        reader
    }

    /// Reads a number of `size` bytes.
    pub fn read(&mut self, size: usize) -> (value: u64)
        requires
            old(self).wf(),
            size <= 8,
            size <= old(self).remaining().len(),
        ensures
            value == uint_value(
                old(self).order,
                old(self).remaining().take(size as int),
            ),
            value == uint_value(
                old(self).order,
                old(self).buf@.subrange(old(self).pos as int, old(self).pos + size),
            ),
            final(self).buf@ == old(self).buf@,
            final(self).order == old(self).order,
            final(self).pos == old(self).pos + size,
            final(self).advanced(old(self), size as nat),
    {
        let rest: &[u8] = &self.buf[self.pos..self.buf.len()];
        assert(rest@ =~= self.remaining());
        assert(rest@.take(size as int) =~= self.buf@.subrange(self.pos as int, self.pos + size));
        let value: u64 = convert_from_bytes(rest, size, self.order);
        self.pos = self.pos + size;
        assert(self.remaining() =~= old(self).remaining().skip(size as int));
        value
    }

    /// Reads a `u32`.
    pub fn read_u32(&mut self) -> (value: u32)
        requires
            old(self).wf(),
            4 <= old(self).remaining().len(),
        ensures
            value == uint_value(old(self).order, old(self).remaining().take(4)),
            value == uint_value(
                old(self).order,
                old(self).buf@.subrange(old(self).pos as int, old(self).pos + 4),
            ),
            final(self).buf@ == old(self).buf@,
            final(self).order == old(self).order,
            final(self).pos == old(self).pos + 4,
            final(self).advanced(old(self), 4),
    {
        proof {
            lemma_word_size();
            lemma_uint_value_bound(self.order, self.remaining().take(4));
        }
        self.read(4) as u32
    }

    /// Reads a word.
    pub fn read_usize(&mut self) -> (value: usize)
        requires
            old(self).wf(),
            word_size() <= old(self).remaining().len(),
        ensures
            value == uint_value(
                old(self).order,
                old(self).remaining().take(word_size() as int),
            ),
            value == uint_value(
                old(self).order,
                old(self).buf@.subrange(old(self).pos as int, old(self).pos + word_size()),
            ),
            final(self).buf@ == old(self).buf@,
            final(self).order == old(self).order,
            final(self).pos == old(self).pos + word_size(),
            final(self).advanced(old(self), word_size()),
    {
        broadcast use layout_of_primitives;

        proof {
            lemma_word_size();
            lemma_uint_value_bound(
                self.order,
                self.remaining().take(word_size() as int),
            );
        }
        self.read(std::mem::size_of::<usize>()) as usize
    }

    /// Tells whether a byte is left.
    pub fn has_more(&self) -> (more: bool)
        ensures
            more == (self.pos < self.buf@.len()),
            self.wf() ==> more == (self.remaining().len() > 0),
    {
        self.pos < self.buf.len()
    }
}

} // verus!
