//! Inspection and explicit memory management of a reader's retained buffer.

use crate::reader::Reader;
use vstd::prelude::*;

verus! {

/// Access to the retained buffer of a reader and control over its memory.
///
/// The buffer grows automatically while reading; shrinking is explicit. Use
/// [`buffer`](Self::buffer), [`pos`](Self::pos) and [`capacity`](Self::capacity) to inspect the
/// retained bytes, and [`shrink`](Self::shrink), [`compact`](Self::compact),
/// [`clear`](Self::clear) and [`discard`](Self::discard) to manage them.
pub trait DynamicRead {
    /// The implementor's consistency, which every method keeps.
    spec fn dyn_inv(&self) -> bool;

    /// The retained bytes, consumed and unconsumed.
    spec fn retained(&self) -> Seq<u8>;

    /// The offset of the unconsumed bytes within the retained ones.
    spec fn read_pos(&self) -> nat;

    /// The current capacity.
    spec fn capacity_of(&self) -> nat;

    /// The retained bytes, which may include consumed ones; [`pos`](Self::pos) tells where the
    /// unconsumed ones begin.
    fn buffer(&self) -> (s: &[u8])
        requires
            self.dyn_inv(),
        ensures
            s@ == self.retained(),
    ;

    /// The offset of the unconsumed bytes within [`buffer`](Self::buffer).
    fn pos(&self) -> (p: usize)
        requires
            self.dyn_inv(),
        ensures
            p == self.read_pos(),
            p <= self.retained().len(),
    ;

    /// The current capacity in bytes.
    fn capacity(&self) -> (c: usize)
        requires
            self.dyn_inv(),
        ensures
            c == self.capacity_of(),
            self.retained().len() <= c,
    ;

    /// Shrinks the capacity to fit the retained bytes; the resulting capacity is
    /// implementation-defined but holds them. The bytes and the position stay.
    fn shrink(&mut self)
        requires
            old(self).dyn_inv(),
        ensures
            final(self).dyn_inv(),
            final(self).retained() == old(self).retained(),
            final(self).read_pos() == old(self).read_pos(),
            final(self).retained().len() <= final(self).capacity_of() <= old(self).capacity_of(),
    ;

    /// Moves the unconsumed bytes to the start; the position becomes 0 and the capacity stays.
    fn compact(&mut self)
        requires
            old(self).dyn_inv(),
        ensures
            final(self).dyn_inv(),
            final(self).retained() == old(self).retained().subrange(old(self).read_pos() as int, old(self).retained().len() as int),
            final(self).read_pos() == 0,
            final(self).capacity_of() == old(self).capacity_of(),
    ;

    /// Drops all retained bytes and resets the position; the capacity stays.
    fn clear(&mut self)
        requires
            old(self).dyn_inv(),
        ensures
            final(self).dyn_inv(),
            final(self).retained() == Seq::<u8>::empty(),
            final(self).read_pos() == 0,
            final(self).capacity_of() == old(self).capacity_of(),
    ;

    /// Drops all retained bytes and shrinks to the minimal capacity: the same as
    /// [`clear`](Self::clear) followed by [`shrink`](Self::shrink).
    fn discard(&mut self)
        requires
            old(self).dyn_inv(),
        ensures
            final(self).dyn_inv(),
            final(self).retained() == Seq::<u8>::empty(),
            final(self).read_pos() == 0,
            final(self).capacity_of() <= old(self).capacity_of(),
    {
        self.clear();
        self.shrink();
    }
}

impl<R> DynamicRead for Reader<R> {
    open spec fn dyn_inv(&self) -> bool {
        self.inv()
    }

    open spec fn retained(&self) -> Seq<u8> {
        self@.buffer.bytes
    }

    open spec fn read_pos(&self) -> nat {
        self@.buffer.pos
    }

    open spec fn capacity_of(&self) -> nat {
        self@.buffer.cap
    }

    fn buffer(&self) -> (s: &[u8]) {
        self.buffer_ref().buf()
    }

    fn pos(&self) -> (p: usize) {
        proof { self.lemma_view_wf(); }
        self.buffer_ref().pos()
    }

    fn capacity(&self) -> (c: usize) {
        proof { self.lemma_view_wf(); }
        self.buffer_ref().cap()
    }

    fn shrink(&mut self)
        ensures
            final(self)@.buffer == old(self)@.buffer.shrunk(),
            final(self)@.max_capacity == old(self)@.max_capacity,
            final(self).source() == old(self).source(),
    {
        self.shrink_buffer();
    }

    fn compact(&mut self)
        ensures
            final(self)@.max_capacity == old(self)@.max_capacity,
            final(self).source() == old(self).source(),
    {
        self.compact_buffer();
    }

    fn clear(&mut self)
        ensures
            final(self)@.max_capacity == old(self)@.max_capacity,
            final(self).source() == old(self).source(),
    {
        self.clear_buffer();
    }

    fn discard(&mut self)
        ensures
            final(self)@.buffer == old(self)@.buffer.discarded(),
            final(self)@.max_capacity == old(self)@.max_capacity,
            final(self).source() == old(self).source(),
    {
        self.discard_buffer();
    }
}

} // verus!
