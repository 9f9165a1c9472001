//! Walking a buffer from its oldest element to its newest.

use vstd::prelude::*;
use vstd::std_specs::iter::IteratorSpecImpl;
use crate::buffer::RingBuff;
use crate::index::{lemma_ring_slot, lemma_ring_slot_offset, lemma_ring_step};

verus! {

/// A pass over the live elements of a buffer, oldest first.
///
/// The pass borrows the buffer, so the buffer cannot change while the pass
/// is in use, and it leaves every element in place.
pub struct RingBuffIter<'a, T, const CAP: usize> {
    /// The buffer that is walked.
    buffer: &'a RingBuff<T, CAP>,
    /// Slot of the element that comes next.
    index: usize,
    /// Number of elements handed out so far.
    count: usize,
}

impl<'a, T, const CAP: usize> RingBuffIter<'a, T, CAP> {
    /// The position is within the buffer's live elements and the slot cursor
    /// stands on the slot of that position.
    #[verifier::type_invariant]
    closed spec fn inv(self) -> bool {
        &&& self.buffer.wf()
        &&& self.count <= self.buffer@.len()
        &&& self.index == self.buffer@.slot_of(self.count as int)
    }

    /// The elements of the buffer that is walked, oldest first.
    pub closed spec fn elements(self) -> Seq<T> {
        self.buffer@.items
    }

    /// Number of elements handed out so far.
    pub closed spec fn consumed(self) -> nat {
        self.count as nat
    }

    /// A pass that stands before the oldest element of `buffer`.
    pub(crate) fn new(buffer: &'a RingBuff<T, CAP>) -> (pass: Self)
        requires
            buffer.wf(),
        ensures
            pass.elements() == buffer@.items,
            pass.consumed() == 0,
    {
        proof {
            lemma_ring_slot(CAP as int, buffer@.head as int, 0);
        }
        RingBuffIter { buffer, index: buffer.reader(), count: 0 }
    }
}

impl<'a, T, const CAP: usize> Iterator for RingBuffIter<'a, T, CAP> {
    type Item = &'a T;

    /// Hands out the next element, or nothing once all have been handed out.
    fn next(&mut self) -> (item: Option<&'a T>)
        ensures
            final(self).elements() == old(self).elements(),
            old(self).consumed() < old(self).elements().len() ==> {
                &&& item == Some(&old(self).elements()[old(self).consumed() as int])
                &&& final(self).consumed() == old(self).consumed() + 1
            },
            old(self).consumed() >= old(self).elements().len() ==> {
                &&& item is None
                &&& final(self).consumed() == old(self).consumed()
            },
    {
        proof {
            use_type_invariant(&*self);
        }
        if self.count == self.buffer.len() {
            None
        } else {
            proof {
                let cap = CAP as int;
                let head = self.buffer@.head as int;
                lemma_ring_slot(cap, head, self.count as int);
                lemma_ring_slot(cap, head, self.count + 1);
                lemma_ring_slot_offset(cap, head, self.count as int);
                lemma_ring_step(cap, self.index as int);
            }
            let current = self.buffer.slot(self.index);
            let index = self.buffer.next_index(self.index);
            *self = RingBuffIter { buffer: self.buffer, index, count: self.count + 1 };
            current
        }
    }
}

impl<'a, T, const CAP: usize> IteratorSpecImpl for RingBuffIter<'a, T, CAP> {
    open spec fn obeys_prophetic_iter_laws(&self) -> bool {
        true
    }

    open spec fn remaining(&self) -> Seq<Self::Item> {
        self.elements().skip(self.consumed() as int).as_ref()
    }

    open spec fn will_return_none(&self) -> bool {
        true
    }

    open spec fn decrease(&self) -> Option<nat> {
        Some((self.elements().len() - self.consumed()) as nat)
    }

    open spec fn initial_value_relation(&self, init: &Self) -> bool {
        &&& self.elements() == init.elements()
        &&& self.consumed() == init.consumed()
    }

    open spec fn peek(&self, index: int) -> Option<Self::Item> {
        if 0 <= index && self.consumed() + index < self.elements().len() {
            Some(&self.elements()[self.consumed() + index])
        } else {
            None
        }
    }
}

} // verus!
