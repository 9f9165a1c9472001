//! The mathematical model of a ring buffer.

use vstd::prelude::*;
use crate::index::{ring_next, ring_offset, ring_slot};

verus! {

/// What a ring buffer is, apart from how it is stored: its capacity, the slot
/// of its oldest element, and its live elements from oldest to newest.
pub struct RingState<T> {
    /// Number of slots; fixed for the buffer's lifetime.
    pub capacity: nat,
    /// Slot of the oldest live element; where the next one will go if there
    /// is none.
    pub head: nat,
    /// The live elements, oldest first.
    pub items: Seq<T>,
}

impl<T> RingState<T> {
    /// The cursor is on the ring and the elements fit.
    pub open spec fn wf(self) -> bool {
        &&& self.capacity >= 1
        &&& self.head < self.capacity
        &&& self.items.len() <= self.capacity
    }

    /// The state right after construction.
    pub open spec fn new(capacity: nat) -> Self {
        RingState { capacity, head: 0, items: Seq::empty() }
    }

    pub open spec fn len(self) -> nat {
        self.items.len()
    }

    pub open spec fn is_empty(self) -> bool {
        self.items.len() == 0
    }

    pub open spec fn is_full(self) -> bool {
        self.items.len() == self.capacity
    }

    /// Slot that the next pushed element is written to.
    pub open spec fn tail(self) -> nat {
        ring_slot(self.capacity as int, self.head as int, self.items.len() as int) as nat
    }

    /// Slot of the live element at `offset`.
    pub open spec fn slot_of(self, offset: int) -> int {
        ring_slot(self.capacity as int, self.head as int, offset)
    }

    /// What slot `slot` of the backing store holds: a live element, or nothing.
    pub open spec fn slot(self, slot: int) -> Option<T> {
        let offset = ring_offset(self.capacity as int, self.head as int, slot);
        if 0 <= slot < self.capacity && offset < self.items.len() {
            Some(self.items[offset])
        } else {
            None
        }
    }

    /// The oldest element, if there is one.
    pub open spec fn front(self) -> Option<T> {
        if self.items.len() == 0 {
            None
        } else {
            Some(self.items[0])
        }
    }

    /// The live element at `offset`, if there is one.
    pub open spec fn get(self, offset: int) -> Option<T> {
        if 0 <= offset < self.items.len() {
            Some(self.items[offset])
        } else {
            None
        }
    }

    /// The state with the live element at `offset` replaced by `value`.
    pub open spec fn replace(self, offset: int, value: T) -> Self {
        RingState { items: self.items.update(offset, value), ..self }
    }

    /// The state after `element` is pushed: appended if there is room,
    /// otherwise the oldest element makes way for it.
    pub open spec fn push_back(self, element: T) -> Self {
        if self.is_full() {
            RingState {
                head: ring_next(self.capacity as int, self.head as int) as nat,
                items: self.items.drop_first().push(element),
                ..self
            }
        } else {
            RingState { items: self.items.push(element), ..self }
        }
    }

    /// The state after the oldest element is removed; an empty buffer stays
    /// as it is.
    pub open spec fn pop(self) -> Self {
        if self.is_empty() {
            self
        } else {
            RingState {
                head: ring_next(self.capacity as int, self.head as int) as nat,
                items: self.items.drop_first(),
                ..self
            }
        }
    }

    /// The state after every element is removed one by one from the front.
    pub open spec fn clear(self) -> Self {
        RingState { head: self.tail(), items: Seq::empty(), ..self }
    }

    /// The state after a filtering pass in which the element at offset `i`
    /// was left as `values[i]` and kept exactly if `keeps[i]`.
    pub open spec fn retain(self, values: Seq<T>, keeps: Seq<bool>) -> Self {
        RingState { items: kept(values, keeps), ..self }
    }

    /// The state after `elements` are pushed one after the other.
    pub open spec fn push_all(self, elements: Seq<T>) -> Self
        decreases elements.len(),
    {
        if elements.len() == 0 {
            self
        } else {
            self.push_all(elements.drop_last()).push_back(elements.last())
        }
    }
}

/// The entries of `values` at the positions where `keeps` is true, in the
/// order in which they stand in `values`.
pub open spec fn kept<T>(values: Seq<T>, keeps: Seq<bool>) -> Seq<T>
    recommends
        values.len() == keeps.len(),
    decreases values.len(),
{
    if values.len() == 0 || keeps.len() == 0 {
        Seq::empty()
    } else if keeps.last() {
        kept(values.drop_last(), keeps.drop_last()).push(values.last())
    } else {
        kept(values.drop_last(), keeps.drop_last())
    }
}

/// Appending one entry to both sequences appends it to the result exactly
/// if it is kept.
pub proof fn lemma_kept_push<T>(values: Seq<T>, keeps: Seq<bool>, value: T, keep: bool)
    requires
        values.len() == keeps.len(),
    ensures
        kept(values.push(value), keeps.push(keep)) == if keep {
            kept(values, keeps).push(value)
        } else {
            kept(values, keeps)
        },
{
    assert(values.push(value).drop_last() =~= values);
    assert(keeps.push(keep).drop_last() =~= keeps);
}

/// The kept entries are never more than the entries.
pub proof fn lemma_kept_len<T>(values: Seq<T>, keeps: Seq<bool>)
    requires
        values.len() == keeps.len(),
    ensures
        kept(values, keeps).len() <= values.len(),
    decreases values.len(),
{
    if values.len() > 0 {
        lemma_kept_len(values.drop_last(), keeps.drop_last());
    }
}

/// Where every entry is kept, the result is the whole sequence.
pub proof fn lemma_kept_whole<T>(values: Seq<T>, keeps: Seq<bool>)
    requires
        values.len() == keeps.len(),
        forall|i: int| 0 <= i < keeps.len() ==> keeps[i],
    ensures
        kept(values, keeps) == values,
    decreases values.len(),
{
    if values.len() > 0 {
        lemma_kept_whole(values.drop_last(), keeps.drop_last());
        assert(values.drop_last().push(values.last()) =~= values);
    } else {
        assert(values =~= Seq::<T>::empty());
    }
}

/// Where no entry is kept, the result is empty.
pub proof fn lemma_kept_nothing<T>(values: Seq<T>, keeps: Seq<bool>)
    requires
        values.len() == keeps.len(),
        forall|i: int| 0 <= i < keeps.len() ==> !keeps[i],
    ensures
        kept(values, keeps) == Seq::<T>::empty(),
    decreases values.len(),
{
    if values.len() > 0 {
        lemma_kept_nothing(values.drop_last(), keeps.drop_last());
    }
}

/// The kept entries are exactly the entries marked to be kept, in the order
/// in which they stood before. The result names, for each kept entry, the
/// position that it came from; these positions increase.
pub proof fn lemma_kept_in_order<T>(values: Seq<T>, keeps: Seq<bool>) -> (origins: Seq<int>)
    requires
        values.len() == keeps.len(),
    ensures
        origins.len() == kept(values, keeps).len(),
        forall|k: int|
            0 <= k < origins.len() ==> 0 <= #[trigger] origins[k] < values.len() && keeps[origins[k]]
                && kept(values, keeps)[k] == values[origins[k]],
        forall|j: int, k: int| 0 <= j < k < origins.len() ==> origins[j] < origins[k],
        forall|i: int|
            0 <= i < values.len() && keeps[i] ==> exists|k: int|
                0 <= k < origins.len() && origins[k] == i,
    decreases values.len(),
{
    if values.len() == 0 {
        Seq::empty()
    } else {
        let front = lemma_kept_in_order(values.drop_last(), keeps.drop_last());
        let last = values.len() - 1;
        if keeps.last() {
            let origins = front.push(last);
            assert forall|i: int| 0 <= i < values.len() && keeps[i] implies exists|k: int|
                0 <= k < origins.len() && origins[k] == i by {
                if i < last {
                    assert(keeps.drop_last()[i]);
                    let k = choose|k: int| 0 <= k < front.len() && front[k] == i;
                    assert(origins[k] == i);
                } else {
                    assert(origins[front.len() as int] == i);
                }
            }
            origins
        } else {
            assert forall|i: int| 0 <= i < values.len() && keeps[i] implies exists|k: int|
                0 <= k < front.len() && front[k] == i by {
                assert(keeps.drop_last()[i]);
            }
            front
        }
    }
}

} // verus!
