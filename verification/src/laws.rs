//! What holds of every buffer, proved about the model that the operations
//! are specified against.

use vstd::prelude::*;
use vstd::arithmetic::div_mod::lemma_add_mod_noop;
use crate::index::{lemma_mod_one_lap, lemma_ring_slot, lemma_ring_step, ring_next, ring_slot};
use crate::state::{lemma_kept_len, lemma_kept_nothing, lemma_kept_whole, RingState};

verus! {

/// The last `capacity` entries of `elements`, or all of them if there are
/// fewer.
pub open spec fn newest<T>(elements: Seq<T>, capacity: nat) -> Seq<T> {
    if elements.len() <= capacity {
        elements
    } else {
        elements.skip(elements.len() - capacity)
    }
}

/// Every operation leaves a valid state valid and the capacity as it was.
pub proof fn lemma_operations_keep_validity<T>(
    state: RingState<T>,
    element: T,
    values: Seq<T>,
    keeps: Seq<bool>,
)
    requires
        state.wf(),
        values.len() == state.len(),
        keeps.len() == state.len(),
    ensures
        state.push_back(element).wf(),
        state.pop().wf(),
        state.clear().wf(),
        state.retain(values, keeps).wf(),
        state.push_back(element).capacity == state.capacity,
        state.pop().capacity == state.capacity,
        state.clear().capacity == state.capacity,
        state.retain(values, keeps).capacity == state.capacity,
{
    lemma_ring_step(state.capacity as int, state.head as int);
    lemma_ring_slot(state.capacity as int, state.head as int, state.len() as int);
    lemma_kept_len(values, keeps);
}

/// The write cursor follows the cursors' rules: a push moves it one slot
/// forward, a pop leaves it where it is.
pub proof fn lemma_tail_moves_on_push_only<T>(state: RingState<T>, element: T)
    requires
        state.wf(),
    ensures
        state.push_back(element).tail() == ring_next(state.capacity as int, state.tail() as int),
        state.pop().tail() == state.tail(),
        state.is_full() ==> state.tail() == state.head,
{
    let cap = state.capacity as int;
    let head = state.head as int;
    let len = state.len() as int;
    lemma_ring_step(cap, head);
    lemma_ring_slot(cap, head, len);
    lemma_ring_step(cap, state.tail() as int);
    if state.is_full() {
        lemma_ring_slot(cap, ring_next(cap, head), len);
    } else {
        lemma_ring_slot(cap, head, len + 1);
    }
    if !state.is_empty() {
        lemma_ring_slot(cap, ring_next(cap, head), len - 1);
    }
}

/// An element pushed into an empty buffer is what the next pop returns, and
/// that pop leaves the buffer empty. This holds for every capacity, and in
/// particular right after construction.
pub proof fn lemma_push_then_pop<T>(state: RingState<T>, element: T)
    requires
        state.wf(),
        state.is_empty(),
    ensures
        state.push_back(element).front() == Some(element),
        state.push_back(element).pop().is_empty(),
        state.push_back(element).pop().wf(),
{
    let pushed = state.push_back(element);
    lemma_ring_step(state.capacity as int, state.head as int);
    lemma_ring_step(state.capacity as int, pushed.head as int);
    assert(pushed.items.len() == 1);
    assert(pushed.items[0] == element);
}

/// After any run of pushes the buffer holds the newest elements that fit, in
/// the order in which they were pushed, and the read cursor has moved one
/// slot for each element that was evicted.
pub proof fn lemma_push_all<T>(state: RingState<T>, elements: Seq<T>)
    requires
        state.wf(),
    ensures
        state.push_all(elements).wf(),
        state.push_all(elements).capacity == state.capacity,
        state.push_all(elements).items == newest(state.items + elements, state.capacity),
        state.push_all(elements).head == ring_slot(
            state.capacity as int,
            state.head as int,
            (state.items + elements).len() - newest(state.items + elements, state.capacity).len(),
        ),
    decreases elements.len(),
{
    let cap = state.capacity as int;
    let head = state.head as int;
    if elements.len() == 0 {
        assert(state.items + elements =~= state.items);
        lemma_ring_slot(cap, head, 0);
    } else {
        let front = elements.drop_last();
        let last = elements.last();
        let before = state.push_all(front);
        lemma_push_all(state, front);
        assert(state.items + elements =~= (state.items + front).push(last));
        let evicted = (state.items + front).len() - before.items.len();
        lemma_add_mod_noop(head + evicted, 1, cap);
        lemma_add_mod_noop(before.head as int, 1, cap);
        lemma_mod_one_lap(cap, before.head as int);
        assert(before.push_back(last).items =~= newest(state.items + elements, state.capacity));
    }
}

/// Pushing no more elements than fit into a new buffer keeps them all:
/// the length is their number and they stand in the order of the pushes.
pub proof fn lemma_pushes_within_capacity<T>(capacity: nat, elements: Seq<T>)
    requires
        capacity >= 1,
        elements.len() <= capacity,
    ensures
        RingState::<T>::new(capacity).push_all(elements).items == elements,
        RingState::<T>::new(capacity).push_all(elements).len() == elements.len(),
        RingState::<T>::new(capacity).push_all(elements).head == 0,
{
    let fresh = RingState::<T>::new(capacity);
    lemma_push_all(fresh, elements);
    assert(fresh.items + elements =~= elements);
    lemma_ring_slot(capacity as int, 0, 0);
}

/// Pushing one element more than fits into a new buffer evicts the first:
/// the buffer stays full, and the next pop returns the element that was
/// pushed second.
pub proof fn lemma_overflow_evicts_oldest<T>(capacity: nat, elements: Seq<T>)
    requires
        capacity >= 1,
        elements.len() == capacity + 1,
    ensures
        RingState::<T>::new(capacity).push_all(elements).len() == capacity,
        RingState::<T>::new(capacity).push_all(elements).front() == Some(elements[1]),
        RingState::<T>::new(capacity).push_all(elements).items == elements.skip(1),
{
    let fresh = RingState::<T>::new(capacity);
    lemma_push_all(fresh, elements);
    assert(fresh.items + elements =~= elements);
}

/// A filtering pass that keeps every element leaves the elements as the
/// predicate left them, all of them and in their order. If the predicate
/// changed none, the buffer is exactly as it was: contents, order, length
/// and cursors.
pub proof fn lemma_retain_all<T>(state: RingState<T>, values: Seq<T>, keeps: Seq<bool>)
    requires
        values.len() == state.len(),
        keeps.len() == state.len(),
        forall|i: int| 0 <= i < keeps.len() ==> keeps[i],
    ensures
        state.retain(values, keeps).items == values,
        state.retain(values, keeps).len() == state.len(),
        state.retain(values, keeps).head == state.head,
        state.retain(values, keeps).tail() == state.tail(),
        values == state.items ==> state.retain(values, keeps) == state,
{
    lemma_kept_whole(values, keeps);
}

/// A filtering pass that keeps no element empties the buffer, as `clear`
/// does.
pub proof fn lemma_retain_none<T>(state: RingState<T>, values: Seq<T>, keeps: Seq<bool>)
    requires
        values.len() == state.len(),
        keeps.len() == state.len(),
        forall|i: int| 0 <= i < keeps.len() ==> !keeps[i],
    ensures
        state.retain(values, keeps).len() == 0,
        state.retain(values, keeps).is_empty(),
        state.retain(values, keeps).items == state.clear().items,
{
    lemma_kept_nothing(values, keeps);
}

/// Clearing a cleared buffer changes nothing.
pub proof fn lemma_clear_twice<T>(state: RingState<T>)
    requires
        state.wf(),
    ensures
        state.clear().clear() == state.clear(),
{
    let cap = state.capacity as int;
    lemma_ring_slot(cap, state.head as int, state.len() as int);
    lemma_ring_slot(cap, state.clear().head as int, 0);
}

} // verus!
