//! Index arithmetic on a ring of `capacity` slots.
//!
//! A *slot* is a position in the backing array; an *offset* is a position
//! among the live elements, counted from the oldest. Everything here is
//! ghost code; the contracts of the buffer's executable index functions are
//! written with these definitions.

use vstd::prelude::*;
use vstd::arithmetic::div_mod::lemma_fundamental_div_mod_converse_mod;

verus! {

/// The slot that follows `slot`, wrapping from the last slot to the first.
pub open spec fn ring_next(capacity: int, slot: int) -> int {
    (slot + 1) % capacity
}

/// The slot that precedes `slot`, wrapping from the first slot to the last.
pub open spec fn ring_previous(capacity: int, slot: int) -> int {
    (slot - 1 + capacity) % capacity
}

/// The slot that lies `offset` steps after `head`.
pub open spec fn ring_slot(capacity: int, head: int, offset: int) -> int {
    (head + offset) % capacity
}

/// The number of steps from `head` forward to `slot`.
pub open spec fn ring_offset(capacity: int, head: int, slot: int) -> int {
    (slot - head) % capacity
}

/// A value less than one lap away from the range `0..capacity` is reduced by
/// adding or removing that one lap.
pub proof fn lemma_mod_one_lap(capacity: int, x: int)
    requires
        capacity > 0,
        -capacity <= x < 2 * capacity,
    ensures
        x % capacity == if x < 0 {
            x + capacity
        } else if x < capacity {
            x
        } else {
            x - capacity
        },
{
    if x < 0 {
        lemma_fundamental_div_mod_converse_mod(x, capacity, -1, x + capacity);
    } else if x < capacity {
        lemma_fundamental_div_mod_converse_mod(x, capacity, 0, x);
    } else {
        lemma_fundamental_div_mod_converse_mod(x, capacity, 1, x - capacity);
    }
}

/// `ring_slot` without the division: one conditional subtraction.
pub proof fn lemma_ring_slot(capacity: int, head: int, offset: int)
    requires
        0 <= head < capacity,
        0 <= offset <= capacity,
    ensures
        0 <= ring_slot(capacity, head, offset) < capacity,
        ring_slot(capacity, head, offset) == if head + offset < capacity {
            head + offset
        } else {
            head + offset - capacity
        },
{
    lemma_mod_one_lap(capacity, head + offset);
}

/// `ring_offset` without the division: one conditional addition.
pub proof fn lemma_ring_offset(capacity: int, head: int, slot: int)
    requires
        0 <= head < capacity,
        0 <= slot < capacity,
    ensures
        0 <= ring_offset(capacity, head, slot) < capacity,
        ring_offset(capacity, head, slot) == if slot >= head {
            slot - head
        } else {
            slot - head + capacity
        },
{
    lemma_mod_one_lap(capacity, slot - head);
}

/// `ring_next` and `ring_previous` stay on the ring and wrap at its ends.
pub proof fn lemma_ring_step(capacity: int, slot: int)
    requires
        0 <= slot < capacity,
    ensures
        0 <= ring_next(capacity, slot) < capacity,
        0 <= ring_previous(capacity, slot) < capacity,
        ring_next(capacity, slot) == if slot == capacity - 1 {
            0
        } else {
            slot + 1
        },
        ring_previous(capacity, slot) == if slot == 0 {
            capacity - 1
        } else {
            slot - 1
        },
{
    lemma_mod_one_lap(capacity, slot + 1);
    lemma_mod_one_lap(capacity, slot - 1 + capacity);
}

/// Stepping forward and stepping back undo each other.
pub proof fn lemma_ring_next_previous(capacity: int, slot: int)
    requires
        0 <= slot < capacity,
    ensures
        ring_previous(capacity, ring_next(capacity, slot)) == slot,
        ring_next(capacity, ring_previous(capacity, slot)) == slot,
{
    lemma_ring_step(capacity, slot);
    lemma_ring_step(capacity, ring_next(capacity, slot));
    lemma_ring_step(capacity, ring_previous(capacity, slot));
}

/// Offsets and slots correspond one to one: each of the `capacity` offsets
/// from `head` names its own slot, and `ring_offset` finds the offset again.
pub proof fn lemma_ring_slot_offset(capacity: int, head: int, offset: int)
    requires
        0 <= head < capacity,
        0 <= offset < capacity,
    ensures
        ring_offset(capacity, head, ring_slot(capacity, head, offset)) == offset,
        ring_slot(capacity, head, ring_offset(capacity, head, offset)) == offset,
{
    lemma_ring_slot(capacity, head, offset);
    lemma_ring_offset(capacity, head, ring_slot(capacity, head, offset));
    lemma_ring_offset(capacity, head, offset);
    lemma_ring_slot(capacity, head, ring_offset(capacity, head, offset));
}

/// Moving the head one slot forward shifts every offset down by one.
pub proof fn lemma_ring_slot_shift(capacity: int, head: int, offset: int)
    requires
        0 <= head < capacity,
        0 <= offset < capacity,
    ensures
        ring_slot(capacity, ring_next(capacity, head), offset) == ring_slot(
            capacity,
            head,
            offset + 1,
        ),
{
    lemma_ring_step(capacity, head);
    lemma_ring_slot(capacity, ring_next(capacity, head), offset);
    lemma_ring_slot(capacity, head, offset + 1);
}

} // verus!
