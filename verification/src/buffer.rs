//! The buffer engine: storage, cursors and the operations on them.

use vstd::prelude::*;
use vstd::arithmetic::div_mod::lemma_add_mod_noop;
use crate::error::RingBuffError;
use crate::index::{
    lemma_mod_one_lap, lemma_ring_offset, lemma_ring_slot, lemma_ring_slot_offset,
    lemma_ring_slot_shift, lemma_ring_step, ring_next, ring_offset, ring_previous, ring_slot,
};
use crate::iter::RingBuffIter;
use crate::state::{
    kept, lemma_kept_len, lemma_kept_nothing, lemma_kept_push, lemma_kept_whole, RingState,
};

verus! {

/// A first-in first-out queue of at most `CAP` elements in a fixed array.
///
/// Pushing into a full buffer evicts the oldest element.
#[derive(Debug)]
pub struct RingBuff<T, const CAP: usize> {
    /// The slots; a slot holds a live element or nothing.
    data: [Option<T>; CAP],
    /// Slot of the oldest live element.
    reader: usize,
    /// Slot that the next pushed element is written to.
    writer: usize,
    /// Number of live elements.
    size: usize,
}

impl<T, const CAP: usize> View for RingBuff<T, CAP> {
    type V = RingState<T>;

    closed spec fn view(&self) -> RingState<T> {
        RingState {
            capacity: CAP as nat,
            head: self.reader as nat,
            items: Seq::new(self.size as nat, |i: int| self.window()[i]->0),
        }
    }
}

/// The contents of the occupied entries of `slots`, in order.
spec fn occupied<T>(slots: Seq<Option<T>>) -> Seq<T>
    decreases slots.len(),
{
    if slots.len() == 0 {
        Seq::empty()
    } else if slots.last() is Some {
        occupied(slots.drop_last()).push(slots.last()->0)
    } else {
        occupied(slots.drop_last())
    }
}

/// `slots` with the occupied entries among its first `span` moved to the
/// front of those `span`, in order, and the gaps behind them.
spec fn settled<T>(slots: Seq<Option<T>>, span: int) -> Seq<Option<T>> {
    let live = occupied(slots.take(span));
    Seq::new(
        slots.len(),
        |i: int|
            if i >= span {
                slots[i]
            } else if i < live.len() {
                Some(live[i])
            } else {
                None
            },
    )
}

/// There are no more occupied entries than entries.
proof fn lemma_occupied_len<T>(slots: Seq<Option<T>>)
    ensures
        occupied(slots).len() <= slots.len(),
    decreases slots.len(),
{
    if slots.len() > 0 {
        lemma_occupied_len(slots.drop_last());
    }
}

/// Extending `slots` by one entry extends its occupied entries by that
/// entry's content, if it has one.
proof fn lemma_occupied_push<T>(slots: Seq<Option<T>>, slot: Option<T>)
    ensures
        occupied(slots.push(slot)) == if slot is Some {
            occupied(slots).push(slot->0)
        } else {
            occupied(slots)
        },
{
    assert(slots.push(slot).drop_last() =~= slots);
}

impl<T, const CAP: usize> RingBuff<T, CAP> {
    /// The contents of all slots in ring order, starting at the read cursor.
    closed spec fn window(&self) -> Seq<Option<T>> {
        Seq::new(
            CAP as nat,
            |i: int| self.data@[ring_slot(CAP as int, self.reader as int, i)],
        )
    }

    /// The storage agrees with the cursors: the write cursor follows the last
    /// live element, the `size` slots from the read cursor on are occupied,
    /// and all others are vacant.
    pub closed spec fn layout_ok(&self) -> bool {
        &&& self.reader < CAP
        &&& self.size <= CAP
        &&& self.writer == ring_slot(CAP as int, self.reader as int, self.size as int)
        &&& forall|i: int| 0 <= i < CAP ==> ((#[trigger] self.window()[i]) is Some <==> i < self.size)
    }

    /// The buffer is in a valid state. Construction establishes this and every
    /// operation preserves it.
    pub open spec fn wf(&self) -> bool {
        &&& self.layout_ok()
        &&& self@.wf()
        &&& self@.capacity == CAP
    }

    /// Storing into the slot at `offset` changes that entry of the window and
    /// no other.
    proof fn lemma_window_store(before: Self, after: Self, offset: int, held: Option<T>)
        requires
            before.reader < CAP,
            after.reader == before.reader,
            0 <= offset < CAP,
            after.data@ == before.data@.update(
                ring_slot(CAP as int, before.reader as int, offset),
                held,
            ),
        ensures
            after.window() == before.window().update(offset, held),
    {
        let cap = CAP as int;
        let head = before.reader as int;
        lemma_ring_slot(cap, head, offset);
        assert forall|i: int| 0 <= i < CAP implies after.window()[i] == before.window().update(
            offset,
            held,
        )[i] by {
            lemma_ring_slot(cap, head, i);
        }
        assert(after.window() =~= before.window().update(offset, held));
    }

    /// Moving the read cursor one slot forward turns the window by one entry.
    proof fn lemma_window_advance(before: Self, after: Self)
        requires
            before.reader < CAP,
            after.reader == ring_next(CAP as int, before.reader as int),
            after.data@ == before.data@,
        ensures
            after.window() == before.window().drop_first().push(before.window()[0]),
    {
        let cap = CAP as int;
        let head = before.reader as int;
        let turned = before.window().drop_first().push(before.window()[0]);
        lemma_ring_slot(cap, head, 0);
        assert forall|i: int| 0 <= i < CAP implies after.window()[i] == turned[i] by {
            lemma_ring_slot_shift(cap, head, i);
            lemma_ring_slot(cap, head, i + 1);
        }
        assert(after.window() =~= turned);
    }

    /// Makes an empty buffer of `CAP` slots; `CAP` must be at least one.
    pub fn new() -> (made: Result<Self, RingBuffError>) where T: Copy
        ensures
            match made {
                Ok(buffer) => CAP >= 1 && buffer.wf() && buffer@ == RingState::<T>::new(CAP as nat),
                Err(error) => CAP == 0 && error == RingBuffError::InvalidCapacity,
            },
    {
        if CAP == 0 {
            return Err(RingBuffError::InvalidCapacity);
        }
        let buffer = RingBuff { data: [None; CAP], reader: 0, writer: 0, size: 0 };
        proof {
            lemma_ring_slot(CAP as int, 0, 0);
            assert forall|i: int| 0 <= i < CAP implies (#[trigger] buffer.window()[i]) is None by {
                lemma_ring_slot(CAP as int, 0, i);
            }
            assert(buffer@.items =~= Seq::<T>::empty());
        }
        Ok(buffer)
    }

    /// Whether the buffer holds no element.
    pub fn is_empty(&self) -> (empty: bool)
        ensures
            empty == self@.is_empty(),
    {
        self.size == 0
    }

    /// Whether the next push will evict the oldest element.
    pub fn is_full(&self) -> (full: bool)
        ensures
            full == self@.is_full(),
    {
        self.size == CAP
    }

    /// Number of live elements.
    pub fn len(&self) -> (len: usize)
        ensures
            len == self@.len(),
    {
        self.size
    }

    /// Number of elements the buffer can hold.
    pub fn capacity(&self) -> (capacity: usize)
        ensures
            capacity == CAP,
            capacity == self@.capacity,
    {
        CAP
    }

    /// Slot of the oldest live element.
    pub fn reader(&self) -> (slot: usize)
        ensures
            slot == self@.head,
    {
        self.reader
    }

    /// Slot that the next pushed element is written to.
    pub fn writer(&self) -> (slot: usize)
        requires
            self.wf(),
        ensures
            slot == self@.tail(),
    {
        self.writer
    }

    /// The slot after `index`, wrapping at the end of the storage.
    pub fn next_index(&self, index: usize) -> (next: usize)
        requires
            CAP >= 1,
        ensures
            next == ring_next(CAP as int, index as int),
    {
        if index < CAP - 1 {
            proof {
                lemma_mod_one_lap(CAP as int, index + 1);
            }
            index + 1
        } else {
            let lap = index % CAP;
            proof {
                lemma_add_mod_noop(index as int, 1, CAP as int);
                lemma_mod_one_lap(CAP as int, 1);
                lemma_mod_one_lap(CAP as int, lap + 1);
            }
            if lap == CAP - 1 {
                0
            } else {
                lap + 1
            }
        }
    }

    /// The slot before `index`, wrapping at the start of the storage.
    pub fn previous_index(&self, index: usize) -> (previous: usize)
        requires
            CAP >= 1,
        ensures
            previous == ring_previous(CAP as int, index as int),
    {
        let lap = if index < CAP {
            index
        } else {
            index % CAP
        };
        proof {
            if index < CAP {
                lemma_mod_one_lap(CAP as int, index as int);
            }
            lemma_add_mod_noop(index as int, CAP - 1, CAP as int);
            lemma_mod_one_lap(CAP as int, CAP - 1);
            lemma_mod_one_lap(CAP as int, lap + CAP - 1);
        }
        if lap == 0 {
            CAP - 1
        } else {
            lap - 1
        }
    }

    /// The slot that lies `offset` steps after the read cursor.
    fn slot_at(&self, offset: usize) -> (slot: usize)
        requires
            self.reader < CAP,
            offset < CAP,
        ensures
            slot == ring_slot(CAP as int, self.reader as int, offset as int),
            slot < CAP,
    {
        proof {
            lemma_ring_slot(CAP as int, self.reader as int, offset as int);
        }
        let room = CAP - self.reader;
        if offset >= room {
            offset - room
        } else {
            self.reader + offset
        }
    }

    /// The slot of the live element at offset `index` from the oldest, or
    /// nothing if there is no such element.
    pub fn relative_to_absolute_index(&self, index: usize) -> (slot: Option<usize>)
        requires
            self.wf(),
        ensures
            match slot {
                Some(position) => index < self@.len() && position == self@.slot_of(index as int),
                None => index >= self@.len(),
            },
    {
        if index >= self.len() {
            None
        } else {
            Some(self.slot_at(index))
        }
    }

    /// Appends `element` as the newest. A full buffer first drops its oldest
    /// element, so the push always succeeds.
    pub fn push_back(&mut self, element: T)
        requires
            old(self).wf(),
        ensures
            final(self).wf(),
            final(self)@ == old(self)@.push_back(element),
    {
        let ghost cap = CAP as int;
        let ghost before = *self;
        proof {
            lemma_ring_step(cap, self.reader as int);
            lemma_ring_step(cap, self.writer as int);
            lemma_ring_slot(cap, self.reader as int, self.size as int);
        }
        if self.is_full() {
            self.reader = self.next_index(self.reader);
        }
        let ghost turned = *self;
        let ghost target = if before.size == CAP {
            CAP - 1
        } else {
            before.size as int
        };
        proof {
            if before.size == CAP {
                Self::lemma_window_advance(before, turned);
            }
            lemma_ring_slot(cap, self.reader as int, target);
        }
        self.data[self.writer] = Some(element);
        if !self.is_full() {
            self.size += 1;
        }
        self.writer = self.next_index(self.writer);
        proof {
            Self::lemma_window_store(turned, *self, target, Some(element));
            lemma_ring_slot(cap, self.reader as int, self.size as int);
            assert forall|i: int| 0 <= i < CAP implies ((#[trigger] self.window()[i]) is Some <==> i
                < self.size) by {
                if before.size == CAP && i < CAP - 1 {
                    assert(before.window()[i + 1] is Some);
                } else {
                    assert(before.window()[i] is Some <==> i < before.size);
                }
            }
            assert(self@.items =~= before@.push_back(element).items);
        }
    }

    /// Removes the oldest element and returns it; on an empty buffer returns
    /// nothing and changes nothing.
    pub fn pop(&mut self) -> (popped: Option<T>)
        requires
            old(self).wf(),
        ensures
            final(self).wf(),
            popped == old(self)@.front(),
            final(self)@ == old(self)@.pop(),
            old(self)@.is_empty() ==> *final(self) == *old(self),
    {
        if self.is_empty() {
            return None;
        }
        let ghost cap = CAP as int;
        let ghost before = *self;
        proof {
            lemma_ring_step(cap, self.reader as int);
            lemma_ring_slot(cap, self.reader as int, 0);
            lemma_ring_slot(cap, self.reader as int, self.size as int);
            assert(self.window()[0] is Some);
        }
        let reader = self.reader;
        let popped = self.data[reader].take();
        let ghost vacated = *self;
        self.reader = self.next_index(self.reader);
        self.size -= 1;
        proof {
            Self::lemma_window_store(before, vacated, 0, None);
            Self::lemma_window_advance(vacated, *self);
            lemma_ring_slot(cap, self.reader as int, self.size as int);
            assert forall|i: int| 0 <= i < CAP implies ((#[trigger] self.window()[i]) is Some <==> i
                < self.size) by {
                if i < CAP - 1 {
                    assert(before.window()[i + 1] is Some <==> i + 1 < before.size);
                }
            }
            assert(self@.items =~= before@.items.drop_first());
        }
        popped
    }

    /// The oldest element, left in place.
    pub fn peek(&self) -> (oldest: Option<&T>)
        requires
            self.wf(),
        ensures
            oldest == match self@.front() {
                Some(element) => Some(&element),
                None => None,
            },
    {
        if self.is_empty() {
            None
        } else {
            proof {
                lemma_ring_slot(CAP as int, self.reader as int, 0);
                assert(self.window()[0] is Some);
            }
            self.data[self.reader].as_ref()
        }
    }

    /// The live element at offset `index` from the oldest, or nothing if
    /// `index` is not below `len()`.
    pub fn get(&self, index: usize) -> (found: Option<&T>)
        requires
            self.wf(),
        ensures
            found == match self@.get(index as int) {
                Some(element) => Some(&element),
                None => None,
            },
    {
        match self.relative_to_absolute_index(index) {
            None => None,
            Some(slot) => {
                proof {
                    assert(self.window()[index as int] is Some);
                }
                self.data[slot].as_ref()
            },
        }
    }

    /// The live element at offset `index` from the oldest, for changing in
    /// place, or nothing if `index` is not below `len()`. Whatever is stored
    /// through the reference takes the element's place; nothing else moves.
    pub fn get_mut(&mut self, index: usize) -> (found: Option<&mut T>)
        requires
            old(self).wf(),
        ensures
            final(self).wf(),
            match found {
                Some(element) => {
                    &&& index < old(self)@.len()
                    &&& *element == old(self)@.items[index as int]
                    &&& final(self)@ == old(self)@.replace(index as int, *final(element))
                },
                None => index >= old(self)@.len() && *final(self) == *old(self),
            },
    {
        match self.relative_to_absolute_index(index) {
            None => None,
            Some(slot) => {
                proof {
                    assert(self.window()[index as int] is Some);
                }
                let found = self.data[slot].as_mut();
                proof {
                    let stored = Some(*final(found->0));
                    Self::lemma_window_store(*old(self), after_borrow(*self), index as int, stored);
                    assert forall|i: int| 0 <= i < CAP implies ((#[trigger] after_borrow(
                        *self,
                    ).window()[i]) is Some <==> i < old(self).size) by {
                        assert(old(self).window()[i] is Some <==> i < old(self).size);
                    }
                    assert(after_borrow(*self)@.items =~= old(self)@.items.update(
                        index as int,
                        *final(found->0),
                    ));
                }
                found
            },
        }
    }

    /// What the storage holds at `position`: `Some` for a slot with a live
    /// element, nothing for a vacant slot or a position past the storage.
    pub fn slot(&self, position: usize) -> (held: Option<&T>)
        requires
            self.wf(),
        ensures
            held == match self@.slot(position as int) {
                Some(element) => Some(&element),
                None => None,
            },
    {
        if position < CAP {
            proof {
                let offset = ring_offset(CAP as int, self.reader as int, position as int);
                lemma_ring_offset(CAP as int, self.reader as int, position as int);
                lemma_ring_slot_offset(CAP as int, self.reader as int, position as int);
                assert(self.window()[offset] is Some <==> offset < self.size);
            }
            self.data[position].as_ref()
        } else {
            None
        }
    }

    /// Removes every element, oldest first. The cursors end where the write
    /// cursor was.
    pub fn clear(&mut self)
        requires
            old(self).wf(),
        ensures
            final(self).wf(),
            final(self)@ == old(self)@.clear(),
    {
        let count = self.size;
        let mut done: usize = 0;
        proof {
            lemma_ring_slot(CAP as int, self@.head as int, 0);
        }
        while done < count
            invariant
                self.wf(),
                done <= count,
                count == old(self)@.len(),
                old(self)@.wf(),
                self@.capacity == old(self)@.capacity,
                self@.head == old(self)@.slot_of(done as int),
                self@.items == old(self)@.items.skip(done as int),
            decreases count - done,
        {
            proof {
                lemma_ring_slot(CAP as int, old(self)@.head as int, done as int);
                lemma_ring_slot(CAP as int, old(self)@.head as int, done + 1);
                lemma_ring_step(CAP as int, self@.head as int);
                assert(old(self)@.items.skip(done as int).drop_first() =~= old(self)@.items.skip(
                    done + 1,
                ));
            }
            self.pop();
            done += 1;
        }
        proof {
            lemma_ring_slot(CAP as int, old(self)@.head as int, count as int);
            assert(self@.items =~= Seq::<T>::empty());
        }
    }

    /// Second phase of a filtering pass. Walks the first `span` offsets from
    /// the read cursor and moves the content of each occupied slot into the
    /// first vacant slot before it, so that the occupied slots end up side by
    /// side at the front, in their order, with all gaps behind them.
    fn compact(&mut self, span: usize)
        requires
            old(self).reader < CAP,
            span <= CAP,
        ensures
            final(self).reader == old(self).reader,
            final(self).writer == old(self).writer,
            final(self).size == old(self).size,
            final(self).window() == settled(old(self).window(), span as int),
    {
        let ghost start = self.window();
        let mut filled: usize = 0;
        let mut scan: usize = 0;
        proof {
            assert(start.take(0) =~= Seq::<Option<T>>::empty());
        }
        while scan < span
            invariant
                filled <= scan <= span <= CAP,
                self.reader == old(self).reader < CAP,
                self.writer == old(self).writer,
                self.size == old(self).size,
                start == old(self).window(),
                start.len() == CAP,
                occupied(start.take(scan as int)).len() == filled,
                forall|i: int|
                    0 <= i < filled ==> #[trigger] self.window()[i] == Some(
                        occupied(start.take(scan as int))[i],
                    ),
                forall|i: int| filled <= i < scan ==> (#[trigger] self.window()[i]) is None,
                forall|i: int| scan <= i < CAP ==> #[trigger] self.window()[i] == start[i],
            decreases span - scan,
        {
            let from = self.slot_at(scan);
            proof {
                assert(start.take(scan + 1) =~= start.take(scan as int).push(start[scan as int]));
                lemma_occupied_push(start.take(scan as int), start[scan as int]);
                assert(self.window()[scan as int] == start[scan as int]);
            }
            if self.data[from].is_some() {
                if filled != scan {
                    let to = self.slot_at(filled);
                    let ghost found = *self;
                    let moved = self.data[from].take();
                    let ghost lifted = *self;
                    self.data[to] = moved;
                    proof {
                        Self::lemma_window_store(found, lifted, scan as int, None);
                        Self::lemma_window_store(lifted, *self, filled as int, moved);
                    }
                }
                filled += 1;
            }
            scan += 1;
        }
        proof {
            assert(self.window() =~= settled(start, span as int));
        }
    }

    /// Keeps the elements for which `f` returns true and removes the others;
    /// the survivors keep their order. `f` sees each live element once,
    /// oldest first, and cannot change it.
    pub fn retain<F>(&mut self, mut f: F) where F: FnMut(&T) -> bool
        requires
            old(self).wf(),
            forall|i: int|
                0 <= i < old(self)@.len() ==> call_requires(f, (&#[trigger] old(self)@.items[i],)),
        ensures
            final(self).wf(),
            exists|keeps: Seq<bool>|
                {
                    &&& keeps.len() == old(self)@.len()
                    &&& forall|i: int|
                        0 <= i < keeps.len() ==> call_ensures(
                            f,
                            (&old(self)@.items[i],),
                            #[trigger] keeps[i],
                        )
                    &&& final(self)@ == old(self)@.retain(old(self)@.items, keeps)
                },
            (forall|element: &T, keep: bool|
                old(self)@.items.contains(*element) && call_ensures(f, (element,), keep) ==> keep)
                ==> final(self)@ == old(self)@,
            (forall|element: &T, keep: bool|
                old(self)@.items.contains(*element) && call_ensures(f, (element,), keep) ==> !keep)
                ==> final(self)@.is_empty(),
    {
        let ghost cap = CAP as int;
        let ghost items = self@.items;
        let ghost judge = f;
        let ghost mut keeps: Seq<bool> = Seq::empty();
        let count = self.size;
        let mut size = count;
        let mut i: usize = 0;
        proof {
            assert(items.take(0) =~= Seq::<T>::empty());
            assert(self.window().take(0) =~= Seq::<Option<T>>::empty());
        }
        while i < count
            invariant
                i <= count <= CAP,
                count == old(self).size,
                self.reader == old(self).reader < CAP,
                self.size == old(self).size,
                items == old(self)@.items,
                items.len() == count,
                keeps.len() == i,
                f == judge,
                size == kept(items.take(i as int), keeps).len() + (count - i),
                self.writer == ring_slot(cap, self.reader as int, size as int),
                cap == CAP,
                occupied(self.window().take(i as int)) == kept(items.take(i as int), keeps),
                forall|k: int| 0 <= k < count ==> call_requires(f, (&#[trigger] items[k],)),
                forall|k: int| 0 <= k < i ==> call_ensures(f, (&items[k],), #[trigger] keeps[k]),
                forall|k: int| i <= k < count ==> #[trigger] self.window()[k] == Some(items[k]),
                forall|k: int| count <= k < CAP ==> (#[trigger] self.window()[k]) is None,
            decreases count - i,
        {
            let slot = self.slot_at(i);
            let ghost marked = self.window().take(i as int);
            proof {
                assert(self.window()[i as int] == Some(items[i as int]));
                lemma_kept_len(items.take(i as int), keeps);
            }
            let keep = match self.data[slot].as_ref() {
                Some(element) => f(element),
                None => false,
            };
            if !keep {
                let ghost judged = *self;
                self.data[slot] = None;
                proof {
                    Self::lemma_window_store(judged, *self, i as int, None);
                    lemma_ring_slot(cap, self.reader as int, size as int);
                    lemma_ring_slot(cap, self.reader as int, size - 1);
                    lemma_ring_step(cap, self.writer as int);
                }
                self.writer = self.previous_index(self.writer);
                size -= 1;
            }
            proof {
                lemma_kept_push(items.take(i as int), keeps, items[i as int], keep);
                lemma_occupied_push(marked, self.window()[i as int]);
                assert(self.window().take(i as int) =~= marked);
                assert(self.window().take(i + 1) =~= marked.push(self.window()[i as int]));
                assert(items.take(i + 1) =~= items.take(i as int).push(items[i as int]));
                keeps = keeps.push(keep);
            }
            i += 1;
        }
        let ghost sieved = *self;
        self.compact(count);
        self.size = size;
        proof {
            assert(items.take(count as int) =~= items);
            lemma_occupied_len(sieved.window().take(count as int));
            assert(self@.items =~= kept(items, keeps));
            assert forall|k: int| 0 <= k < count implies items.contains(#[trigger] items[k]) by {}
            if (forall|element: &T, keep: bool|
                items.contains(*element) && call_ensures(f, (element,), keep) ==> keep) {
                assert forall|k: int| 0 <= k < count implies keeps[k] by {
                    assert(items.contains(items[k]));
                }
                lemma_kept_whole(items, keeps);
            }
            if (forall|element: &T, keep: bool|
                items.contains(*element) && call_ensures(f, (element,), keep) ==> !keep) {
                assert forall|k: int| 0 <= k < count implies !keeps[k] by {
                    assert(items.contains(items[k]));
                }
                lemma_kept_nothing(items, keeps);
            }
        }
    }

    /// Keeps the elements for which `f` returns true and removes the others;
    /// the survivors keep their order. `f` sees each live element once,
    /// oldest first, and may change it before deciding.
    pub fn retain_mut<F>(&mut self, mut f: F) where F: FnMut(&mut T) -> bool
        requires
            old(self).wf(),
            forall|i: int, element: &mut T|
                0 <= i < old(self)@.len() && *element == old(self)@.items[i] ==> call_requires(
                    f,
                    (element,),
                ),
        ensures
            final(self).wf(),
            exists|calls: Seq<&mut T>, keeps: Seq<bool>|
                {
                    &&& calls.len() == old(self)@.len()
                    &&& keeps.len() == old(self)@.len()
                    &&& forall|i: int|
                        0 <= i < calls.len() ==> *(#[trigger] calls[i]) == old(self)@.items[i]
                            && call_ensures(f, (calls[i],), keeps[i])
                    &&& final(self)@ == old(self)@.retain(
                        Seq::new(calls.len(), |i: int| *final(calls[i])),
                        keeps,
                    )
                },
            (forall|element: &mut T, keep: bool|
                old(self)@.items.contains(*element) && call_ensures(f, (element,), keep) ==> keep)
                ==> final(self)@.len() == old(self)@.len(),
            (forall|element: &mut T, keep: bool|
                old(self)@.items.contains(*element) && call_ensures(f, (element,), keep) ==> keep
                    && *final(element) == *element) ==> final(self)@ == old(self)@,
            (forall|element: &mut T, keep: bool|
                old(self)@.items.contains(*element) && call_ensures(f, (element,), keep) ==> !keep)
                ==> final(self)@.is_empty(),
    {
        let ghost cap = CAP as int;
        let ghost items = self@.items;
        let ghost judge = f;
        let ghost mut values: Seq<T> = Seq::empty();
        let ghost mut keeps: Seq<bool> = Seq::empty();
        let count = self.size;
        let mut size = count;
        let mut i: usize = 0;
        proof {
            assert(self.window().take(0) =~= Seq::<Option<T>>::empty());
            assert(Seq::<&mut T>::empty().len() == 0);
        }
        while i < count
            invariant
                i <= count <= CAP,
                count == old(self).size,
                self.reader == old(self).reader < CAP,
                self.size == old(self).size,
                items == old(self)@.items,
                items.len() == count,
                values.len() == i,
                keeps.len() == i,
                f == judge,
                size == kept(values, keeps).len() + (count - i),
                self.writer == ring_slot(cap, self.reader as int, size as int),
                cap == CAP,
                occupied(self.window().take(i as int)) == kept(values, keeps),
                forall|k: int, element: &mut T|
                    0 <= k < count && *element == items[k] ==> call_requires(f, (element,)),
                exists|calls: Seq<&mut T>|
                    {
                        &&& calls.len() == i
                        &&& forall|k: int|
                            0 <= k < i ==> *(#[trigger] calls[k]) == items[k] && *final(calls[k])
                                == values[k] && call_ensures(f, (calls[k],), keeps[k])
                    },
                forall|k: int| i <= k < count ==> #[trigger] self.window()[k] == Some(items[k]),
                forall|k: int| count <= k < CAP ==> (#[trigger] self.window()[k]) is None,
            decreases count - i,
        {
            let slot = self.slot_at(i);
            let ghost marked = self.window().take(i as int);
            let ghost met = *self;
            proof {
                assert(self.window()[i as int] == Some(items[i as int]));
            }
            let keep = match self.data[slot].as_mut() {
                Some(element) => f(element),
                None => false,
            };
            let ghost left = self.data@[slot as int]->0;
            proof {
                let earlier = choose|calls: Seq<&mut T>|
                    {
                        &&& calls.len() == i
                        &&& forall|k: int|
                            0 <= k < i ==> *(#[trigger] calls[k]) == items[k] && *final(calls[k])
                                == values[k] && call_ensures(f, (calls[k],), keeps[k])
                    };
                let call = choose|call: &mut T|
                    *call == items[i as int] && *final(call) == left && #[trigger] call_ensures(
                        f,
                        (call,),
                        keep,
                    );
                let calls = earlier.push(call);
                assert(calls.len() == i + 1);
                assert forall|k: int| 0 <= k < i + 1 implies *(#[trigger] calls[k]) == items[k]
                    && *final(calls[k]) == values.push(left)[k] && call_ensures(
                    f,
                    (calls[k],),
                    keeps.push(keep)[k],
                ) by {
                    if k < i {
                        assert(calls[k] == earlier[k]);
                    }
                }
                Self::lemma_window_store(met, *self, i as int, Some(left));
                lemma_kept_push(values, keeps, left, keep);
                lemma_kept_len(values, keeps);
            }
            if !keep {
                let ghost judged = *self;
                self.data[slot] = None;
                proof {
                    Self::lemma_window_store(judged, *self, i as int, None);
                    lemma_ring_slot(cap, self.reader as int, size as int);
                    lemma_ring_slot(cap, self.reader as int, size - 1);
                    lemma_ring_step(cap, self.writer as int);
                }
                self.writer = self.previous_index(self.writer);
                size -= 1;
            }
            proof {
                lemma_occupied_push(marked, self.window()[i as int]);
                assert(self.window().take(i as int) =~= marked);
                assert(self.window().take(i + 1) =~= marked.push(self.window()[i as int]));
                values = values.push(left);
                keeps = keeps.push(keep);
            }
            i += 1;
        }
        let ghost sieved = *self;
        self.compact(count);
        self.size = size;
        proof {
            lemma_occupied_len(sieved.window().take(count as int));
            assert(self@.items =~= kept(values, keeps));
            let calls = choose|calls: Seq<&mut T>|
                {
                    &&& calls.len() == count
                    &&& forall|k: int|
                        0 <= k < count ==> *(#[trigger] calls[k]) == items[k] && *final(calls[k])
                            == values[k] && call_ensures(f, (calls[k],), keeps[k])
                };
            assert(Seq::new(calls.len(), |i: int| *final(calls[i])) =~= values);
            assert forall|k: int| 0 <= k < count implies items.contains(#[trigger] items[k]) by {}
            if (forall|element: &mut T, keep: bool|
                items.contains(*element) && call_ensures(f, (element,), keep) ==> keep) {
                assert forall|k: int| 0 <= k < count implies keeps[k] by {
                    assert(items.contains(*calls[k]));
                }
                lemma_kept_whole(values, keeps);
            }
            if (forall|element: &mut T, keep: bool|
                items.contains(*element) && call_ensures(f, (element,), keep) ==> keep
                    && *final(element) == *element) {
                assert forall|k: int| 0 <= k < count implies keeps[k] && values[k] == items[k] by {
                    assert(items.contains(*calls[k]));
                }
                lemma_kept_whole(values, keeps);
                assert(values =~= items);
            }
            if (forall|element: &mut T, keep: bool|
                items.contains(*element) && call_ensures(f, (element,), keep) ==> !keep) {
                assert forall|k: int| 0 <= k < count implies !keeps[k] by {
                    assert(items.contains(*calls[k]));
                }
                lemma_kept_nothing(values, keeps);
            }
        }
    }

    /// A pass over the live elements, oldest first, that leaves them in
    /// place. Each call begins a new pass at the oldest element.
    pub fn iter(&self) -> (pass: RingBuffIter<'_, T, CAP>)
        requires
            self.wf(),
        ensures
            pass.elements() == self@.items,
            pass.consumed() == 0,
    {
        RingBuffIter::new(self)
    }
}

} // verus!
