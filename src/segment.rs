//! A fixed-capacity segment: an array of slots with two claim cursors.
use vstd::prelude::*;
use crate::BUFFER_SIZE;
use crate::slot::{Slot, items_of, legal_transition, lemma_items_of_concat, lemma_items_of_all_empty, lemma_items_of_single};

verus! {

/// A segment of the chain. `enqueue_index` is the next slot a producer may
/// claim and `dequeue_index` the next one a consumer may claim; a cursor at or
/// beyond `BUFFER_SIZE` means that the segment is full, or drained.
pub struct Segment<T> {
    pub enqueue_index: usize,
    pub dequeue_index: usize,
    pub slots: Vec<Slot<T>>,
}

/// The first slot that consumers have not yet claimed.
pub open spec fn read_start(deq: usize) -> int {
    if deq < BUFFER_SIZE { deq as int } else { BUFFER_SIZE as int }
}

impl<T> Segment<T> {
    /// Every slot is in place, the cursors are bounded (consumers run at most
    /// one claim past producers, on a drained segment), no slot that
    /// producers have not claimed holds anything, and no slot that consumers
    /// have not claimed is closed.
    pub open spec fn wf(&self) -> bool {
        &&& self.slots@.len() == BUFFER_SIZE
        &&& self.dequeue_index <= self.enqueue_index + 1
        &&& self.enqueue_index <= BUFFER_SIZE + 1
        &&& forall|i: int| self.enqueue_index <= i < BUFFER_SIZE ==> #[trigger] self.slots@[i] is Empty
        &&& forall|i: int| self.dequeue_index <= i < BUFFER_SIZE ==> !(#[trigger] self.slots@[i] is Taken)
    }

    /// The items still to be read from this segment, in slot order.
    pub open spec fn items(&self) -> Seq<T> {
        items_of(self.slots@.subrange(read_start(self.dequeue_index), BUFFER_SIZE as int))
    }

    /// Producers have claimed every slot.
    pub open spec fn is_full(&self) -> bool {
        self.enqueue_index >= BUFFER_SIZE
    }

    fn empty_slots() -> (r: Vec<Slot<T>>)
        ensures
            r@.len() == BUFFER_SIZE,
            forall|i: int| 0 <= i < BUFFER_SIZE ==> #[trigger] r@[i] is Empty,
    {
        let mut r: Vec<Slot<T>> = Vec::new();
        let mut n: usize = 0;
        while n < BUFFER_SIZE
            invariant
                n <= BUFFER_SIZE,
                r@.len() == n,
                forall|i: int| 0 <= i < n ==> #[trigger] r@[i] is Empty,
            decreases BUFFER_SIZE - n,
        {
            r.push(Slot::Empty);
            n = n + 1;
        }
        r
    }

    /// A segment with both cursors at zero and every slot empty.
    pub fn empty() -> (r: Self)
        ensures
            r.wf(),
            r.enqueue_index == 0,
            r.dequeue_index == 0,
            forall|i: int| 0 <= i < BUFFER_SIZE ==> #[trigger] r.slots@[i] is Empty,
            r.items() == Seq::<T>::empty(),
    {
        let slots = Self::empty_slots();
        let r = Segment { enqueue_index: 0, dequeue_index: 0, slots };
        proof {
            lemma_items_of_all_empty(r.slots@.subrange(0, BUFFER_SIZE as int));
        }
        r
    }

    /// A segment whose first slot already holds `item`, claimed for it.
    pub fn seeded(item: T) -> (r: Self)
        ensures
            r.wf(),
            r.enqueue_index == 1,
            r.dequeue_index == 0,
            r.slots@[0] == Slot::Occupied(item),
            forall|i: int| 1 <= i < BUFFER_SIZE ==> #[trigger] r.slots@[i] is Empty,
            r.items() == seq![item],
    {
        let mut slots = Self::empty_slots();
        slots.set(0, Slot::Occupied(item));
        let r = Segment { enqueue_index: 1, dequeue_index: 0, slots };
        proof {
            let s = r.slots@.subrange(0, BUFFER_SIZE as int);
            assert(s =~= seq![s[0]] + s.subrange(1, BUFFER_SIZE as int));
            lemma_items_of_concat(seq![s[0]], s.subrange(1, BUFFER_SIZE as int));
            lemma_items_of_all_empty(s.subrange(1, BUFFER_SIZE as int));
            lemma_items_of_single(s[0]);
        }
        r
    }

    /// Fetch-and-add on the enqueue cursor: returns the claimed index.
    pub fn claim_enqueue(&mut self) -> (idx: usize)
        requires
            old(self).wf(),
            old(self).enqueue_index <= BUFFER_SIZE,
        ensures
            final(self).wf(),
            idx == old(self).enqueue_index,
            final(self).enqueue_index == idx + 1,
            final(self).dequeue_index == old(self).dequeue_index,
            final(self).slots@ == old(self).slots@,
            final(self).items() == old(self).items(),
    {
        let idx = self.enqueue_index;
        self.enqueue_index = idx + 1;
        idx
    }

    /// Compare-and-swap of slot `idx` from empty to `item`. The item comes back
    /// when the slot was not empty.
    pub fn install(&mut self, idx: usize, item: T) -> (r: Result<(), T>)
        requires
            old(self).wf(),
            idx < BUFFER_SIZE,
            idx + 1 == old(self).enqueue_index,
            old(self).dequeue_index <= idx,
        ensures
            final(self).wf(),
            final(self).enqueue_index == old(self).enqueue_index,
            final(self).dequeue_index == old(self).dequeue_index,
            old(self).slots@[idx as int] is Empty ==> r is Ok && final(self).items() == old(self).items().push(item),
            r is Ok ==> final(self).slots@ == old(self).slots@.update(idx as int, Slot::Occupied(item))
                && legal_transition(old(self).slots@[idx as int], final(self).slots@[idx as int]),
            !(old(self).slots@[idx as int] is Empty) ==> r == Err::<(), T>(item) && final(self).slots@ == old(self).slots@,
    {
        let is_empty = match &self.slots[idx] {
            Slot::Empty => true,
            _ => false,
        };
        if is_empty {
            let ghost before = self.slots@;
            self.slots.set(idx, Slot::Occupied(item));
            proof {
                let lo = read_start(self.dequeue_index);
                let b = BUFFER_SIZE as int;
                let i = idx as int;
                let after = self.slots@;
                assert(before.subrange(lo, b) =~= before.subrange(lo, i) + before.subrange(i, b));
                assert(after.subrange(lo, b) =~= after.subrange(lo, i) + (seq![after[i]] + after.subrange(i + 1, b)));
                assert(after.subrange(lo, i) =~= before.subrange(lo, i));
                lemma_items_of_concat(before.subrange(lo, i), before.subrange(i, b));
                lemma_items_of_all_empty(before.subrange(i, b));
                lemma_items_of_all_empty(after.subrange(i + 1, b));
                lemma_items_of_concat(seq![after[i]], after.subrange(i + 1, b));
                lemma_items_of_concat(after.subrange(lo, i), seq![after[i]] + after.subrange(i + 1, b));
                lemma_items_of_single(after[i]);
            }
            Ok(())
        } else {
            Err(item)
        }
    }

    /// Fetch-and-add on the dequeue cursor: returns the claimed index.
    pub fn claim_dequeue(&mut self) -> (idx: usize)
        requires
            old(self).wf(),
            old(self).dequeue_index <= old(self).enqueue_index,
        ensures
            final(self).wf(),
            idx == old(self).dequeue_index,
            final(self).dequeue_index == idx + 1,
            final(self).enqueue_index == old(self).enqueue_index,
            final(self).slots@ == old(self).slots@,
    {
        let idx = self.dequeue_index;
        self.dequeue_index = idx + 1;
        idx
    }

    /// Swaps the taken marker into slot `idx` and returns what it held.
    /// Called on the slot just claimed by a consumer: what the segment still
    /// holds is what it held before, without the item taken.
    pub fn take(&mut self, idx: usize) -> (prior: Slot<T>)
        requires
            old(self).wf(),
            idx < BUFFER_SIZE,
            idx < old(self).enqueue_index,
            idx + 1 == old(self).dequeue_index,
            !(old(self).slots@[idx as int] is Taken),
        ensures
            final(self).wf(),
            final(self).enqueue_index == old(self).enqueue_index,
            final(self).dequeue_index == old(self).dequeue_index,
            final(self).slots@ == old(self).slots@.update(idx as int, Slot::Taken),
            prior == old(self).slots@[idx as int],
            legal_transition(prior, final(self).slots@[idx as int]),
            prior matches Slot::Occupied(v) ==> seq![v] + final(self).items() == items_of(
                old(self).slots@.subrange(idx as int, BUFFER_SIZE as int),
            ),
            !(prior is Occupied) ==> final(self).items() == items_of(
                old(self).slots@.subrange(idx as int, BUFFER_SIZE as int),
            ),
    {
        let ghost before = self.slots@;
        self.slots.push(Slot::Taken);
        let prior = self.slots.swap_remove(idx);
        proof {
            let b = BUFFER_SIZE as int;
            let i = idx as int;
            assert(self.slots@ =~= before.update(i, Slot::Taken));
            assert(before.subrange(i, b) =~= seq![before[i]] + before.subrange(i + 1, b));
            assert(self.slots@.subrange(i + 1, b) =~= before.subrange(i + 1, b));
            lemma_items_of_concat(seq![before[i]], before.subrange(i + 1, b));
            lemma_items_of_single(before[i]);
        }
        prior
    }
}

} // verus!
