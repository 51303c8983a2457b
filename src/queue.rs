//! The queue: a chain of segments, read at the head and written at the tail.
use vstd::prelude::*;
use haphazard::HazardPointer;
use crate::BUFFER_SIZE;
use crate::slot::{Slot, items_of};
use crate::segment::{Segment, read_start};
use crate::laws::{Op, apply};
use crate::protocol::{EnqueueStep, DequeueStep, enqueue_step, dequeue_step, dequeue_observes_empty};

verus! {

/// The items still held by a chain of segments, oldest first.
pub open spec fn chain_items<T>(segs: Seq<Segment<T>>) -> Seq<T>
    decreases segs.len(),
{
    if segs.len() == 0 {
        Seq::empty()
    } else {
        segs[0].items() + chain_items(segs.drop_first())
    }
}

/// Appending a segment to a chain appends its items.
pub proof fn lemma_chain_items_push<T>(segs: Seq<Segment<T>>, s: Segment<T>)
    ensures
        chain_items(segs.push(s)) == chain_items(segs) + s.items(),
    decreases segs.len(),
{
    if segs.len() == 0 {
        assert(segs.push(s).drop_first() =~= Seq::<Segment<T>>::empty());
        assert(chain_items(Seq::<Segment<T>>::empty()) == Seq::<T>::empty());
        assert(s.items() + Seq::<T>::empty() =~= s.items());
    } else {
        assert(segs.push(s).drop_first() =~= segs.drop_first().push(s));
        lemma_chain_items_push(segs.drop_first(), s);
        assert(segs[0].items() + (chain_items(segs.drop_first()) + s.items())
            =~= (segs[0].items() + chain_items(segs.drop_first())) + s.items());
    }
}

/// The items of a chain are those of all segments but the last, then the last one's.
pub proof fn lemma_chain_items_last<T>(segs: Seq<Segment<T>>)
    requires
        segs.len() >= 1,
    ensures
        chain_items(segs) == chain_items(segs.drop_last()) + segs.last().items(),
{
    assert(segs.drop_last().push(segs.last()) =~= segs);
    lemma_chain_items_push(segs.drop_last(), segs.last());
}

/// The chain's invariant: it holds at least one segment; every segment is
/// well formed and its consumers never ran past its producers; every segment
/// but the tail is full, and the tail has a slot left or is exactly full.
pub open spec fn chain_wf<T>(segs: Seq<Segment<T>>) -> bool {
    &&& segs.len() >= 1
    &&& forall|k: int| 0 <= k < segs.len() ==>
            (#[trigger] segs[k]).wf() && segs[k].dequeue_index <= segs[k].enqueue_index
    &&& forall|k: int| 0 <= k < segs.len() - 1 ==> (#[trigger] segs[k]).is_full()
    &&& segs.last().enqueue_index <= BUFFER_SIZE
}

/// Replacing one segment by one that fits its place keeps the invariant.
proof fn lemma_chain_wf_update<T>(segs: Seq<Segment<T>>, k: int, s: Segment<T>)
    requires
        chain_wf(segs),
        0 <= k < segs.len(),
        s.wf(),
        s.dequeue_index <= s.enqueue_index,
        k < segs.len() - 1 ==> s.is_full(),
        k == segs.len() - 1 ==> s.enqueue_index <= BUFFER_SIZE,
    ensures
        chain_wf(segs.update(k, s)),
{
    let r = segs.update(k, s);
    assert forall|j: int| 0 <= j < r.len() implies (#[trigger] r[j]).wf()
        && r[j].dequeue_index <= r[j].enqueue_index by {
        if j != k {
            assert(r[j] == segs[j]);
        }
    }
    assert forall|j: int| 0 <= j < r.len() - 1 implies (#[trigger] r[j]).is_full() by {
        if j != k {
            assert(r[j] == segs[j]);
        }
    }
}

/// Dropping the head of a chain of two or more segments keeps the invariant.
proof fn lemma_chain_wf_drop_first<T>(segs: Seq<Segment<T>>)
    requires
        chain_wf(segs),
        segs.len() >= 2,
    ensures
        chain_wf(segs.drop_first()),
{
    let r = segs.drop_first();
    assert forall|j: int| 0 <= j < r.len() implies (#[trigger] r[j]).wf()
        && r[j].dequeue_index <= r[j].enqueue_index by {
        assert(r[j] == segs[j + 1]);
    }
    assert forall|j: int| 0 <= j < r.len() - 1 implies (#[trigger] r[j]).is_full() by {
        assert(r[j] == segs[j + 1]);
    }
}

/// Replacing the tail by a full segment and linking a new tail after it
/// keeps the invariant.
proof fn lemma_chain_wf_extend<T>(segs: Seq<Segment<T>>, t: Segment<T>, s: Segment<T>)
    requires
        chain_wf(segs),
        t.wf(),
        t.is_full(),
        t.dequeue_index <= t.enqueue_index,
        s.wf(),
        s.dequeue_index <= s.enqueue_index,
        s.enqueue_index <= BUFFER_SIZE,
    ensures
        chain_wf(segs.update(segs.len() - 1, t).push(s)),
{
    let r = segs.update(segs.len() - 1, t).push(s);
    assert forall|j: int| 0 <= j < r.len() implies (#[trigger] r[j]).wf()
        && r[j].dequeue_index <= r[j].enqueue_index by {
        if j < segs.len() - 1 {
            assert(r[j] == segs[j]);
        }
    }
    assert forall|j: int| 0 <= j < r.len() - 1 implies (#[trigger] r[j]).is_full() by {
        if j < segs.len() - 1 {
            assert(r[j] == segs[j]);
        }
    }
}

/// `after` is `before` with its consumer cursor moved on and every slot that
/// the cursor passed closed; nothing else changed.
pub open spec fn closed_up_to<T>(before: Segment<T>, after: Segment<T>) -> bool {
    &&& after.enqueue_index == before.enqueue_index
    &&& before.dequeue_index <= after.dequeue_index
    &&& after.slots@.len() == before.slots@.len()
    &&& forall|i: int| 0 <= i < before.slots@.len() ==> #[trigger] after.slots@[i] == (
        if before.dequeue_index <= i < after.dequeue_index {
            Slot::Taken
        } else {
            before.slots@[i]
        })
}

/// Every slot of `s` from `lo` up to `hi`, within the segment, is a hole.
pub open spec fn holes<T>(s: Segment<T>, lo: int, hi: int) -> bool {
    forall|i: int| lo <= i < hi && i < BUFFER_SIZE ==> #[trigger] s.slots@[i] is Empty
}

/// A lock-free style FIFO queue of segments, driven here with exclusive access.
///
/// The first segment of `segments` is the head, where consumers read; the
/// last is the tail, where producers write. Each segment links to the one
/// after it. Drained head segments are dropped from the chain.
pub struct FAAAQueue<T> {
    segments: Vec<Segment<T>>,
}

impl<T> FAAAQueue<T> {
    /// The chain of segments, head first.
    pub closed spec fn segs(&self) -> Seq<Segment<T>> {
        self.segments@
    }

    /// The number of segments in the chain.
    pub open spec fn segment_count(&self) -> int {
        self.segs().len() as int
    }

    /// The segment where consumers read.
    pub open spec fn head(&self) -> Segment<T> {
        self.segs()[0]
    }

    /// The segment where producers write.
    pub open spec fn tail(&self) -> Segment<T> {
        self.segs().last()
    }

    /// The items in the queue, oldest first.
    pub open spec fn view(&self) -> Seq<T> {
        chain_items(self.segs())
    }

    pub open spec fn wf(&self) -> bool {
        chain_wf(self.segs())
    }

    /// An empty queue with one empty segment.
    pub fn new() -> (r: Self)
        ensures
            r.wf(),
            r@ == Seq::<T>::empty(),
            r.segment_count() == 1,
            r.head().enqueue_index == 0,
            r.head().dequeue_index == 0,
            forall|i: int| 0 <= i < BUFFER_SIZE ==> #[trigger] r.head().slots@[i] is Empty,
    {
        let mut segments: Vec<Segment<T>> = Vec::new();
        segments.push(Segment::empty());
        let r = FAAAQueue { segments };
        proof {
            assert(r.segments@.drop_first() =~= Seq::<Segment<T>>::empty());
            assert(chain_items(Seq::<Segment<T>>::empty()) == Seq::<T>::empty());
            assert(r@ =~= Seq::<T>::empty());
        }
        r
    }

    /// Appends `item` at the tail. With no other thread running, the first
    /// claimed index decides: a slot inside the tail segment takes the item,
    /// and a full tail gets a new segment seeded with it. No segment but the
    /// tail changes, and the chain only grows at its end.
    pub fn enqueue(&mut self, item: T, hp: &mut HazardPointer<'_>)
        requires
            old(self).wf(),
        ensures
            final(self).wf(),
            final(self)@ == old(self)@.push(item),
            apply(old(self)@, Op::Enqueue(item)) == (final(self)@, None::<T>),
            final(self).segs().subrange(0, old(self).segment_count() - 1) == old(self).segs().drop_last(),
            old(self).tail().enqueue_index < BUFFER_SIZE ==> {
                &&& final(self).segment_count() == old(self).segment_count()
                &&& old(self).tail().slots@[old(self).tail().enqueue_index as int] is Empty
                &&& final(self).tail().slots@ == old(self).tail().slots@.update(
                    old(self).tail().enqueue_index as int,
                    Slot::Occupied(item),
                )
                &&& final(self).tail().enqueue_index == old(self).tail().enqueue_index + 1
                &&& final(self).tail().dequeue_index == old(self).tail().dequeue_index
            },
            old(self).tail().enqueue_index >= BUFFER_SIZE ==> {
                &&& final(self).segment_count() == old(self).segment_count() + 1
                &&& final(self).segs()[old(self).segment_count() - 1].slots@ == old(self).tail().slots@
                &&& final(self).segs()[old(self).segment_count() - 1].enqueue_index
                    == old(self).tail().enqueue_index + 1
                &&& final(self).segs()[old(self).segment_count() - 1].dequeue_index
                    == old(self).tail().dequeue_index
                &&& final(self).tail().enqueue_index == 1
                &&& final(self).tail().dequeue_index == 0
                &&& final(self).tail().slots@[0] == Slot::Occupied(item)
                &&& forall|i: int| 1 <= i < BUFFER_SIZE ==> #[trigger] final(self).tail().slots@[i] is Empty
            },
    {
        let tail = self.segments.len() - 1;
        let ghost before = self.segments@;
        let idx = self.segments[tail].claim_enqueue();
        let next_is_null = tail + 1 == self.segments.len();
        // The tail cannot move between the load and the check without other threads.
        match enqueue_step(idx, false, next_is_null) {
            EnqueueStep::Install => {
                match self.segments[tail].install(idx, item) {
                    Ok(()) => {},
                    Err(_) => {
                        proof {
                            assert(false);
                        }
                    },
                }
                proof {
                    let segs = self.segments@;
                    assert(segs =~= before.update(tail as int, segs[tail as int]));
                    lemma_chain_wf_update(before, tail as int, segs[tail as int]);
                    assert(segs.drop_last() =~= before.drop_last());
                    assert(segs.subrange(0, tail as int) =~= before.drop_last());
                    lemma_chain_items_last(segs);
                    lemma_chain_items_last(before);
                }
            },
            EnqueueStep::Link => {
                let ghost full_tail = self.segments@[tail as int];
                self.segments.push(Segment::seeded(item));
                proof {
                    let segs = self.segments@;
                    let mid = segs.drop_last();
                    assert(mid =~= before.update(tail as int, full_tail));
                    assert(segs =~= before.update(tail as int, full_tail).push(segs.last()));
                    lemma_chain_wf_extend(before, full_tail, segs.last());
                    assert(mid.drop_last() =~= before.drop_last());
                    assert(segs.subrange(0, tail as int) =~= before.drop_last());
                    assert(mid.last().items() == before.last().items());
                    lemma_chain_items_last(before);
                    lemma_chain_items_last(mid);
                    lemma_chain_items_last(segs);
                }
            },
            _ => {
                proof {
                    assert(false);
                }
            },
        }
        hp.reset_protection();
    }

    /// Removes and returns the oldest item, or `None` when the queue holds
    /// none. Slots whose producer never published are skipped and closed; a
    /// drained head segment is dropped from the chain once a successor
    /// exists. The segments after the new head are left as they were.
    pub fn dequeue(&mut self, hp: &mut HazardPointer<'_>) -> (r: Option<T>)
        requires
            old(self).wf(),
        ensures
            final(self).wf(),
            old(self)@.len() == 0 ==> r is None && final(self)@ == old(self)@,
            old(self)@.len() > 0 ==> r == Some(old(self)@[0]) && final(self)@ == old(self)@.drop_first(),
            apply(old(self)@, Op::Dequeue) == (final(self)@, r),
            1 <= final(self).segment_count() <= old(self).segment_count(),
            final(self).segs().drop_first() == old(self).segs().subrange(
                old(self).segment_count() - final(self).segment_count() + 1,
                old(self).segment_count(),
            ),
            closed_up_to(
                old(self).segs()[old(self).segment_count() - final(self).segment_count()],
                final(self).head(),
            ),
            r is None ==> final(self).segment_count() == 1 && holes(
                old(self).tail(),
                old(self).tail().dequeue_index as int,
                final(self).head().dequeue_index as int,
            ),
            r matches Some(v) ==> {
                let k = old(self).segment_count() - final(self).segment_count();
                let d = final(self).head().dequeue_index as int;
                &&& old(self).segs()[k].dequeue_index < d <= BUFFER_SIZE
                &&& holes(old(self).segs()[k], old(self).segs()[k].dequeue_index as int, d - 1)
                &&& old(self).segs()[k].slots@[d - 1] == Slot::Occupied(v)
            },
            old(self).segment_count() > 1 && old(self).head().dequeue_index >= BUFFER_SIZE
                ==> final(self).segment_count() < old(self).segment_count(),
            old(self).segment_count() == 1 && old(self).head().dequeue_index >= old(self).head().enqueue_index
                ==> final(self).segs() == old(self).segs(),
    {
        let ghost n = self.segments@.len() as int;
        let ghost orig = self.segments@;
        loop
            invariant
                self.wf(),
                self@ == old(self)@,
                n == orig.len(),
                orig == old(self).segs(),
                1 <= self.segments@.len() <= n,
                self.segments@.drop_first() == orig.subrange(n - self.segments@.len() + 1, n),
                closed_up_to(orig[n - self.segments@.len()], self.segments@[0]),
                holes(
                    orig[n - self.segments@.len()],
                    orig[n - self.segments@.len()].dequeue_index as int,
                    self.segments@[0].dequeue_index as int,
                ),
                n == 1 && orig[0].dequeue_index >= orig[0].enqueue_index ==> self.segments@ == orig,
            ensures
                self.wf(),
                self@ == old(self)@,
                self@.len() == 0,
                self.segments@.len() == 1,
                self.segments@.drop_first() == orig.subrange(n, n),
                closed_up_to(orig[n - 1], self.segments@[0]),
                holes(orig[n - 1], orig[n - 1].dequeue_index as int, self.segments@[0].dequeue_index as int),
                n == 1 && orig[0].dequeue_index >= orig[0].enqueue_index ==> self.segments@ == orig,
            decreases self.segments@.len(), BUFFER_SIZE + 1 - self.segments@[0].dequeue_index,
        {
            let ghost before = self.segments@;
            let ghost k = n - before.len();
            let next_is_null = self.segments.len() == 1;
            if dequeue_observes_empty(
                self.segments[0].dequeue_index,
                self.segments[0].enqueue_index,
                next_is_null,
            ) {
                proof {
                    let h = before[0];
                    assert(before.drop_first() =~= Seq::<Segment<T>>::empty());
                    assert(chain_items(Seq::<Segment<T>>::empty()) == Seq::<T>::empty());
                    let sub = h.slots@.subrange(read_start(h.dequeue_index), BUFFER_SIZE as int);
                    assert forall|i: int| 0 <= i < sub.len() implies #[trigger] sub[i] is Empty by {
                        assert(sub[i] == h.slots@[read_start(h.dequeue_index) + i]);
                    }
                    crate::slot::lemma_items_of_all_empty(sub);
                    assert(self@ =~= Seq::<T>::empty());
                }
                break;
            }
            proof {
                assert(before[0].wf());
            }
            let idx = self.segments[0].claim_dequeue();
            match dequeue_step(idx, next_is_null) {
                DequeueStep::Take => {
                    let ghost mid = self.segments@;
                    let prior = self.segments[0].take(idx);
                    let ghost segs = self.segments@;
                    proof {
                        assert(segs =~= before.update(0, segs[0]));
                        lemma_chain_wf_update(before, 0, segs[0]);
                        assert(segs.drop_first() =~= before.drop_first());
                        assert(read_start(idx) == idx as int);
                        assert(mid[0].slots@ == before[0].slots@);
                        let o = orig[k];
                        assert(o.slots@[idx as int] == before[0].slots@[idx as int]);
                        assert forall|i: int| 0 <= i < o.slots@.len() implies #[trigger] segs[0].slots@[i] == (
                            if o.dequeue_index <= i < segs[0].dequeue_index {
                                Slot::<T>::Taken
                            } else {
                                o.slots@[i]
                            }) by {
                            if i != idx as int {
                                assert(segs[0].slots@[i] == before[0].slots@[i]);
                            }
                        }
                    }
                    match prior {
                        Slot::Occupied(v) => {
                            proof {
                                assert(old(self)@ == before[0].items() + chain_items(before.drop_first()));
                                assert(self@ == segs[0].items() + chain_items(segs.drop_first()));
                                assert(old(self)@ =~= seq![v] + self@);
                                assert(old(self)@.drop_first() =~= self@);
                            }
                            hp.reset_protection();
                            return Some(v);
                        },
                        _ => {},
                    }
                },
                DequeueStep::AdvanceHead => {
                    proof {
                        let h = before[0];
                        let sub = h.slots@.subrange(read_start(h.dequeue_index), BUFFER_SIZE as int);
                        assert(sub =~= Seq::<Slot<T>>::empty());
                        assert(items_of(sub) == Seq::<T>::empty());
                        assert(old(self)@ =~= chain_items(before.drop_first()));
                    }
                    // The drained segment leaves the chain and is freed.
                    let _retired = self.segments.remove(0);
                    proof {
                        let segs = self.segments@;
                        assert(segs =~= before.drop_first());
                        lemma_chain_wf_drop_first(before);
                        assert(segs[0] == orig[k + 1]);
                        assert(segs.drop_first() =~= orig.subrange(k + 2, n));
                    }
                },
                DequeueStep::ReportEmpty => {
                    proof {
                        assert(false);
                    }
                    break;
                },
            }
        }
        proof {
            assert(self.segments@.drop_first() =~= Seq::<Segment<T>>::empty());
        }
        hp.reset_protection();
        None
    }

    /// A producer claims the next index of the tail segment and never
    /// publishes to it, as one does whose slot a consumer closed first. The
    /// slot stays a hole that consumers skip. A slot is claimed exactly when
    /// the tail has one left; a full tail is left alone.
    pub fn abandon_claim(&mut self) -> (claimed: bool)
        requires
            old(self).wf(),
        ensures
            final(self).wf(),
            final(self)@ == old(self)@,
            claimed == (old(self).tail().enqueue_index < BUFFER_SIZE),
            final(self).segment_count() == old(self).segment_count(),
            final(self).segs().drop_last() == old(self).segs().drop_last(),
            claimed ==> final(self).tail().enqueue_index == old(self).tail().enqueue_index + 1
                && final(self).tail().dequeue_index == old(self).tail().dequeue_index
                && final(self).tail().slots@ == old(self).tail().slots@,
            !claimed ==> final(self).segs() == old(self).segs(),
    {
        let tail = self.segments.len() - 1;
        if self.segments[tail].enqueue_index >= BUFFER_SIZE {
            return false;
        }
        let ghost before = self.segments@;
        let _idx = self.segments[tail].claim_enqueue();
        proof {
            let segs = self.segments@;
            assert(segs =~= before.update(tail as int, segs[tail as int]));
            lemma_chain_wf_update(before, tail as int, segs[tail as int]);
            assert(segs.drop_last() =~= before.drop_last());
            lemma_chain_items_last(segs);
            lemma_chain_items_last(before);
        }
        true
    }

    /// Destroys the queue and hands back every item it still held, oldest
    /// first. Every segment is walked, the head segment included, so no item
    /// is lost.
    pub fn teardown(self) -> (r: Vec<T>)
        requires
            self.wf(),
        ensures
            r@ == self@,
    {
        let mut segs = self.segments;
        let mut out: Vec<T> = Vec::new();
        while segs.len() > 0
            invariant
                forall|k: int| 0 <= k < segs@.len() ==> (#[trigger] segs@[k]).wf(),
                out@ + chain_items(segs@) == self@,
            decreases segs@.len(),
        {
            let ghost before = segs@;
            let seg = segs.remove(0);
            proof {
                assert(segs@ =~= before.drop_first());
                assert forall|k: int| 0 <= k < segs@.len() implies (#[trigger] segs@[k]).wf() by {
                    assert(segs@[k] == before[k + 1]);
                }
            }
            let lo = if seg.dequeue_index < BUFFER_SIZE { seg.dequeue_index } else { BUFFER_SIZE };
            let mut items = drain_slots(seg.slots, lo);
            let ghost out_before = out@;
            out.append(&mut items);
            proof {
                assert(out@ =~= out_before + before[0].items());
                assert(out@ + chain_items(segs@) =~= out_before + (before[0].items() + chain_items(before.drop_first())));
            }
        }
        proof {
            assert(chain_items(segs@) == Seq::<T>::empty());
            assert(out@ + Seq::<T>::empty() =~= out@);
        }
        out
    }
}

/// Takes the items out of `slots[lo..]`, in slot order.
fn drain_slots<T>(slots: Vec<Slot<T>>, lo: usize) -> (r: Vec<T>)
    requires
        lo <= slots@.len(),
    ensures
        r@ == items_of(slots@.subrange(lo as int, slots@.len() as int)),
{
    let ghost orig = slots@;
    let n = slots.len();
    let mut slots = slots;
    let mut out: Vec<T> = Vec::new();
    let mut i: usize = lo;
    while i < n
        invariant
            lo <= i <= n,
            n == orig.len(),
            slots@.len() == n,
            forall|j: int| i <= j < n ==> #[trigger] slots@[j] == orig[j],
            out@ == items_of(orig.subrange(lo as int, i as int)),
        decreases n - i,
    {
        let ghost cur = slots@;
        slots.push(Slot::Taken);
        let s = slots.swap_remove(i);
        proof {
            assert(forall|j: int| i < j < n ==> slots@[j] == cur[j]);
            assert(orig.subrange(lo as int, i + 1) =~= orig.subrange(lo as int, i as int) + seq![orig[i as int]]);
            crate::slot::lemma_items_of_concat(orig.subrange(lo as int, i as int), seq![orig[i as int]]);
            crate::slot::lemma_items_of_single(orig[i as int]);
            assert(s == orig[i as int]);
        }
        match s {
            Slot::Occupied(v) => {
                out.push(v);
            },
            _ => {},
        }
        proof {
            assert(out@ =~= items_of(orig.subrange(lo as int, i + 1)));
        }
        i = i + 1;
    }
    proof {
        assert(orig.subrange(lo as int, i as int) =~= orig.subrange(lo as int, orig.len() as int));
    }
    out
}

impl<T> Default for FAAAQueue<T> {
    /// Same as `new`.
    fn default() -> (r: Self)
        ensures
            r.wf(),
            r@ == Seq::<T>::empty(),
            r.segment_count() == 1,
            r.head().enqueue_index == 0,
            r.head().dequeue_index == 0,
            forall|i: int| 0 <= i < BUFFER_SIZE ==> #[trigger] r.head().slots@[i] is Empty,
    {
        Self::new()
    }
}

} // verus!
