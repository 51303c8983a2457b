//! One cell of a segment and the items that a run of cells holds.
use vstd::prelude::*;

verus! {

/// One cell of a segment.
///
/// A slot moves only `Empty -> Occupied` (a producer publishes),
/// `Occupied -> Taken` (a consumer takes the item) or `Empty -> Taken`
/// (a consumer closes a slot whose producer never published: a hole).
pub enum Slot<T> {
    Empty,
    Occupied(T),
    Taken,
}

/// The transitions that a slot may make.
pub open spec fn legal_transition<T>(before: Slot<T>, after: Slot<T>) -> bool {
    ||| (before is Empty && after is Occupied)
    ||| (before is Occupied && after is Taken)
    ||| (before is Empty && after is Taken)
}

/// The items held by a run of slots, in slot order.
pub open spec fn items_of<T>(s: Seq<Slot<T>>) -> Seq<T>
    decreases s.len(),
{
    if s.len() == 0 {
        Seq::empty()
    } else {
        let rest = items_of(s.drop_first());
        match s[0] {
            Slot::Occupied(v) => seq![v] + rest,
            _ => rest,
        }
    }
}

/// The items of two adjacent runs are the items of the first, then those of the second.
pub proof fn lemma_items_of_concat<T>(a: Seq<Slot<T>>, b: Seq<Slot<T>>)
    ensures
        items_of(a + b) == items_of(a) + items_of(b),
    decreases a.len(),
{
    if a.len() == 0 {
        assert(a + b =~= b);
    } else {
        assert((a + b).drop_first() =~= a.drop_first() + b);
        lemma_items_of_concat(a.drop_first(), b);
    }
}

/// The items of a single slot.
pub proof fn lemma_items_of_single<T>(x: Slot<T>)
    ensures
        items_of(seq![x]) == (match x {
            Slot::Occupied(v) => seq![v],
            _ => Seq::<T>::empty(),
        }),
{
    assert(seq![x].drop_first() =~= Seq::<Slot<T>>::empty());
    assert(items_of(Seq::<Slot<T>>::empty()) == Seq::<T>::empty());
    assert(seq![v_of(x)] + Seq::<T>::empty() =~= seq![v_of(x)]);
}

spec fn v_of<T>(x: Slot<T>) -> T {
    match x {
        Slot::Occupied(v) => v,
        _ => arbitrary(),
    }
}

/// A run of empty slots holds no item.
pub proof fn lemma_items_of_all_empty<T>(s: Seq<Slot<T>>)
    requires
        forall|i: int| 0 <= i < s.len() ==> #[trigger] s[i] is Empty,
    ensures
        items_of(s) == Seq::<T>::empty(),
    decreases s.len(),
{
    if s.len() > 0 {
        lemma_items_of_all_empty(s.drop_first());
    }
}

} // verus!
