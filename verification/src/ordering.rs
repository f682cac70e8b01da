//! Stable ordering of placements, by start slot alone or by the whole
//! placement.

use crate::data::Assignment;
use vstd::prelude::*;

verus! {

/// What placements are ordered by.
#[derive(Debug, Clone, Copy, PartialEq, Eq, Structural)]
pub enum Order {
    /// By start slot.
    ByStart,
    /// By course, then room, then start slot.
    ByPlacement,
}

/// Whether `a` may stand before `b`.
pub open spec fn at_most(order: Order, a: Assignment, b: Assignment) -> bool {
    match order {
        Order::ByStart => a.start_slot <= b.start_slot,
        Order::ByPlacement => {
            ||| a.course_id < b.course_id
            ||| a.course_id == b.course_id && a.room_id < b.room_id
            ||| a.course_id == b.course_id && a.room_id == b.room_id && a.start_slot
                <= b.start_slot
        },
    }
}

/// Whether every placement may stand before all that follow it.
pub open spec fn ascending(order: Order, items: Seq<Assignment>) -> bool {
    forall|i: int, j: int| 0 <= i < j < items.len() ==> at_most(order, items[i], items[j])
}

/// `item` put behind the last placement that may stand before it.
pub open spec fn insert_ordered(order: Order, items: Seq<Assignment>, item: Assignment) -> Seq<
    Assignment,
>
    decreases items.len(),
{
    if items.len() == 0 {
        seq![item]
    } else if at_most(order, items.last(), item) {
        items.push(item)
    } else {
        insert_ordered(order, items.drop_last(), item).push(items.last())
    }
}

/// The placements in ascending order; those that compare equal keep the
/// order in which they came.
pub open spec fn sorted_by(order: Order, items: Seq<Assignment>) -> Seq<Assignment>
    decreases items.len(),
{
    if items.len() == 0 {
        Seq::empty()
    } else {
        insert_ordered(order, sorted_by(order, items.drop_last()), items.last())
    }
}

proof fn lemma_insert_ordered(order: Order, items: Seq<Assignment>, item: Assignment)
    requires
        ascending(order, items),
    ensures
        ascending(order, insert_ordered(order, items, item)),
        insert_ordered(order, items, item).len() == items.len() + 1,
        insert_ordered(order, items, item).to_multiset() == items.to_multiset().insert(item),
    decreases items.len(),
{
    broadcast use vstd::seq_lib::group_to_multiset_ensures;

    let result = insert_ordered(order, items, item);
    if items.len() == 0 {
        assert(result == Seq::<Assignment>::empty().push(item));
        assert(items == Seq::<Assignment>::empty());
    } else if at_most(order, items.last(), item) {
        assert forall|i: int, j: int| 0 <= i < j < result.len() implies at_most(
            order,
            result[i],
            result[j],
        ) by {
            if j == items.len() {
                if i < items.len() - 1 {
                    assert(at_most(order, items[i], items.last()));
                }
            }
        }
    } else {
        let front = items.drop_last();
        let inner = insert_ordered(order, front, item);
        lemma_insert_ordered(order, front, item);
        assert(front.push(items.last()) == items);
        assert forall|i: int, j: int| 0 <= i < j < result.len() implies at_most(
            order,
            result[i],
            result[j],
        ) by {
            if j == inner.len() {
                assert(inner.to_multiset().count(inner[i]) > 0);
                if inner[i] != item {
                    assert(front.to_multiset().count(inner[i]) > 0);
                    assert(front.contains(inner[i]));
                    let k = choose|k: int| 0 <= k < front.len() && front[k] == inner[i];
                    assert(at_most(order, items[k], items.last()));
                }
            }
        }
    }
}

/// The ordered placements ascend and are the given ones, each as often as
/// it was given.
pub proof fn lemma_sorted_by(order: Order, items: Seq<Assignment>)
    ensures
        ascending(order, sorted_by(order, items)),
        sorted_by(order, items).len() == items.len(),
        sorted_by(order, items).to_multiset() == items.to_multiset(),
    decreases items.len(),
{
    broadcast use vstd::seq_lib::group_to_multiset_ensures;

    if items.len() > 0 {
        lemma_sorted_by(order, items.drop_last());
        lemma_insert_ordered(order, sorted_by(order, items.drop_last()), items.last());
        assert(items.drop_last().push(items.last()) == items);
    } else {
        assert(items == Seq::<Assignment>::empty());
    }
}

/// A placement is among the ordered ones exactly when it was given.
pub proof fn lemma_sorted_by_contains(order: Order, items: Seq<Assignment>, item: Assignment)
    ensures
        sorted_by(order, items).contains(item) <==> items.contains(item),
{
    broadcast use vstd::seq_lib::group_to_multiset_ensures;

    lemma_sorted_by(order, items);
    let sorted = sorted_by(order, items);
    assert(sorted.contains(item) <==> sorted.to_multiset().count(item) > 0);
    assert(items.contains(item) <==> items.to_multiset().count(item) > 0);
}

proof fn lemma_insert_position(order: Order, items: Seq<Assignment>, item: Assignment, at: int)
    requires
        0 <= at <= items.len(),
        forall|j: int| at <= j < items.len() ==> !at_most(order, #[trigger] items[j], item),
        at == 0 || at_most(order, items[at - 1], item),
    ensures
        insert_ordered(order, items, item) == items.insert(at, item),
    decreases items.len(),
{
    if items.len() == 0 {
        assert(items.insert(at, item) =~= seq![item]);
    } else if at == items.len() {
        assert(items.insert(at, item) =~= items.push(item));
    } else {
        assert(!at_most(order, items[items.len() - 1], item));
        let front = items.drop_last();
        lemma_insert_position(order, front, item, at);
        assert(items.insert(at, item) =~= front.insert(at, item).push(items.last()));
    }
}

fn may_precede(order: Order, a: &Assignment, b: &Assignment) -> (yes: bool)
    ensures
        yes == at_most(order, *a, *b),
{
    match order {
        Order::ByStart => a.start_slot <= b.start_slot,
        Order::ByPlacement => {
            a.course_id < b.course_id || (a.course_id == b.course_id && a.room_id < b.room_id)
                || (a.course_id == b.course_id && a.room_id == b.room_id && a.start_slot
                <= b.start_slot)
        },
    }
}

/// Orders placements; those that compare equal keep the order in which
/// they came.
pub fn sort_placements(order: Order, items: &Vec<Assignment>) -> (sorted: Vec<Assignment>)
    ensures
        sorted@ == sorted_by(order, items@),
{
    let mut sorted: Vec<Assignment> = Vec::new();
    let mut i: usize = 0;
    while i < items.len()
        invariant
            i <= items.len(),
            sorted@ == sorted_by(order, items@.take(i as int)),
        decreases items.len() - i,
    {
        let item = items[i];
        let mut at: usize = sorted.len();
        while at > 0 && !may_precede(order, &sorted[at - 1], &item)
            invariant
                at <= sorted.len(),
                forall|j: int| at <= j < sorted.len() ==> !at_most(order, #[trigger] sorted@[j], item),
            decreases at,
        {
            at -= 1;
        }
        proof {
            lemma_insert_position(order, sorted@, item, at as int);
            assert(items@.take(i + 1).drop_last() == items@.take(i as int));
        }
        sorted.insert(at, item);
        i += 1;
    }
    proof {
        assert(items@.take(i as int) == items@);
    }
    sorted
}

} // verus!
