//! The double-ended heap and the insertion-ordered set that the queues are
//! kept in, with what the schedulers rely on of each.

use vstd::prelude::*;
use vstd::multiset::Multiset;
use std::collections::hash_map::RandomState;
use indexmap::IndexSet;
use min_max_heap::MinMaxHeap;

use crate::shared::triple_before;

verus! {

/// The double-ended heap of `min_max_heap`.
#[verifier::external_type_specification]
#[verifier::external_body]
#[verifier::reject_recursive_types(T)]
pub struct ExMinMaxHeap<T>(min_max_heap::MinMaxHeap<T>);

/// The insertion-ordered set of `indexmap`.
#[verifier::external_type_specification]
#[verifier::external_body]
#[verifier::reject_recursive_types(T)]
#[verifier::reject_recursive_types(S)]
pub struct ExIndexSet<T, S>(indexmap::IndexSet<T, S>);

/// The items of a heap, each as often as it was pushed and not popped.
pub uninterp spec fn heap_items(heap: MinMaxHeap<(u64, u64, u64)>) -> Multiset<(u64, u64, u64)>;

/// The items of an insertion-ordered set, first inserted first.
pub uninterp spec fn index_set_items(set: IndexSet<(u64, u64, u64), RandomState>) -> Seq<
    (u64, u64, u64),
>;

/// `x` is an item of `items` that none precedes.
pub open spec fn is_least(items: Multiset<(u64, u64, u64)>, x: (u64, u64, u64)) -> bool {
    items.contains(x) && forall|y: (u64, u64, u64)| #[trigger]
        items.contains(y) ==> !triple_before(y, x)
}

/// `x` is an item of `items` that precedes none.
pub open spec fn is_greatest(items: Multiset<(u64, u64, u64)>, x: (u64, u64, u64)) -> bool {
    items.contains(x) && forall|y: (u64, u64, u64)| #[trigger]
        items.contains(y) ==> !triple_before(x, y)
}

/// The least item.
pub open spec fn least(items: Multiset<(u64, u64, u64)>) -> (u64, u64, u64) {
    choose|x: (u64, u64, u64)| is_least(items, x)
}

/// The greatest item.
pub open spec fn greatest(items: Multiset<(u64, u64, u64)>) -> (u64, u64, u64) {
    choose|x: (u64, u64, u64)| is_greatest(items, x)
}

/// There is only one least item.
pub proof fn lemma_least_unique(items: Multiset<(u64, u64, u64)>, x: (u64, u64, u64))
    requires
        is_least(items, x),
    ensures
        x == least(items),
{
    let y = least(items);
    assert(is_least(items, y));
    assert(!triple_before(x, y) && !triple_before(y, x));
}

/// There is only one greatest item.
pub proof fn lemma_greatest_unique(items: Multiset<(u64, u64, u64)>, x: (u64, u64, u64))
    requires
        is_greatest(items, x),
    ensures
        x == greatest(items),
{
    let y = greatest(items);
    assert(is_greatest(items, y));
    assert(!triple_before(x, y) && !triple_before(y, x));
}

/// Where there are items, one of them is the least.
pub proof fn lemma_least_exists(items: Multiset<(u64, u64, u64)>)
    requires
        items.len() > 0,
    ensures
        is_least(items, least(items)),
    decreases items.len(),
{
    let x = items.choose();
    let rest = items.remove(x);
    assert(items.contains(x));
    assert forall|y: (u64, u64, u64)| #[trigger] items.contains(y) implies y == x || rest.contains(
        y,
    ) by {}
    if rest.len() > 0 {
        lemma_least_exists(rest);
        let y = least(rest);
        assert(items.contains(y));
        assert(is_least(items, if triple_before(y, x) { y } else { x }));
    } else {
        assert forall|y: (u64, u64, u64)| #[trigger] items.contains(y) implies !triple_before(
            y,
            x,
        ) by {
            if rest.contains(y) {
                assert(rest.count(y) <= rest.len());
            }
        }
        assert(is_least(items, x));
    }
}

/// Where there are items, one of them is the greatest.
pub proof fn lemma_greatest_exists(items: Multiset<(u64, u64, u64)>)
    requires
        items.len() > 0,
    ensures
        is_greatest(items, greatest(items)),
    decreases items.len(),
{
    let x = items.choose();
    let rest = items.remove(x);
    assert(items.contains(x));
    assert forall|y: (u64, u64, u64)| #[trigger] items.contains(y) implies y == x || rest.contains(
        y,
    ) by {}
    if rest.len() > 0 {
        lemma_greatest_exists(rest);
        let y = greatest(rest);
        assert(items.contains(y));
        assert(is_greatest(items, if triple_before(x, y) { y } else { x }));
    } else {
        assert forall|y: (u64, u64, u64)| #[trigger] items.contains(y) implies !triple_before(
            x,
            y,
        ) by {
            if rest.contains(y) {
                assert(rest.count(y) <= rest.len());
            }
        }
        assert(is_greatest(items, x));
    }
}

/// `MinMaxHeap::new`: the heap is empty.
#[verifier::external_body]
pub(crate) fn heap_new() -> (heap: MinMaxHeap<(u64, u64, u64)>)
    ensures
        heap_items(heap) == Multiset::<(u64, u64, u64)>::empty(),
{
    MinMaxHeap::new()
}

/// `MinMaxHeap::len`: the number of items, repetitions counted.
#[verifier::external_body]
pub(crate) fn heap_len(heap: &MinMaxHeap<(u64, u64, u64)>) -> (n: usize)
    ensures
        n == heap_items(*heap).len(),
{
    heap.len()
}

/// `MinMaxHeap::push`: one more occurrence of the item.
#[verifier::external_body]
pub(crate) fn heap_push(heap: &mut MinMaxHeap<(u64, u64, u64)>, item: (u64, u64, u64))
    ensures
        heap_items(*final(heap)) == heap_items(*old(heap)).insert(item),
{
    heap.push(item)
}

/// `MinMaxHeap::pop_min`: takes out one occurrence of the least item, by the
/// lexicographic order of triples, or nothing of an empty heap.
#[verifier::external_body]
pub(crate) fn heap_pop_min(heap: &mut MinMaxHeap<(u64, u64, u64)>) -> (r: Option<(u64, u64, u64)>)
    ensures
        match r {
            Some(x) => is_least(heap_items(*old(heap)), x) && heap_items(*final(heap))
                == heap_items(*old(heap)).remove(x),
            None => heap_items(*old(heap)).len() == 0 && heap_items(*final(heap)) == heap_items(
                *old(heap),
            ),
        },
{
    heap.pop_min()
}

/// `MinMaxHeap::pop_max`: takes out one occurrence of the greatest item, by the
/// lexicographic order of triples, or nothing of an empty heap.
#[verifier::external_body]
pub(crate) fn heap_pop_max(heap: &mut MinMaxHeap<(u64, u64, u64)>) -> (r: Option<(u64, u64, u64)>)
    ensures
        match r {
            Some(x) => is_greatest(heap_items(*old(heap)), x) && heap_items(*final(heap))
                == heap_items(*old(heap)).remove(x),
            None => heap_items(*old(heap)).len() == 0 && heap_items(*final(heap)) == heap_items(
                *old(heap),
            ),
        },
{
    heap.pop_max()
}

/// `IndexSet::new`: the set is empty.
#[verifier::external_body]
pub(crate) fn index_set_new() -> (set: IndexSet<(u64, u64, u64), RandomState>)
    ensures
        index_set_items(set) == Seq::<(u64, u64, u64)>::empty(),
{
    IndexSet::new()
}

/// `IndexSet::len`: the number of items.
#[verifier::external_body]
pub(crate) fn index_set_len(set: &IndexSet<(u64, u64, u64), RandomState>) -> (n: usize)
    ensures
        n == index_set_items(*set).len(),
{
    set.len()
}

/// `IndexSet::contains`: whether the item is in the set.
#[verifier::external_body]
pub(crate) fn index_set_contains(
    set: &IndexSet<(u64, u64, u64), RandomState>,
    item: &(u64, u64, u64),
) -> (r: bool)
    ensures
        r == index_set_items(*set).contains(*item),
{
    set.contains(item)
}

/// `IndexSet::insert`: an item that is not there yet goes last.
#[verifier::external_body]
pub(crate) fn index_set_insert(
    set: &mut IndexSet<(u64, u64, u64), RandomState>,
    item: (u64, u64, u64),
) -> (added: bool)
    ensures
        added == !index_set_items(*old(set)).contains(item),
        index_set_items(*final(set)) == if added {
            index_set_items(*old(set)).push(item)
        } else {
            index_set_items(*old(set))
        },
{
    set.insert(item)
}

/// `IndexSet::drain` over the whole range: all items, in their order.
#[verifier::external_body]
pub(crate) fn index_set_drain(set: &mut IndexSet<(u64, u64, u64), RandomState>) -> (items: Vec<
    (u64, u64, u64),
>)
    ensures
        items@ == index_set_items(*old(set)),
        index_set_items(*final(set)) == Seq::<(u64, u64, u64)>::empty(),
{
    set.drain(..).collect()
}

} // verus!
