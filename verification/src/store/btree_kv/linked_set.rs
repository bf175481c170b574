//! The insertion-ordered hash set that backs the eviction policies.
//!
//! The set itself comes from the `linked_hash_set` crate. The contracts of
//! the functions that call into it are not proved: they say what that
//! crate's methods do, as its source and documentation give it, over the
//! order in which the set holds its items.

use linked_hash_set::LinkedHashSet;
use std::collections::hash_map::RandomState;
use vstd::prelude::*;

verus! {

/// `linked_hash_set::LinkedHashSet`, of which nothing but its name is known
/// here.
#[verifier::external_type_specification]
#[verifier::external_body]
#[verifier::reject_recursive_types(T)]
#[verifier::reject_recursive_types(S)]
pub struct ExLinkedHashSet<T, S>(LinkedHashSet<T, S>);

/// The items of a `LinkedHashSet`, oldest insertion first. An item that is
/// inserted again moves to the back, so the front is the item that was
/// inserted, or inserted again, the longest time ago. The set holds no item
/// twice.
pub uninterp spec fn insertion_order(set: LinkedHashSet<usize, RandomState>) -> Seq<usize>;

/// `order` after `item` was put at its back: moved there if it was present,
/// appended if it was not.
pub open spec fn moved_to_back(order: Seq<usize>, item: usize) -> Seq<usize> {
    if order.contains(item) {
        order.remove(order.index_of(item)).push(item)
    } else {
        order.push(item)
    }
}

/// Largest capacity that a set is asked to reserve up front. Beyond it the
/// allocation size of the underlying table may not be representable.
pub const MAX_RESERVED_CAPACITY: usize = usize::MAX / 128;

/// `LinkedHashSet::with_capacity`: a new set, which holds nothing. The
/// capacity is only a hint for the allocation.
#[verifier::external_body]
pub(crate) fn linked_set_with_capacity(capacity: usize) -> (set: LinkedHashSet<usize, RandomState>)
    requires
        capacity <= MAX_RESERVED_CAPACITY,
    ensures
        insertion_order(set) == Seq::<usize>::empty(),
{
    LinkedHashSet::with_capacity(capacity)
}

/// `LinkedHashSet::len`: the number of items in the set.
#[verifier::external_body]
pub(crate) fn linked_set_len(set: &LinkedHashSet<usize, RandomState>) -> (len: usize)
    ensures
        len == insertion_order(*set).len(),
{
    set.len()
}

/// `LinkedHashSet::insert`: puts `item` at the back of the order, whether
/// the set held it or not, and leaves the other items in their order.
/// Returns whether the item was new to the set.
#[verifier::external_body]
pub(crate) fn linked_set_insert(set: &mut LinkedHashSet<usize, RandomState>, item: usize) -> (fresh:
    bool)
    ensures
        insertion_order(*final(set)) == moved_to_back(insertion_order(*old(set)), item),
        fresh == !insertion_order(*old(set)).contains(item),
{
    set.insert(item)
}

/// `LinkedHashSet::pop_front`: removes the item at the front of the order and
/// returns it; on an empty set it returns `None` and changes nothing.
#[verifier::external_body]
pub(crate) fn linked_set_pop_front(set: &mut LinkedHashSet<usize, RandomState>) -> (front: Option<
    usize,
>)
    ensures
        match front {
            Some(item) => {
                &&& insertion_order(*old(set)).len() > 0
                &&& item == insertion_order(*old(set))[0]
                &&& insertion_order(*final(set)) == insertion_order(*old(set)).drop_first()
            },
            None => {
                &&& insertion_order(*old(set)).len() == 0
                &&& insertion_order(*final(set)) == insertion_order(*old(set))
            },
        },
{
    set.pop_front()
}

/// Dropping the front keeps an order free of repetitions and adds no item.
pub proof fn lemma_drop_first_no_duplicates(order: Seq<usize>)
    requires
        order.no_duplicates(),
        order.len() > 0,
    ensures
        order.drop_first().no_duplicates(),
        !order.drop_first().contains(order[0]),
        forall|key: usize| order.drop_first().contains(key) ==> order.contains(key),
{
    let rest = order.drop_first();
    if rest.contains(order[0]) {
        let i = choose|i: int| 0 <= i < rest.len() && rest[i] == order[0];
        assert(order[i + 1] == order[0]);
    }
    assert forall|i: int, j: int| 0 <= i < j < rest.len() implies rest[i] != rest[j] by {
        assert(rest[i] == order[i + 1]);
        assert(rest[j] == order[j + 1]);
    }
    assert forall|key: usize| rest.contains(key) implies order.contains(key) by {
        let i = choose|i: int| 0 <= i < rest.len() && rest[i] == key;
        assert(order[i + 1] == key);
    }
}

/// Moving an item to the back keeps an order free of repetitions, changes
/// its length by one exactly when the item is new, and keeps every other
/// item in it.
pub proof fn lemma_moved_to_back(order: Seq<usize>, item: usize)
    requires
        order.no_duplicates(),
    ensures
        moved_to_back(order, item).no_duplicates(),
        moved_to_back(order, item).len() == if order.contains(item) {
            order.len()
        } else {
            order.len() + 1
        },
        moved_to_back(order, item).last() == item,
        forall|other: usize|
            moved_to_back(order, item).contains(other) <==> (other == item || order.contains(
                other,
            )),
{
    let moved = moved_to_back(order, item);
    if order.contains(item) {
        let at = order.index_of(item);
        let rest = order.remove(at);
        assert forall|i: int, j: int| 0 <= i < j < moved.len() implies moved[i] != moved[j] by {
            let oi = if i < at { i } else { i + 1 };
            if j < rest.len() {
                let oj = if j < at { j } else { j + 1 };
                assert(moved[i] == order[oi] && moved[j] == order[oj]);
            } else {
                assert(moved[i] == order[oi] && moved[j] == order[at]);
            }
        }
        assert forall|other: usize| moved.contains(other) <==> (other == item || order.contains(
            other,
        )) by {
            if moved.contains(other) {
                let i = choose|i: int| 0 <= i < moved.len() && moved[i] == other;
                if i < rest.len() {
                    let oi = if i < at { i } else { i + 1 };
                    assert(order[oi] == other);
                }
            }
            if order.contains(other) && other != item {
                let i = choose|i: int| 0 <= i < order.len() && order[i] == other;
                let mi = if i < at { i } else { i - 1 };
                assert(moved[mi] == other);
            }
            if other == item {
                assert(moved[moved.len() - 1] == item);
            }
        }
    } else {
        assert forall|i: int, j: int| 0 <= i < j < moved.len() implies moved[i] != moved[j] by {
            if j < order.len() {
                assert(moved[i] == order[i] && moved[j] == order[j]);
            } else {
                assert(moved[i] == order[i]);
            }
        }
        assert forall|other: usize| moved.contains(other) <==> (other == item || order.contains(
            other,
        )) by {
            if moved.contains(other) {
                let i = choose|i: int| 0 <= i < moved.len() && moved[i] == other;
                if i < order.len() {
                    assert(order[i] == other);
                }
            }
            if order.contains(other) {
                let i = choose|i: int| 0 <= i < order.len() && order[i] == other;
                assert(moved[i] == other);
            }
            if other == item {
                assert(moved[moved.len() - 1] == item);
            }
        }
    }
}

} // verus!
