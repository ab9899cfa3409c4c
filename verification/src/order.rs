//! Sorting by a key, for sequences of any kind. The sort is stable: items of
//! one key stay in the order they had. It is said here what the sorted
//! sequence is, and a vector is sorted in place.

use vstd::prelude::*;

verus! {

/// No item stands before one of a smaller key.
pub open spec fn in_order<T>(items: Seq<T>, key: spec_fn(T) -> nat) -> bool {
    forall|i: int, j: int|
        0 <= i <= j < items.len() ==> key(#[trigger] items[i]) <= key(#[trigger] items[j])
}

/// The place of an item of the key `at`: behind the last item whose key is
/// not greater, and so behind every item of the same key.
pub open spec fn slot<T>(items: Seq<T>, key: spec_fn(T) -> nat, at: nat) -> int
    decreases items.len(),
{
    if items.len() == 0 || key(items.last()) <= at {
        items.len() as int
    } else {
        slot(items.drop_last(), key, at)
    }
}

/// The sequence with `item` put in its place.
pub open spec fn placed<T>(items: Seq<T>, key: spec_fn(T) -> nat, item: T) -> Seq<T> {
    items.insert(slot(items, key, key(item)), item)
}

/// The sequence sorted by key, items of one key staying in the order they
/// had: each item in turn is put in its place among those before it.
pub open spec fn sorted<T>(items: Seq<T>, key: spec_fn(T) -> nat) -> Seq<T>
    decreases items.len(),
{
    if items.len() == 0 {
        items
    } else {
        placed(sorted(items.drop_last(), key), key, items.last())
    }
}

/// Where an item's place lies: within the sequence, behind an item whose key
/// is not greater (if behind any), and before none but items of greater keys.
pub proof fn lemma_slot<T>(items: Seq<T>, key: spec_fn(T) -> nat, at: nat)
    ensures
        0 <= slot(items, key, at) <= items.len(),
        slot(items, key, at) > 0 ==> key(items[slot(items, key, at) - 1]) <= at,
        forall|i: int| slot(items, key, at) <= i < items.len() ==> key(#[trigger] items[i]) > at,
    decreases items.len(),
{
    if items.len() == 0 || key(items.last()) <= at {
    } else {
        let rest = items.drop_last();
        lemma_slot(rest, key, at);
        assert forall|i: int| slot(items, key, at) <= i < items.len() implies key(
            #[trigger] items[i],
        ) > at by {
            if i < rest.len() {
                assert(rest[i] == items[i]);
            }
        }
    }
}

/// All but the last item of a sequence in order are in order.
pub proof fn lemma_in_order_drop_last<T>(items: Seq<T>, key: spec_fn(T) -> nat)
    requires
        in_order(items, key),
        items.len() > 0,
    ensures
        in_order(items.drop_last(), key),
{
    let rest = items.drop_last();
    assert forall|i: int, j: int| 0 <= i <= j < rest.len() implies key(#[trigger] rest[i]) <= key(
        #[trigger] rest[j],
    ) by {
        assert(rest[i] == items[i] && rest[j] == items[j]);
    }
}

/// Putting an item in its place keeps a sequence in order.
pub proof fn lemma_placed_in_order<T>(items: Seq<T>, key: spec_fn(T) -> nat, item: T)
    requires
        in_order(items, key),
    ensures
        in_order(placed(items, key, item), key),
{
    let at = key(item);
    let k = slot(items, key, at);
    lemma_slot(items, key, at);
    let after = placed(items, key, item);
    assert forall|i: int, j: int| 0 <= i <= j < after.len() implies key(#[trigger] after[i]) <= key(
        #[trigger] after[j],
    ) by {
        if i < k {
            assert(after[i] == items[i]);
            assert(key(items[i]) <= key(items[k - 1]));
        }
        if j > k {
            assert(after[j] == items[j - 1]);
        }
        if i > k {
            assert(after[i] == items[i - 1]);
        }
        if j < k {
            assert(after[j] == items[j]);
        }
    }
}

/// A sorted sequence is in order.
pub proof fn lemma_sorted_in_order<T>(items: Seq<T>, key: spec_fn(T) -> nat)
    ensures
        in_order(sorted(items, key), key),
    decreases items.len(),
{
    if items.len() > 0 {
        lemma_sorted_in_order(items.drop_last(), key);
        lemma_placed_in_order(sorted(items.drop_last(), key), key, items.last());
    }
}

/// Sorting neither adds an item nor loses one.
pub proof fn lemma_sorted_permutes<T>(items: Seq<T>, key: spec_fn(T) -> nat)
    ensures
        sorted(items, key).to_multiset() == items.to_multiset(),
        sorted(items, key).len() == items.len(),
    decreases items.len(),
{
    broadcast use vstd::seq_lib::group_to_multiset_ensures;

    if items.len() > 0 {
        let rest = items.drop_last();
        let before = sorted(rest, key);
        lemma_sorted_permutes(rest, key);
        let k = slot(before, key, key(items.last()));
        lemma_slot(before, key, key(items.last()));
        let after = before.insert(k, items.last());
        assert(after.remove(k) =~= before);
        assert(after.remove(k).to_multiset() == after.to_multiset().remove(after[k]));
        assert(after.to_multiset().count(after[k]) > 0) by {
            assert(after.contains(after[k]));
        }
        assert(after.to_multiset() =~= before.to_multiset().insert(items.last()));
        assert(items =~= rest.push(items.last()));
        assert(items.to_multiset() =~= rest.to_multiset().insert(items.last()));
    }
}

/// Sorting a sequence that is in order changes nothing.
pub proof fn lemma_sorted_of_in_order<T>(items: Seq<T>, key: spec_fn(T) -> nat)
    requires
        in_order(items, key),
    ensures
        sorted(items, key) == items,
    decreases items.len(),
{
    if items.len() > 0 {
        let rest = items.drop_last();
        lemma_in_order_drop_last(items, key);
        lemma_sorted_of_in_order(rest, key);
        if rest.len() > 0 {
            assert(rest.last() == items[items.len() - 2]);
            assert(key(items[items.len() - 2]) <= key(items[items.len() - 1]));
        }
        assert(slot(rest, key, key(items.last())) == rest.len());
        assert(rest.insert(rest.len() as int, items.last()) =~= items);
    }
}

/// An item whose key is not smaller than that of the last one can be appended
/// to a sequence in order, and the sequence stays in order.
pub proof fn lemma_push_in_order<T>(items: Seq<T>, key: spec_fn(T) -> nat, item: T)
    requires
        in_order(items, key),
        items.len() > 0 ==> key(items.last()) <= key(item),
    ensures
        in_order(items.push(item), key),
{
    let after = items.push(item);
    assert forall|i: int, j: int| 0 <= i <= j < after.len() implies key(#[trigger] after[i]) <= key(
        #[trigger] after[j],
    ) by {
        if j < items.len() {
            assert(after[i] == items[i] && after[j] == items[j]);
        } else if i < items.len() {
            assert(after[i] == items[i]);
            assert(key(items[i]) <= key(items[items.len() - 1]));
        }
    }
}

/// Items that are seen through a function which keeps their keys have the
/// same place seen through it as unseen.
pub proof fn lemma_slot_seen<A, B>(
    items: Seq<A>,
    see: spec_fn(A) -> B,
    key: spec_fn(A) -> nat,
    seen_key: spec_fn(B) -> nat,
    at: nat,
)
    requires
        forall|a: A| #[trigger] key(a) == seen_key(see(a)),
    ensures
        slot(items.map_values(see), seen_key, at) == slot(items, key, at),
    decreases items.len(),
{
    let seen = items.map_values(see);
    if items.len() > 0 {
        assert(seen.last() == see(items.last()));
        assert(key(items.last()) == seen_key(see(items.last())));
        assert(seen.drop_last() =~= items.drop_last().map_values(see));
        lemma_slot_seen(items.drop_last(), see, key, seen_key, at);
    }
}

/// Sorting and seeing the items through a function which keeps their keys
/// can be done in either order.
pub proof fn lemma_sorted_seen<A, B>(
    items: Seq<A>,
    see: spec_fn(A) -> B,
    key: spec_fn(A) -> nat,
    seen_key: spec_fn(B) -> nat,
)
    requires
        forall|a: A| #[trigger] key(a) == seen_key(see(a)),
    ensures
        sorted(items, key).map_values(see) == sorted(items.map_values(see), seen_key),
    decreases items.len(),
{
    let seen = items.map_values(see);
    if items.len() == 0 {
        assert(sorted(items, key).map_values(see) =~= sorted(seen, seen_key));
    } else {
        let rest = items.drop_last();
        lemma_sorted_seen(rest, see, key, seen_key);
        assert(seen.drop_last() =~= rest.map_values(see));
        assert(seen.last() == see(items.last()));
        assert(key(items.last()) == seen_key(see(items.last())));
        let before = sorted(rest, key);
        lemma_slot_seen(before, see, key, seen_key, key(items.last()));
        lemma_slot(before, key, key(items.last()));
        assert(placed(before, key, items.last()).map_values(see) =~= placed(
            before.map_values(see),
            seen_key,
            see(items.last()),
        ));
    }
}

/// What can be sorted: each value has a key, and two values can be asked
/// which has the smaller one.
pub trait Keyed {
    /// The key of the value.
    spec fn key(&self) -> nat;

    /// Whether the key of this value is smaller than that of `other`.
    fn key_lt(&self, other: &Self) -> (smaller: bool)
        ensures
            smaller == (self.key() < other.key()),
    ;
}

/// The function that gives each value its key.
pub open spec fn key_of<T: Keyed>() -> spec_fn(T) -> nat {
    |item: T| item.key()
}

/// Sorts the items by key, items of one key staying in the order they had.
/// An item is moved only where one of a greater key stands before it.
pub fn sort_stable<T: Keyed>(items: &mut Vec<T>)
    ensures
        final(items)@ == sorted(old(items)@, key_of::<T>()),
{
    let ghost given = items@;
    let ghost key = key_of::<T>();
    let mut k: usize = 0;
    assert(items@.take(0) =~= sorted(given.take(0), key));
    while k < items.len()
        invariant
            k <= items@.len(),
            items@.len() == given.len(),
            key == key_of::<T>(),
            items@.take(k as int) == sorted(given.take(k as int), key),
            items@.skip(k as int) == given.skip(k as int),
        decreases items@.len() - k,
    {
        let ghost before = items@.take(k as int);
        let ghost next = given[k as int];
        let ghost start = items@;
        proof {
            assert forall|i: int| k < i < given.len() implies start[i] == given[i] by {
                assert(start.skip(k as int)[i - k] == given.skip(k as int)[i - k]);
            }
            assert(given.take(k + 1).drop_last() =~= given.take(k as int));
            assert(given.take(k + 1).last() == next);
            assert(start.skip(k as int)[0] == next);
            assert(start[k as int] == next);
        }
        if k > 0 && items[k].key_lt(&items[k - 1]) {
            let item = items.remove(k);
            let ghost rest = items@;
            assert(rest.take(k as int) =~= before);
            assert(rest.skip(k as int) =~= given.skip(k + 1));
            let mut j: usize = k - 1;
            assert(before.drop_last() =~= before.take(j as int));
            while j > 0 && item.key_lt(&items[j - 1])
                invariant
                    j < k <= items@.len(),
                    items@ == rest,
                    rest.take(k as int) == before,
                    before.len() == k,
                    item == next,
                    key == key_of::<T>(),
                    slot(before, key, key(next)) == slot(before.take(j as int), key, key(next)),
                decreases j,
            {
                proof {
                    assert(before.take(j as int).last() == rest[j - 1]);
                    assert(before.take(j as int).drop_last() =~= before.take(j - 1));
                }
                j -= 1;
            }
            proof {
                if j > 0 {
                    assert(before.take(j as int).last() == rest[j - 1]);
                }
                assert(slot(before, key, key(next)) == j);
            }
            items.insert(j, item);
            proof {
                let after = items@;
                assert(after =~= rest.insert(j as int, next));
                assert(after.take(k + 1) =~= placed(before, key, next));
                assert(after.skip(k + 1) =~= given.skip(k + 1));
            }
        } else {
            proof {
                let now = items@;
                if k > 0 {
                    assert(before.last() == now[k - 1]);
                }
                assert(slot(before, key, key(next)) == k);
                assert(now.take(k + 1) =~= placed(before, key, next));
                assert(now.skip(k + 1) =~= given.skip(k + 1));
            }
        }
        k += 1;
    }
    proof {
        assert(items@.take(k as int) =~= items@);
        assert(given.take(k as int) =~= given);
    }
}

} // verus!
