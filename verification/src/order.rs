//! The order in which the members of an object are stored.

use vstd::prelude::*;
use vstd::relations::{sorted_by, total_ordering};
use vstd::seq_lib::lemma_sorted_unique;

use crate::bytes::{
    bytes_less, lemma_bytes_less_irreflexive, lemma_bytes_less_total, lemma_bytes_less_transitive,
};

verus! {

/// The `i`th key stands before the `j`th or is the `j`th: it is lower, or they are equal and it
/// comes first.
pub open spec fn key_before(keys: Seq<Seq<u8>>, i: int, j: int) -> bool {
    bytes_less(keys[i], keys[j]) || (keys[i] == keys[j] && i <= j)
}

/// [`key_before`] as a relation between indices.
pub open spec fn key_relation(keys: Seq<Seq<u8>>) -> spec_fn(int, int) -> bool {
    |i: int, j: int| key_before(keys, i, j)
}

/// The indices below `n` in ascending order.
pub open spec fn indices(n: nat) -> Seq<int> {
    Seq::new(n, |i: int| i)
}

/// The indices of the keys in the order of the keys; equal keys keep the order they came in.
pub open spec fn key_order(keys: Seq<Seq<u8>>) -> Seq<int> {
    indices(keys.len()).sort_by(key_relation(keys))
}

/// The index of the second of the first two neighbours in `order`, from place `i` on, whose keys
/// are equal.
pub open spec fn first_repeat(keys: Seq<Seq<u8>>, order: Seq<int>, i: int) -> Option<int>
    decreases order.len() - i,
{
    if i < 0 || i + 1 >= order.len() {
        None
    } else if keys[order[i]] == keys[order[i + 1]] {
        Some(order[i + 1])
    } else {
        first_repeat(keys, order, i + 1)
    }
}

/// The key that makes a list of keys unfit for an object: the lowest that occurs twice, where it
/// occurs for the second time.
pub open spec fn repeated_key(keys: Seq<Seq<u8>>) -> Option<int> {
    first_repeat(keys, key_order(keys), 0)
}

/// Indices are totally ordered by their keys.
pub proof fn lemma_key_relation_total(keys: Seq<Seq<u8>>)
    ensures
        total_ordering(key_relation(keys)),
{
    let leq = key_relation(keys);
    assert forall|i: int, j: int| #[trigger] leq(i, j) && #[trigger] leq(j, i) implies i == j by {
        lemma_bytes_less_total(keys[i], keys[j]);
        lemma_bytes_less_irreflexive(keys[i]);
    }
    assert forall|i: int, j: int, k: int| #[trigger] leq(i, j) && #[trigger] leq(j, k) implies leq(
        i,
        k,
    ) by {
        if bytes_less(keys[i], keys[j]) && bytes_less(keys[j], keys[k]) {
            lemma_bytes_less_transitive(keys[i], keys[j], keys[k]);
        }
    }
    assert forall|i: int, j: int| #[trigger] leq(i, j) || #[trigger] leq(j, i) by {
        lemma_bytes_less_total(keys[i], keys[j]);
    }
}

/// A sorted rearrangement of the indices is the order of the keys.
pub proof fn lemma_key_order_unique(keys: Seq<Seq<u8>>, order: Seq<int>)
    requires
        sorted_by(order, key_relation(keys)),
        order.to_multiset() == indices(keys.len()).to_multiset(),
    ensures
        order == key_order(keys),
{
    let leq = key_relation(keys);
    lemma_key_relation_total(keys);
    indices(keys.len()).lemma_sort_by_ensures(leq);
    lemma_sorted_unique(order, key_order(keys), leq);
}

/// Every index of a rearrangement is an index.
pub proof fn lemma_rearranged_in_range(order: Seq<int>, n: nat)
    requires
        order.to_multiset() == indices(n).to_multiset(),
    ensures
        order.len() == n,
        forall|i: int| 0 <= i < order.len() ==> 0 <= #[trigger] order[i] < n,
{
    broadcast use vstd::seq_lib::group_to_multiset_ensures;

    assert(order.len() == order.to_multiset().len());
    assert(indices(n).len() == indices(n).to_multiset().len());
    assert forall|i: int| 0 <= i < order.len() implies 0 <= #[trigger] order[i] < n by {
        assert(order.contains(order[i]));
        assert(order.to_multiset().count(order[i]) > 0);
        assert(indices(n).contains(order[i]));
    }
}

/// The order of the keys holds every index once, in the order of the keys.
pub proof fn lemma_key_order(keys: Seq<Seq<u8>>)
    ensures
        sorted_by(key_order(keys), key_relation(keys)),
        key_order(keys).to_multiset() == indices(keys.len()).to_multiset(),
        key_order(keys).len() == keys.len(),
        forall|i: int|
            0 <= i < keys.len() ==> 0 <= #[trigger] key_order(keys)[i] < keys.len(),
        key_order(keys).no_duplicates(),
{
    lemma_key_relation_total(keys);
    indices(keys.len()).lemma_sort_by_ensures(key_relation(keys));
    lemma_rearranged_in_range(key_order(keys), keys.len());
    assert(indices(keys.len()).no_duplicates());
    indices(keys.len()).lemma_multiset_has_no_duplicates();
    let order = key_order(keys);
    assert(order.to_multiset() =~= indices(keys.len()).to_multiset());
    order.lemma_multiset_has_no_duplicates_conv();
}

/// The key that is found to be repeated is one of the keys.
pub proof fn lemma_first_repeat_in_range(keys: Seq<Seq<u8>>, order: Seq<int>, i: int)
    requires
        0 <= i,
        forall|j: int| 0 <= j < order.len() ==> 0 <= #[trigger] order[j] < keys.len(),
    ensures
        first_repeat(keys, order, i) matches Some(k) ==> 0 <= k < keys.len(),
    decreases order.len() - i,
{
    if i + 1 < order.len() {
        lemma_first_repeat_in_range(keys, order, i + 1);
    }
}

/// The items of a list in the order that a list of indices gives.
pub open spec fn reordered<T>(items: Seq<T>, order: Seq<int>) -> Seq<T> {
    order.map_values(|i: int| items[i])
}

/// A list that is rearranged by all its indices has the same items.
pub proof fn lemma_reordered_multiset<T>(items: Seq<T>, order: Seq<int>)
    requires
        order.to_multiset() == indices(items.len()).to_multiset(),
    ensures
        reordered(items, order).to_multiset() == items.to_multiset(),
{
    let pick = |i: int| items[i];
    let all = indices(items.len());
    assert(all.map_values(pick) =~= items);
    lemma_map_multiset(order, all, pick);
}

/// Lists with the same elements give, element by element, lists with the same elements.
pub proof fn lemma_map_multiset<S, T>(a: Seq<S>, b: Seq<S>, pick: spec_fn(S) -> T)
    requires
        a.to_multiset() == b.to_multiset(),
    ensures
        a.map_values(pick).to_multiset() == b.map_values(pick).to_multiset(),
    decreases a.len(),
{
    broadcast use vstd::seq_lib::group_to_multiset_ensures;

    assert(a.len() == a.to_multiset().len());
    assert(b.len() == b.to_multiset().len());
    if a.len() == 0 {
        assert(a =~= b);
    } else {
        let x = a.last();
        let front = a.drop_last();
        assert(a.contains(a[a.len() - 1]));
        assert(b.to_multiset().count(x) > 0);
        assert(b.contains(x));
        let i = choose|i: int| 0 <= i < b.len() && b[i] == x;
        let rest = b.remove(i);
        assert(a =~= front.push(x));
        assert(front.to_multiset() =~= a.to_multiset().remove(x));
        assert(rest.to_multiset() =~= b.to_multiset().remove(x));
        lemma_map_multiset(front, rest, pick);
        assert(a.map_values(pick) =~= front.map_values(pick).push(pick(x)));
        assert(rest.map_values(pick) =~= b.map_values(pick).remove(i));
        assert(b.map_values(pick).contains(b.map_values(pick)[i]));
        assert(b.map_values(pick).to_multiset() =~= rest.map_values(pick).to_multiset().insert(
            pick(x),
        ));
    }
}

} // verus!
