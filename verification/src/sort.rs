//! Putting the members of an object in the order of their keys.

use std::borrow::Cow;

use vstd::prelude::*;
use vstd::utf8::encode_utf8;

use crate::bytes::{
    bytes_less, is_bytes_equal, is_bytes_less, lemma_bytes_less_irreflexive, lemma_bytes_less_total,
};
use crate::error::{Error, ErrorModel, ParseErrorCode};
use crate::order::{
    first_repeat, indices, key_before, key_order, key_relation, lemma_key_order_unique,
    lemma_key_relation_total, lemma_reordered_multiset, reordered,
};
use crate::text::{cow_bytes, cow_string};

verus! {

/// Objects with at most this many members are sorted by insertion.
pub const SMALL_OBJECT_SORT_LIMIT: usize = 32;

/// A value that has been written: its entry, and where in the output its bytes are.
#[derive(Debug, Clone, Copy, PartialEq, Eq)]
pub struct EncodedValue {
    pub jentry: u32,
    pub start: usize,
    pub len: usize,
}

/// A member that has been read: its key, its value and the offset in the text behind its key.
pub struct ObjectEntry<'a> {
    pub key: Cow<'a, str>,
    pub value: EncodedValue,
    pub pos: usize,
}

/// The keys of a list of members, as UTF-8.
pub open spec fn entry_keys(entries: Seq<ObjectEntry<'_>>) -> Seq<Seq<u8>> {
    entries.map_values(|e: ObjectEntry<'_>| encode_utf8(e.key@))
}

/// Indices as integers.
pub open spec fn as_ints(order: Seq<usize>) -> Seq<int> {
    order.map_values(|i: usize| i as int)
}

/// Tells whether the key at `left` is lower than the key at `right`.
fn is_key_less(entries: &[ObjectEntry<'_>], left: usize, right: usize) -> (r: bool)
    requires
        left < entries@.len(),
        right < entries@.len(),
    ensures
        r == bytes_less(entry_keys(entries@)[left as int], entry_keys(entries@)[right as int]),
{
    is_bytes_less(cow_bytes(&entries[left].key), cow_bytes(&entries[right].key))
}

/// Swapping a value with its left neighbour keeps the multiset.
proof fn lemma_swap_left(s: Seq<int>, i: int)
    requires
        0 < i < s.len(),
    ensures
        s.update(i, s[i - 1]).update(i - 1, s[i]).to_multiset() == s.to_multiset(),
{
    broadcast use vstd::seq_lib::group_to_multiset_ensures;

    let t = s.update(i, s[i - 1]);
    assert(s.contains(s[i]));
    assert(t.contains(t[i - 1]));
    assert(t.update(i - 1, s[i]).to_multiset() =~= s.to_multiset());
}

/// The keys of the members at the given indices.
pub open spec fn keys_at(entries: Seq<ObjectEntry<'_>>, order: Seq<usize>) -> Seq<Seq<u8>> {
    order.map_values(|i: usize| entry_keys(entries)[i as int])
}

/// Sorts a list of members by insertion. The result is a rearrangement of the list, ascending by
/// key, in which members with equal keys keep the order they had.
pub fn sort_small_object_order(entries: &[ObjectEntry<'_>], order: &mut Vec<usize>)
    requires
        forall|i: int| 0 <= i < old(order)@.len() ==> #[trigger] old(order)@[i] < entries@.len(),
    ensures
        final(order)@ == reordered(old(order)@, key_order(keys_at(entries@, old(order)@))),
        final(order)@.to_multiset() == old(order)@.to_multiset(),
        forall|i: int, j: int|
            0 <= i < j < final(order)@.len() ==> !bytes_less(
                entry_keys(entries@)[#[trigger] final(order)@[j] as int],
                entry_keys(entries@)[#[trigger] final(order)@[i] as int],
            ),
{
    let ghost given = order@;
    let ghost keys = keys_at(entries@, given);
    let ghost all = indices(keys.len()).to_multiset();
    // Where in the given list each index now in the list came from.
    let ghost mut places = indices(keys.len());
    let mut idx: usize = 1;
    while idx < order.len()
        invariant
            keys == keys_at(entries@, given),
            all == indices(keys.len()).to_multiset(),
            forall|i: int| 0 <= i < given.len() ==> #[trigger] given[i] < entries@.len(),
            given.len() == order@.len(),
            places.len() == order@.len(),
            idx >= 1,
            places.to_multiset() == all,
            forall|a: int| 0 <= a < places.len() ==> 0 <= #[trigger] places[a] < given.len(),
            forall|a: int| 0 <= a < order@.len() ==> #[trigger] order@[a] == given[places[a]],
            forall|a: int, b: int|
                0 <= a < b < idx && b < places.len() ==> key_before(
                    keys,
                    #[trigger] places[a],
                    #[trigger] places[b],
                ),
            forall|a: int| 0 <= a < idx && a < places.len() ==> #[trigger] places[a] < idx,
            forall|a: int| idx <= a < places.len() ==> #[trigger] places[a] == a,
        decreases order@.len() - idx,
    {
        let current: usize = order[idx];
        let mut hole: usize = idx;
        assert(places.update(idx as int, idx as int) =~= places);
        while hole > 0 && is_key_less(entries, current, order[hole - 1])
            invariant
                keys == keys_at(entries@, given),
                all == indices(keys.len()).to_multiset(),
                forall|i: int| 0 <= i < given.len() ==> #[trigger] given[i] < entries@.len(),
                given.len() == order@.len(),
                places.len() == order@.len(),
                hole <= idx < order@.len(),
                current == given[idx as int],
                places.update(hole as int, idx as int).to_multiset() == all,
                forall|a: int| 0 <= a < places.len() ==> 0 <= #[trigger] places[a] < given.len(),
                forall|a: int|
                    0 <= a < order@.len() && a != hole ==> #[trigger] order@[a]
                        == given[places[a]],
                forall|a: int, b: int|
                    0 <= a < b <= idx && a != hole && b != hole ==> key_before(
                        keys,
                        #[trigger] places[a],
                        #[trigger] places[b],
                    ),
                forall|b: int|
                    hole < b <= idx ==> bytes_less(keys[idx as int], keys[#[trigger] places[b]]),
                forall|a: int| 0 <= a <= idx && a != hole ==> #[trigger] places[a] < idx,
                forall|a: int| idx < a < places.len() ==> #[trigger] places[a] == a,
            decreases hole,
        {
            let ghost before = places;
            let previous: usize = order[hole - 1];
            order.set(hole, previous);
            proof {
                assert(order@[hole as int] == given[before[hole - 1]]);
                assert(keys[before[hole - 1]] == entry_keys(entries@)[previous as int]);
                assert(keys[idx as int] == entry_keys(entries@)[current as int]);
                let s = before.update(hole as int, idx as int);
                lemma_swap_left(s, hole as int);
                places = before.update(hole as int, before[hole - 1]);
                assert(s.update(hole as int, s[hole - 1]).update(hole - 1, s[hole as int])
                    =~= places.update(hole - 1, idx as int));
            }
            hole -= 1;
        }
        let ghost before = places;
        order.set(hole, current);
        proof {
            if hole > 0 {
                let last = before[hole - 1];
                assert(order@[hole - 1] == given[last]);
                assert(keys[last] == entry_keys(entries@)[given[last] as int]);
                assert(keys[idx as int] == entry_keys(entries@)[current as int]);
                lemma_bytes_less_total(keys[idx as int], keys[last]);
            }
            places = before.update(hole as int, idx as int);
            assert forall|a: int, b: int| 0 <= a < b < idx + 1 && b < places.len() implies key_before(
                keys,
                #[trigger] places[a],
                #[trigger] places[b],
            ) by {
                if b == hole {
                    let last = before[hole - 1];
                    if a < hole - 1 {
                        lemma_key_relation_total(keys);
                        let leq = key_relation(keys);
                        assert(leq(places[a], last));
                        assert(leq(last, idx as int));
                    }
                }
            }
        }
        idx += 1;
    }
    proof {
        let leq = key_relation(keys);
        assert forall|a: int, b: int| 0 <= a < b < places.len() implies #[trigger] leq(
            places[a],
            places[b],
        ) by {
            assert(key_before(keys, places[a], places[b]));
        }
        lemma_key_order_unique(keys, places);
        assert(order@ =~= reordered(given, key_order(keys)));
        lemma_reordered_multiset(given, key_order(keys));
        assert forall|i: int, j: int| 0 <= i < j < order@.len() implies !bytes_less(
            entry_keys(entries@)[#[trigger] order@[j] as int],
            entry_keys(entries@)[#[trigger] order@[i] as int],
        ) by {
            assert(leq(places[i], places[j]));
            assert(keys[places[i]] == entry_keys(entries@)[order@[i] as int]);
            assert(keys[places[j]] == entry_keys(entries@)[order@[j] as int]);
            lemma_bytes_less_total(keys[places[i]], keys[places[j]]);
            lemma_bytes_less_irreflexive(keys[places[i]]);
        }
    }
}

/// The indices from `low` up to `high`.
spec fn index_range(low: int, high: int) -> Seq<int> {
    Seq::new((high - low) as nat, |i: int| low + i)
}

/// The indices are those from `low` up to `high`, each once.
spec fn rearranged(order: Seq<usize>, low: int, high: int) -> bool {
    &&& as_ints(order).to_multiset() == index_range(low, high).to_multiset()
    &&& order.len() == high - low
    &&& forall|i: int| 0 <= i < order.len() ==> low <= #[trigger] order[i] < high
}

/// The indices are in the order of their keys.
spec fn in_key_order(keys: Seq<Seq<u8>>, order: Seq<usize>) -> bool {
    forall|a: int, b: int|
        0 <= a < b < order.len() ==> key_before(
            keys,
            #[trigger] order[a] as int,
            #[trigger] order[b] as int,
        )
}

/// A value that moves from the front of one list to the end of another stays in their multiset.
proof fn lemma_move(out: Seq<usize>, rest: Seq<usize>, i: int)
    requires
        0 <= i < rest.len(),
    ensures
        as_ints(out.push(rest[i])).to_multiset().add(as_ints(rest.skip(i + 1)).to_multiset())
            == as_ints(out).to_multiset().add(as_ints(rest.skip(i)).to_multiset()),
{
    let a = as_ints(out);
    let b = as_ints(rest.skip(i));
    let c = as_ints(out.push(rest[i]));
    let d = as_ints(rest.skip(i + 1));
    vstd::seq_lib::lemma_multiset_commutative(a, b);
    vstd::seq_lib::lemma_multiset_commutative(c, d);
    assert(a + b =~= c + d);
}

/// Merges two sorted lists, the first of which holds the lower indices.
fn merge(
    entries: &[ObjectEntry<'_>],
    left: &Vec<usize>,
    right: &Vec<usize>,
    Ghost(low): Ghost<int>,
    Ghost(mid): Ghost<int>,
    Ghost(high): Ghost<int>,
) -> (out: Vec<usize>)
    requires
        0 <= low <= mid <= high <= entries@.len(),
        rearranged(left@, low, mid),
        rearranged(right@, mid, high),
        in_key_order(entry_keys(entries@), left@),
        in_key_order(entry_keys(entries@), right@),
    ensures
        rearranged(out@, low, high),
        in_key_order(entry_keys(entries@), out@),
{
    let ghost keys = entry_keys(entries@);
    let ghost all = index_range(low, high).to_multiset();
    let mut out: Vec<usize> = Vec::with_capacity(left.len());
    let mut i: usize = 0;
    let mut j: usize = 0;
    proof {
        vstd::seq_lib::lemma_multiset_commutative(index_range(low, mid), index_range(mid, high));
        assert(index_range(low, mid) + index_range(mid, high) =~= index_range(low, high));
        assert(left@.skip(0) =~= left@);
        assert(right@.skip(0) =~= right@);
        assert(as_ints(out@) =~= Seq::<int>::empty());
        vstd::seq_lib::lemma_multiset_commutative(as_ints(out@), as_ints(left@));
        assert(as_ints(out@) + as_ints(left@) =~= as_ints(left@));
    }
    while i < left.len() || j < right.len()
        invariant
            keys == entry_keys(entries@),
            all == index_range(low, high).to_multiset(),
            0 <= low <= mid <= high <= entries@.len(),
            rearranged(left@, low, mid),
            rearranged(right@, mid, high),
            in_key_order(keys, left@),
            in_key_order(keys, right@),
            i <= left@.len(),
            j <= right@.len(),
            out@.len() == i + j,
            in_key_order(keys, out@),
            forall|a: int, b: int|
                0 <= a < out@.len() && i <= b < left@.len() ==> key_before(
                    keys,
                    #[trigger] out@[a] as int,
                    #[trigger] left@[b] as int,
                ),
            forall|a: int, b: int|
                0 <= a < out@.len() && j <= b < right@.len() ==> key_before(
                    keys,
                    #[trigger] out@[a] as int,
                    #[trigger] right@[b] as int,
                ),
            forall|a: int| 0 <= a < out@.len() ==> low <= #[trigger] out@[a] < high,
            as_ints(out@).to_multiset().add(as_ints(left@.skip(i as int)).to_multiset()).add(
                as_ints(right@.skip(j as int)).to_multiset(),
            ) == all,
        decreases left@.len() - i + right@.len() - j,
    {
        let take_left = j >= right.len() || (i < left.len() && !is_key_less(
            entries,
            right[j],
            left[i],
        ));
        let ghost before = out@;
        proof {
            lemma_key_relation_total(keys);
            let leq = key_relation(keys);
            if i < left@.len() && j < right@.len() {
                let l = left@[i as int] as int;
                let r = right@[j as int] as int;
                lemma_bytes_less_total(keys[l], keys[r]);
                if take_left {
                    assert(leq(l, r));
                    assert forall|b: int| j <= b < right@.len() implies key_before(
                        keys,
                        l,
                        #[trigger] right@[b] as int,
                    ) by {
                        if b > j {
                            assert(leq(r, right@[b] as int));
                        }
                    }
                } else {
                    assert(leq(r, l));
                    assert forall|b: int| i <= b < left@.len() implies key_before(
                        keys,
                        r,
                        #[trigger] left@[b] as int,
                    ) by {
                        if b > i {
                            assert(leq(l, left@[b] as int));
                        }
                    }
                }
            }
        }
        if take_left {
            out.push(left[i]);
            proof {
                lemma_move(before, left@, i as int);
            }
            i += 1;
        } else {
            out.push(right[j]);
            proof {
                lemma_move(before, right@, j as int);
                let l = as_ints(left@.skip(i as int)).to_multiset();
                let a = as_ints(before).to_multiset();
                let b = as_ints(right@.skip(j as int)).to_multiset();
                let c = as_ints(out@).to_multiset();
                let d = as_ints(right@.skip(j + 1)).to_multiset();
                assert(a.add(l).add(b) =~= a.add(b).add(l));
                assert(c.add(l).add(d) =~= c.add(d).add(l));
            }
            j += 1;
        }
    }
    proof {
        assert(as_ints(left@.skip(i as int)) =~= Seq::<int>::empty());
        assert(as_ints(right@.skip(j as int)) =~= Seq::<int>::empty());
        let o = as_ints(out@);
        vstd::seq_lib::lemma_multiset_commutative(o, Seq::<int>::empty());
        assert(o + Seq::<int>::empty() =~= o);
    }
    out
}

/// Sorts the members from `low` up to `high` by merging.
fn sort_object_range(entries: &[ObjectEntry<'_>], low: usize, high: usize) -> (out: Vec<usize>)
    requires
        low < high <= entries@.len(),
    ensures
        rearranged(out@, low as int, high as int),
        in_key_order(entry_keys(entries@), out@),
    decreases high - low,
{
    if high - low == 1 {
        let mut out: Vec<usize> = Vec::with_capacity(1);
        out.push(low);
        assert(as_ints(out@) =~= index_range(low as int, high as int));
        return out;
    }
    let mid: usize = low + (high - low) / 2;
    let left = sort_object_range(entries, low, mid);
    let right = sort_object_range(entries, mid, high);
    merge(entries, &left, &right, Ghost(low as int), Ghost(mid as int), Ghost(high as int))
}

/// Sorts the members of an object. Equal keys keep the order they came in.
pub fn sort_object_order(entries: &[ObjectEntry<'_>]) -> (order: Vec<usize>)
    ensures
        as_ints(order@) == key_order(entry_keys(entries@)),
{
    let ghost keys = entry_keys(entries@);
    let order = if entries.len() == 0 {
        Vec::new()
    } else {
        sort_object_range(entries, 0, entries.len())
    };
    proof {
        assert(index_range(0, entries@.len() as int) =~= indices(keys.len()));
        let ints = as_ints(order@);
        let leq = key_relation(keys);
        assert forall|a: int, b: int| 0 <= a < b < ints.len() implies #[trigger] leq(
            ints[a],
            ints[b],
        ) by {
            assert(key_before(keys, order@[a] as int, order@[b] as int));
        }
        if entries@.len() == 0 {
            assert(ints =~= indices(keys.len()));
        }
        lemma_key_order_unique(keys, ints);
    }
    order
}

/// Refuses a list of members in which two neighbours have the same key.
pub fn check_duplicate_keys(entries: &[ObjectEntry<'_>], order: &Vec<usize>) -> (r: Result<
    (),
    Error,
>)
    requires
        forall|i: int| 0 <= i < order@.len() ==> #[trigger] order@[i] < entries@.len(),
    ensures
        match first_repeat(entry_keys(entries@), as_ints(order@), 0) {
            Some(i) => r matches Err(e) && e@ == ErrorModel::DuplicateKey(
                entries@[i].key@,
                entries@[i].pos as int,
            ),
            None => r is Ok,
        },
{
    let ghost keys = entry_keys(entries@);
    assert(as_ints(order@).len() == order@.len());
    let mut i: usize = 1;
    while i < order.len()
        invariant
            i >= 1,
            keys == entry_keys(entries@),
            forall|i: int| 0 <= i < order@.len() ==> #[trigger] order@[i] < entries@.len(),
            first_repeat(keys, as_ints(order@), 0) == first_repeat(keys, as_ints(order@), i - 1),
        decreases order@.len() - i,
    {
        let previous = &entries[order[i - 1]];
        let current = &entries[order[i]];
        if is_bytes_equal(cow_bytes(&previous.key), cow_bytes(&current.key)) {
            return Err(
                Error::Syntax(
                    ParseErrorCode::ObjectDuplicateKey(cow_string(&current.key)),
                    current.pos,
                ),
            );
        }
        i += 1;
    }
    Ok(())
}

} // verus!
