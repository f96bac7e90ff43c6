//! The first items of a collection by a key, whatever is between items of one key.
use vstd::multiset::Multiset;
use vstd::prelude::*;

use crate::order::{arranged, comes_before, lemma_order_exists, order_of, sorting_permutes};
use crate::posting::limited;

verus! {

broadcast use vstd::seq_lib::group_seq_properties;

/// Whether an answer lists the first items of a collection by a key, `limit` of them or all:
/// the keys do not fall, and no item that is left out has a lower key than one that is
/// listed.
pub open spec fn lists_first<T>(
    key: spec_fn(T) -> u128,
    all: Multiset<T>,
    limit: nat,
    answer: Seq<T>,
) -> bool {
    &&& answer.to_multiset().subset_of(all)
    &&& answer.len() == if limit < all.len() {
        limit
    } else {
        all.len()
    }
    &&& forall|i: int, j: int|
        0 <= i < j < answer.len() ==> key(#[trigger] answer[i]) <= key(#[trigger] answer[j])
    &&& forall|i: int, item: T|
        #![trigger answer[i], all.count(item)]
        0 <= i < answer.len() && all.count(item) > answer.to_multiset().count(item) ==> key(
            answer[i],
        ) <= key(item)
}

pub proof fn lemma_bag_adds<T>(left: Seq<T>, right: Seq<T>)
    ensures
        (left + right).to_multiset() == left.to_multiset().add(right.to_multiset()),
{
    vstd::seq_lib::lemma_multiset_commutative(left, right);
}

pub proof fn lemma_bag_has<T>(items: Seq<T>, item: T)
    ensures
        items.contains(item) <==> items.to_multiset().count(item) > 0,
        items.to_multiset().len() == items.len(),
{
    broadcast use vstd::seq_lib::group_to_multiset_ensures;

    vstd::seq_lib::to_multiset_len(items);
}

/// Sorting by keys and cutting gives the first items.
pub proof fn sorting_lists_first<T>(
    key: spec_fn(T) -> u128,
    items: Seq<T>,
    keys: Seq<u128>,
    limit: nat,
)
    requires
        items.len() <= usize::MAX,
        keys.len() == items.len(),
        forall|i: int| 0 <= i < items.len() ==> #[trigger] keys[i] == key(items[i]),
    ensures
        lists_first(
            key,
            items.to_multiset(),
            limit,
            limited(arranged(items, order_of(keys)), limit),
        ),
{
    let order = order_of(keys);
    let sorted = arranged(items, order);
    let kept = limited(sorted, limit);
    let all = items.to_multiset();
    sorting_permutes(items, keys);
    lemma_order_exists(keys);
    let rest = sorted.subrange(kept.len() as int, sorted.len() as int);
    assert(sorted =~= kept + rest);
    lemma_bag_adds(kept, rest);
    vstd::seq_lib::to_multiset_len(items);
    vstd::seq_lib::to_multiset_len(kept);
    assert forall|i: int, j: int| 0 <= i < j < sorted.len() implies key(#[trigger] sorted[i])
        <= key(#[trigger] sorted[j]) by {
        assert(comes_before(keys, order[i] as int, order[j] as int));
        assert(sorted[i] == items[order[i] as int] && sorted[j] == items[order[j] as int]);
        assert(keys[order[i] as int] == key(items[order[i] as int]));
        assert(keys[order[j] as int] == key(items[order[j] as int]));
    }
    assert forall|i: int, j: int| 0 <= i < j < kept.len() implies key(#[trigger] kept[i]) <= key(
        #[trigger] kept[j],
    ) by {
        assert(kept[i] == sorted[i] && kept[j] == sorted[j]);
    }
    assert forall|i: int, item: T|
        #![trigger kept[i], all.count(item)]
        0 <= i < kept.len() && all.count(item) > kept.to_multiset().count(item) implies key(kept[i])
        <= key(item) by {
        assert(rest.to_multiset().count(item) > 0);
        lemma_bag_has(rest, item);
        let k = choose|k: int| 0 <= k < rest.len() && rest[k] == item;
        assert(rest[k] == sorted[kept.len() + k]);
        assert(kept[i] == sorted[i]);
    }
}

/// What was cut to its first items can be taken in for the whole.
pub proof fn first_items_suffice<T>(
    key: spec_fn(T) -> u128,
    whole: Multiset<T>,
    further: Multiset<T>,
    limit: nat,
    cut: Seq<T>,
    answer: Seq<T>,
)
    requires
        lists_first(key, whole, limit, cut),
        lists_first(key, cut.to_multiset().add(further), limit, answer),
    ensures
        lists_first(key, whole.add(further), limit, answer),
{
    let part = cut.to_multiset();
    let met = part.add(further);
    let all = whole.add(further);
    let given = answer.to_multiset();
    vstd::seq_lib::to_multiset_len(cut);
    vstd::seq_lib::to_multiset_len(answer);
    assert forall|item: T| given.count(item) <= all.count(item) by {
        assert(given.count(item) <= met.count(item));
        assert(part.count(item) <= whole.count(item));
    }
    assert forall|i: int, item: T|
        #![trigger answer[i], all.count(item)]
        0 <= i < answer.len() && all.count(item) > given.count(item) implies key(answer[i]) <= key(
        item,
    ) by {
        assert(met.count(item) == part.count(item) + further.count(item));
        if met.count(item) <= given.count(item) {
            assert(whole.count(item) > part.count(item));
            if part.len() == whole.len() {
                lemma_same_size(part, whole);
            }
            assert(cut.len() == limit && answer.len() == limit);
            lemma_bag_has(answer, answer[i]);
            if part.count(answer[i]) > 0 {
                lemma_bag_has(cut, answer[i]);
                let k = choose|k: int| 0 <= k < cut.len() && cut[k] == answer[i];
                assert(key(cut[k]) <= key(item));
            } else {
                if part.subset_of(given) {
                    lemma_same_size(part, given);
                }
                let other = choose|other: T| part.count(other) > given.count(other);
                assert(part.count(other) > given.count(other));
                assert(met.count(other) > given.count(other));
                assert(key(answer[i]) <= key(other));
                lemma_bag_has(cut, other);
                let k = choose|k: int| 0 <= k < cut.len() && cut[k] == other;
                assert(key(cut[k]) <= key(item));
            }
        }
    }
}

pub proof fn lemma_same_size<T>(part: Multiset<T>, whole: Multiset<T>)
    requires
        part.subset_of(whole),
        part.len() == whole.len(),
    ensures
        part == whole,
{
    let rest = whole.sub(part);
    assert(part.add(rest) =~= whole);
    assert(rest.len() == 0);
    assert(rest =~= Multiset::<T>::empty());
    assert(part =~= whole);
}

/// What leads a list in the order of the keys comes first.
pub proof fn leading_items_come_first<T>(key: spec_fn(T) -> u128, items: Seq<T>, limit: nat)
    requires
        forall|i: int, j: int|
            0 <= i < j < items.len() ==> key(#[trigger] items[i]) <= key(#[trigger] items[j]),
    ensures
        lists_first(key, items.to_multiset(), limit, limited(items, limit)),
{
    let kept = limited(items, limit);
    let all = items.to_multiset();
    let rest = items.subrange(kept.len() as int, items.len() as int);
    assert(items =~= kept + rest);
    lemma_bag_adds(kept, rest);
    vstd::seq_lib::to_multiset_len(items);
    assert forall|i: int, j: int| 0 <= i < j < kept.len() implies key(#[trigger] kept[i]) <= key(
        #[trigger] kept[j],
    ) by {
        assert(kept[i] == items[i] && kept[j] == items[j]);
    }
    assert forall|i: int, item: T|
        #![trigger kept[i], all.count(item)]
        0 <= i < kept.len() && all.count(item) > kept.to_multiset().count(item) implies key(kept[i])
        <= key(item) by {
        lemma_bag_has(rest, item);
        let k = choose|k: int| 0 <= k < rest.len() && rest[k] == item;
        assert(rest[k] == items[kept.len() + k]);
        assert(kept[i] == items[i]);
    }
}

} // verus!
