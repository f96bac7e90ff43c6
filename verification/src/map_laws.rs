//! What label maps hold after pairs are put in.
use vstd::prelude::*;

use crate::codec::{lemma_text_less_total, text_less};
use crate::labels::{
    ascending, collect_pairs, extend_pairs, has_key, insert_pair, lemma_ascending_unique,
    lemma_insert_pair_ascending, lemma_insert_pair_keys, lemma_lookup_at, lemma_lookup_none,
    lookup, Pairs,
};

verus! {

broadcast use vstd::seq_lib::group_seq_properties;

/// Putting in a pair gives its key the value and leaves all other keys as they were.
pub proof fn inserting_binds_one_key(
    map: Pairs,
    key: Seq<char>,
    value: Seq<char>,
    other: Seq<char>,
    bound: Seq<char>,
)
    requires
        ascending(map),
    ensures
        insert_pair(map, key, value).contains((other, bound)) <==> if other == key {
            bound == value
        } else {
            map.contains((other, bound))
        },
        ascending(insert_pair(map, key, value)),
    decreases map.len(),
{
    let result = insert_pair(map, key, value);
    let wanted = (other, bound);
    lemma_insert_pair_ascending(map, key, value);
    lemma_insert_pair_keys(map, key, value);
    let own = choose|i: int| 0 <= i < result.len() && #[trigger] result[i].0 == key;
    lemma_bound_once(result, key, value);
    if other != key {
        lemma_kept(map, key, value, wanted);
    }
    if result.contains(wanted) {
        let i = choose|i: int| 0 <= i < result.len() && result[i] == wanted;
        if other == key {
            lemma_ascending_unique(result, i, own);
        } else {
            assert(result[i] == (key, value) || map.contains(result[i]));
        }
    }
}

/// The pair of a key that is looked up is there.
proof fn lemma_bound_once(map: Pairs, key: Seq<char>, value: Seq<char>)
    requires
        lookup(map, key) == Some(value),
    ensures
        map.contains((key, value)),
        ascending(map) ==> forall|i: int|
            0 <= i < map.len() && (#[trigger] map[i]).0 == key ==> map[i].1 == value,
    decreases map.len(),
{
    if map.len() > 0 {
        if map[0].0 == key {
            assert(map[0] == (key, value));
            assert(map.contains(map[0]));
            if ascending(map) {
                assert forall|i: int| 0 <= i < map.len() && (#[trigger] map[i]).0
                    == key implies map[i].1 == value by {
                    lemma_ascending_unique(map, 0, i);
                }
            }
        } else {
            let rest = map.drop_first();
            lemma_bound_once(rest, key, value);
            let k = choose|k: int| 0 <= k < rest.len() && rest[k] == (key, value);
            assert(map[k + 1] == rest[k]);
            if ascending(map) {
                assert forall|i: int| 0 <= i < map.len() && (#[trigger] map[i]).0
                    == key implies map[i].1 == value by {
                    lemma_ascending_unique(map, k + 1, i);
                }
            }
        }
    }
}

proof fn lemma_kept(map: Pairs, key: Seq<char>, value: Seq<char>, pair: (Seq<char>, Seq<char>))
    requires
        pair.0 != key,
    ensures
        map.contains(pair) ==> insert_pair(map, key, value).contains(pair),
    decreases map.len(),
{
    let result = insert_pair(map, key, value);
    if map.contains(pair) {
        let k = choose|k: int| 0 <= k < map.len() && map[k] == pair;
        if map[0].0 == key {
            assert(result[k] == map[k]);
        } else if text_less(key, map[0].0) {
            assert(result[k + 1] == map[k]);
        } else {
            let rest = map.drop_first();
            lemma_kept(rest, key, value, pair);
            if k == 0 {
                assert(result[0] == map[0]);
            } else {
                assert(rest[k - 1] == pair);
                let tail = insert_pair(rest, key, value);
                let m = choose|m: int| 0 <= m < tail.len() && tail[m] == pair;
                assert(result[m + 1] == tail[m]);
            }
        }
    }
}

/// A lookup gives the value of the key's pair, and nothing exactly where no pair has the key.
pub proof fn lookup_finds_the_pair(map: Pairs, key: Seq<char>)
    requires
        ascending(map),
    ensures
        forall|value: Seq<char>|
            lookup(map, key) == Some(value) <==> #[trigger] map.contains((key, value)),
        lookup(map, key) is None <==> forall|i: int|
            0 <= i < map.len() ==> (#[trigger] map[i]).0 != key,
{
    lemma_lookup_none(map, key);
    assert forall|value: Seq<char>|
        lookup(map, key) == Some(value) <==> #[trigger] map.contains((key, value)) by {
        if map.contains((key, value)) {
            let k = choose|k: int| 0 <= k < map.len() && map[k] == (key, value);
            assert forall|i: int| 0 <= i < k implies #[trigger] map[i].0 != key by {
                lemma_text_less_total(map[i].0, map[k].0);
            }
            lemma_lookup_at(map, key, k);
        }
        if lookup(map, key) == Some(value) {
            lemma_bound_once(map, key, value);
        }
    }
    if lookup(map, key) is None {
        assert forall|i: int| 0 <= i < map.len() implies (#[trigger] map[i]).0 != key by {
            if map[i].0 == key {
                assert(has_key(map, key));
            }
        }
    } else {
        assert(has_key(map, key));
        let i = choose|i: int| 0 <= i < map.len() && #[trigger] map[i].0 == key;
        assert(map[i].0 == key);
    }
}

/// Whether the last of the pairs with a key binds it to a value.
pub open spec fn binds_last(pairs: Pairs, key: Seq<char>, value: Seq<char>) -> bool {
    exists|i: int|
        {
            &&& 0 <= i < pairs.len()
            &&& #[trigger] pairs[i] == (key, value)
            &&& forall|j: int| i < j < pairs.len() ==> (#[trigger] pairs[j]).0 != key
        }
}

pub proof fn lemma_binds_last_push(pairs: Pairs, key: Seq<char>, value: Seq<char>)
    requires
        pairs.len() > 0,
    ensures
        binds_last(pairs, key, value) <==> if pairs.last().0 == key {
            pairs.last().1 == value
        } else {
            binds_last(pairs.drop_last(), key, value)
        },
{
    let front = pairs.drop_last();
    let end = pairs.len() - 1;
    assert(pairs[end] == pairs.last());
    if binds_last(pairs, key, value) {
        let i = choose|i: int|
            {
                &&& 0 <= i < pairs.len()
                &&& #[trigger] pairs[i] == (key, value)
                &&& forall|j: int| i < j < pairs.len() ==> (#[trigger] pairs[j]).0 != key
            };
        if i < end {
            assert(pairs[end].0 != key);
            assert(front[i] == (key, value));
            assert forall|j: int| i < j < front.len() implies (#[trigger] front[j]).0 != key by {
                assert(front[j] == pairs[j]);
            }
        }
    }
    if pairs.last() == (key, value) {
        assert(pairs[end] == (key, value));
    }
    if pairs.last().0 != key && binds_last(front, key, value) {
        let i = choose|i: int|
            {
                &&& 0 <= i < front.len()
                &&& #[trigger] front[i] == (key, value)
                &&& forall|j: int| i < j < front.len() ==> (#[trigger] front[j]).0 != key
            };
        assert(pairs[i] == (key, value));
        assert forall|j: int| i < j < pairs.len() implies (#[trigger] pairs[j]).0 != key by {
            if j < end {
                assert(pairs[j] == front[j]);
            }
        }
    }
}

/// A map that pairs are put into binds each key to the last value that it was given.
pub proof fn collecting_keeps_last_values(pairs: Pairs, key: Seq<char>, value: Seq<char>)
    ensures
        collect_pairs(pairs).contains((key, value)) <==> exists|i: int|
            {
                &&& 0 <= i < pairs.len()
                &&& #[trigger] pairs[i] == (key, value)
                &&& forall|j: int| i < j < pairs.len() ==> (#[trigger] pairs[j]).0 != key
            },
        ascending(collect_pairs(pairs)),
    decreases pairs.len(),
{
    if pairs.len() > 0 {
        let front = pairs.drop_last();
        collecting_keeps_last_values(front, key, value);
        inserting_binds_one_key(
            collect_pairs(front),
            pairs.last().0,
            pairs.last().1,
            key,
            value,
        );
        lemma_binds_last_push(pairs, key, value);
        assert(binds_last(front, key, value) <==> collect_pairs(front).contains((key, value)));
    }
    assert(collect_pairs(pairs).contains((key, value)) <==> binds_last(pairs, key, value));
}

/// A map that is extended takes the values of the other map and keeps what it does not bind.
pub proof fn extending_overrides(map: Pairs, more: Pairs, key: Seq<char>, value: Seq<char>)
    requires
        ascending(map),
        ascending(more),
    ensures
        extend_pairs(map, more).contains((key, value)) <==> more.contains((key, value)) || (
        map.contains((key, value)) && forall|i: int|
            0 <= i < more.len() ==> (#[trigger] more[i]).0 != key),
        ascending(extend_pairs(map, more)),
    decreases more.len(),
{
    if more.len() > 0 {
        let front = more.drop_last();
        let last = more.last();
        let end = more.len() - 1;
        assert(more[end] == last);
        assert(ascending(front));
        extending_overrides(map, front, key, value);
        inserting_binds_one_key(extend_pairs(map, front), last.0, last.1, key, value);
        if front.contains((key, value)) {
            let k = choose|k: int| 0 <= k < front.len() && front[k] == (key, value);
            assert(more[k] == front[k]);
            lemma_text_less_total(more[k].0, more[end].0);
        }
        if more.contains((key, value)) {
            let k = choose|k: int| 0 <= k < more.len() && more[k] == (key, value);
            if k < end {
                assert(front[k] == more[k]);
                lemma_text_less_total(more[k].0, more[end].0);
            }
        }
        if last.0 == key && last.1 == value {
            assert(more.contains((key, value)));
        }
        if forall|i: int| 0 <= i < more.len() ==> (#[trigger] more[i]).0 != key {
            assert(more[end].0 != key);
            assert forall|i: int| 0 <= i < front.len() implies (#[trigger] front[i]).0 != key by {
                assert(front[i] == more[i]);
            }
        }
        if last.0 != key && forall|i: int| 0 <= i < front.len() ==> (#[trigger] front[i]).0 != key {
            assert forall|i: int| 0 <= i < more.len() implies (#[trigger] more[i]).0 != key by {
                if i < end {
                    assert(more[i] == front[i]);
                }
            }
        }
    }
}

} // verus!
