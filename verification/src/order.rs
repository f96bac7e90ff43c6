//! Stable sorting by integer keys.
use vstd::prelude::*;

verus! {

broadcast use vstd::seq_lib::group_seq_properties;

/// Whether the item at `a` comes before the item at `b`: by key, then by place.
pub open spec fn comes_before(keys: Seq<u128>, a: int, b: int) -> bool {
    keys[a] < keys[b] || (keys[a] == keys[b] && a < b)
}

/// Whether `order` lists every place below `count` once, in ascending key order.
pub open spec fn orders_first(keys: Seq<u128>, order: Seq<usize>, count: int) -> bool {
    &&& order.len() == count
    &&& forall|i: int| 0 <= i < order.len() ==> #[trigger] order[i] < count
    &&& forall|i: int, j: int|
        0 <= i < j < order.len() ==> comes_before(
            keys,
            #[trigger] order[i] as int,
            #[trigger] order[j] as int,
        )
    &&& forall|place: int| 0 <= place < count ==> #[trigger] listed(order, place)
}

/// Whether `order` lists `place`.
pub open spec fn listed(order: Seq<usize>, place: int) -> bool {
    exists|i: int| 0 <= i < order.len() && #[trigger] order[i] == place
}

/// Whether `order` sorts all items stably by key.
pub open spec fn is_order(keys: Seq<u128>, order: Seq<usize>) -> bool {
    orders_first(keys, order, keys.len() as int)
}

/// The stable order of items by key.
pub open spec fn order_of(keys: Seq<u128>) -> Seq<usize> {
    choose|order: Seq<usize>| is_order(keys, order)
}

/// The items at the places of `order`.
pub open spec fn arranged<T>(items: Seq<T>, order: Seq<usize>) -> Seq<T> {
    order.map_values(|place: usize| items[place as int])
}

proof fn lemma_orders_agree(keys: Seq<u128>, left: Seq<usize>, right: Seq<usize>, n: int)
    requires
        is_order(keys, left),
        is_order(keys, right),
        0 <= n <= keys.len(),
    ensures
        forall|i: int| 0 <= i < n ==> left[i] == right[i],
    decreases n,
{
    if n > 0 {
        lemma_orders_agree(keys, left, right, n - 1);
        let i = n - 1;
        let a = left[i] as int;
        let b = right[i] as int;
        if a != b {
            assert(listed(right, a));
            let k = choose|k: int| 0 <= k < right.len() && #[trigger] right[k] == a;
            if k < i {
                assert(left[k] == right[k]);
                assert(comes_before(keys, left[k] as int, left[i] as int));
            }
            assert(k > i);
            assert(comes_before(keys, right[i] as int, right[k] as int));
            assert(listed(left, b));
            let l = choose|l: int| 0 <= l < left.len() && #[trigger] left[l] == b;
            if l < i {
                assert(left[l] == right[l]);
                assert(comes_before(keys, right[l] as int, right[i] as int));
            }
            assert(l > i);
            assert(comes_before(keys, left[i] as int, left[l] as int));
            assert(false);
        }
    }
}

/// There is one stable order.
pub proof fn lemma_order_unique(keys: Seq<u128>, order: Seq<usize>)
    requires
        is_order(keys, order),
    ensures
        order == order_of(keys),
{
    let chosen = order_of(keys);
    assert(is_order(keys, chosen));
    lemma_orders_agree(keys, order, chosen, keys.len() as int);
    assert(order =~= chosen);
}

/// Inserts `place`, the last one, into an order of the places before it.
fn insert_place(keys: &Vec<u128>, order: &mut Vec<usize>, place: usize)
    requires
        place < keys@.len(),
        orders_first(keys@, old(order)@, place as int),
    ensures
        orders_first(keys@, final(order)@, place + 1),
{
    let ghost before = order@;
    let mut at: usize = order.len();
    while at > 0 && keys[order[at - 1]] > keys[place]
        invariant
            at <= order@.len(),
            order@ == before,
            place < keys@.len(),
            orders_first(keys@, before, place as int),
            forall|i: int| at <= i < before.len() ==> keys@[#[trigger] before[i] as int] > keys@[place as int],
        decreases at,
    {
        at = at - 1;
    }
    proof {
        assert forall|i: int| 0 <= i < at implies keys@[#[trigger] before[i] as int]
            <= keys@[place as int] by {
            if i < at - 1 {
                assert(comes_before(keys@, before[i] as int, before[at - 1] as int));
            }
        }
        lemma_insert_orders(keys@, before, place as int, at as int);
    }
    order.insert(at, place);
}

/// Sorts items stably by key; gives their places in order.
pub fn stable_order(keys: &Vec<u128>) -> (order: Vec<usize>)
    ensures
        is_order(keys@, order@),
        order@ == order_of(keys@),
{
    let mut order: Vec<usize> = Vec::new();
    let mut place: usize = 0;
    while place < keys.len()
        invariant
            place <= keys@.len(),
            orders_first(keys@, order@, place as int),
        decreases keys@.len() - place,
    {
        insert_place(keys, &mut order, place);
        place = place + 1;
    }
    proof {
        lemma_order_unique(keys@, order@);
    }
    order
}

/// Where the last of `count` places goes in an order of the places before it.
proof fn lemma_insert_orders(keys: Seq<u128>, before: Seq<usize>, place: int, at: int)
    requires
        0 <= place < keys.len(),
        place <= usize::MAX,
        orders_first(keys, before, place),
        0 <= at <= before.len(),
        forall|i: int| 0 <= i < at ==> keys[#[trigger] before[i] as int] <= keys[place],
        forall|i: int| at <= i < before.len() ==> keys[#[trigger] before[i] as int] > keys[place],
    ensures
        orders_first(keys, before.insert(at, place as usize), place + 1),
{
    let after = before.insert(at, place as usize);
    assert forall|i: int| 0 <= i < after.len() implies #[trigger] after[i] < place + 1 by {
        if i < at {
            assert(after[i] == before[i]);
        } else if i > at {
            assert(after[i] == before[i - 1]);
        }
    }
    assert forall|i: int, j: int| 0 <= i < j < after.len() implies comes_before(
        keys,
        #[trigger] after[i] as int,
        #[trigger] after[j] as int,
    ) by {
        if j < at {
            assert(after[i] == before[i] && after[j] == before[j]);
        } else if j == at {
            assert(after[i] == before[i]);
            assert(before[i] < place);
        } else {
            assert(after[j] == before[j - 1]);
            if i < at {
                assert(after[i] == before[i]);
            } else if i > at {
                assert(after[i] == before[i - 1]);
            } else {
                assert(keys[before[j - 1] as int] > keys[place]);
            }
        }
    }
    assert forall|wanted: int| 0 <= wanted < place + 1 implies #[trigger] listed(after, wanted) by {
        if wanted == place {
            assert(after[at] == place);
        } else {
            assert(listed(before, wanted));
            let i = choose|i: int| 0 <= i < before.len() && #[trigger] before[i] == wanted;
            if i < at {
                assert(after[i] == wanted);
            } else {
                assert(after[i + 1] == wanted);
            }
        }
    }
}

/// How many of the first places have a key that is not above `key`.
pub open spec fn rank(keys: Seq<u128>, order: Seq<usize>, key: u128) -> int
    decreases order.len(),
{
    if order.len() == 0 {
        0
    } else if keys[order.last() as int] > key {
        rank(keys, order.drop_last(), key)
    } else {
        order.len() as int
    }
}

proof fn lemma_rank(keys: Seq<u128>, order: Seq<usize>, key: u128, count: int)
    requires
        forall|i: int, j: int|
            0 <= i < j < order.len() ==> comes_before(
                keys,
                #[trigger] order[i] as int,
                #[trigger] order[j] as int,
            ),
    ensures
        0 <= rank(keys, order, key) <= order.len(),
        forall|i: int| 0 <= i < rank(keys, order, key) ==> keys[#[trigger] order[i] as int] <= key,
        forall|i: int|
            rank(keys, order, key) <= i < order.len() ==> keys[#[trigger] order[i] as int] > key,
    decreases order.len(),
{
    if order.len() > 0 {
        let front = order.drop_last();
        if keys[order.last() as int] > key {
            assert forall|i: int, j: int| 0 <= i < j < front.len() implies comes_before(
                keys,
                #[trigger] front[i] as int,
                #[trigger] front[j] as int,
            ) by {
                assert(front[i] == order[i] && front[j] == order[j]);
            }
            lemma_rank(keys, front, key, count);
            let r = rank(keys, order, key);
            assert forall|i: int| 0 <= i < r implies keys[#[trigger] order[i] as int] <= key by {
                assert(front[i] == order[i]);
            }
            assert forall|i: int| r <= i < order.len() implies keys[#[trigger] order[i] as int]
                > key by {
                if i < front.len() {
                    assert(front[i] == order[i]);
                }
            }
        } else {
            assert forall|i: int| 0 <= i < order.len() implies keys[#[trigger] order[i] as int]
                <= key by {
                if i < order.len() - 1 {
                    assert(comes_before(
                        keys,
                        order[i] as int,
                        order[order.len() - 1] as int,
                    ));
                }
            }
        }
    }
}

proof fn lemma_order_of_first(keys: Seq<u128>, count: int) -> (order: Seq<usize>)
    requires
        0 <= count <= keys.len(),
        keys.len() <= usize::MAX,
    ensures
        orders_first(keys, order, count),
    decreases count,
{
    if count == 0 {
        Seq::empty()
    } else {
        let before = lemma_order_of_first(keys, count - 1);
        let at = rank(keys, before, keys[count - 1]);
        lemma_rank(keys, before, keys[count - 1], count);
        lemma_insert_orders(keys, before, count - 1, at);
        before.insert(at, (count - 1) as usize)
    }
}

/// There is a stable order.
pub proof fn lemma_order_exists(keys: Seq<u128>)
    requires
        keys.len() <= usize::MAX,
    ensures
        is_order(keys, order_of(keys)),
{
    let order = lemma_order_of_first(keys, keys.len() as int);
    assert(is_order(keys, order));
}

/// A further item goes behind all items whose keys are not larger.
pub proof fn lemma_order_push(keys: Seq<u128>, key: u128)
    requires
        keys.len() < usize::MAX,
    ensures
        is_order(keys, order_of(keys)),
        0 <= rank(keys, order_of(keys), key) <= keys.len(),
        order_of(keys.push(key)) == order_of(keys).insert(
            rank(keys, order_of(keys), key),
            keys.len() as usize,
        ),
        forall|i: int|
            0 <= i < rank(keys, order_of(keys), key) ==> keys[#[trigger] order_of(
                keys,
            )[i] as int] <= key,
        forall|i: int|
            rank(keys, order_of(keys), key) <= i < keys.len() ==> keys[#[trigger] order_of(
                keys,
            )[i] as int] > key,
{
    let order = order_of(keys);
    let more = keys.push(key);
    let at = rank(keys, order, key);
    lemma_order_exists(keys);
    lemma_rank(keys, order, key, keys.len() as int);
    assert(orders_first(more, order, keys.len() as int)) by {
        assert forall|i: int, j: int| 0 <= i < j < order.len() implies comes_before(
            more,
            #[trigger] order[i] as int,
            #[trigger] order[j] as int,
        ) by {
            assert(comes_before(keys, order[i] as int, order[j] as int));
        }
    }
    lemma_insert_orders(more, order, keys.len() as int, at);
    lemma_order_unique(more, order.insert(at, keys.len() as usize));
}

/// Items that are in order stay where they are.
pub proof fn lemma_order_of_sorted(keys: Seq<u128>)
    requires
        keys.len() <= usize::MAX,
        forall|i: int, j: int| 0 <= i < j < keys.len() ==> keys[i] <= keys[j],
    ensures
        order_of(keys) == Seq::new(keys.len(), |i: int| i as usize),
{
    let order = Seq::new(keys.len(), |i: int| i as usize);
    assert forall|place: int| 0 <= place < keys.len() implies #[trigger] listed(order, place) by {
        assert(order[place] == place);
    }
    lemma_order_unique(keys, order);
}

/// Every place is listed once.
pub open spec fn is_arrangement(places: Seq<usize>, count: nat) -> bool {
    &&& places.len() == count
    &&& places.no_duplicates()
    &&& forall|i: int| 0 <= i < places.len() ==> #[trigger] places[i] < count
}

/// Items at places that list every place once are the items.
pub proof fn lemma_arrangement_permutes<T>(items: Seq<T>, places: Seq<usize>)
    requires
        is_arrangement(places, items.len()),
    ensures
        arranged(items, places).to_multiset() == items.to_multiset(),
    decreases items.len(),
{
    broadcast use vstd::seq_lib::group_to_multiset_ensures;

    let all = arranged(items, places);
    if items.len() == 0 {
        assert(all =~= items);
    } else {
        let last = items.len() - 1;
        lemma_listed(places, items.len(), last);
        let k = choose|i: int| 0 <= i < places.len() && places[i] == last;
        let rest = places.remove(k);
        let front = items.drop_last();
        assert forall|i: int| 0 <= i < rest.len() implies #[trigger] rest[i] < front.len() by {
            let a = if i < k {
                i
            } else {
                i + 1
            };
            assert(rest[i] == places[a]);
        }
        assert(rest.no_duplicates()) by {
            assert forall|i: int, j: int|
                0 <= i < rest.len() && 0 <= j < rest.len() && i != j implies rest[i]
                != rest[j] by {
                let a = if i < k {
                    i
                } else {
                    i + 1
                };
                let b = if j < k {
                    j
                } else {
                    j + 1
                };
                assert(rest[i] == places[a] && rest[j] == places[b]);
            }
        }
        lemma_arrangement_permutes(front, rest);
        assert(arranged(front, rest) =~= all.remove(k));
        assert(all[k] == items.last());
        vstd::seq_lib::to_multiset_remove(all, k);
        assert(items =~= front.push(items.last()));
        vstd::seq_lib::to_multiset_build(front, items.last());
        assert(all.to_multiset().contains(all[k]));
        assert(all.to_multiset() =~= all.remove(k).to_multiset().insert(all[k]));
    }
}

/// Distinct places below their number list every place.
proof fn lemma_listed(places: Seq<usize>, count: nat, place: int)
    requires
        is_arrangement(places, count),
        0 <= place < count,
    ensures
        exists|i: int| 0 <= i < places.len() && places[i] == place,
{
    if !(exists|i: int| 0 <= i < places.len() && places[i] == place) {
        let lowered = places.map_values(
            |p: usize|
                if p > place {
                    (p - 1) as usize
                } else {
                    p
                },
        );
        assert forall|i: int| 0 <= i < lowered.len() implies #[trigger] lowered[i] < count - 1 by {
            assert(places[i] != place);
        }
        assert forall|i: int, j: int| 0 <= i < j < lowered.len() implies lowered[i]
            != lowered[j] by {
            assert(places[i] != place && places[j] != place);
            assert(places[i] != places[j]);
        }
        crate::stripe_blocks::lemma_distinct_below(lowered, (count - 1) as nat);
    }
}

/// Sorting by keys loses no item and adds none.
pub proof fn sorting_permutes<T>(items: Seq<T>, keys: Seq<u128>)
    requires
        keys.len() == items.len(),
        keys.len() <= usize::MAX,
    ensures
        arranged(items, order_of(keys)).to_multiset() == items.to_multiset(),
        arranged(items, order_of(keys)).len() == items.len(),
{
    let order = order_of(keys);
    lemma_order_exists(keys);
    assert(order.no_duplicates()) by {
        assert forall|i: int, j: int|
            0 <= i < order.len() && 0 <= j < order.len() && i != j implies order[i]
            != order[j] by {
            if i < j {
                assert(comes_before(keys, order[i] as int, order[j] as int));
            } else {
                assert(comes_before(keys, order[j] as int, order[i] as int));
            }
        }
    }
    lemma_arrangement_permutes(items, order);
}

} // verus!
