//! Ordered string maps and metadata fields.
use vstd::prelude::*;

use crate::codec::{
    lemma_text_less_total, lemma_text_less_transitive, same_text, text_is_less, text_less,
};

verus! {

broadcast use vstd::seq_lib::group_seq_properties;

/// Key and value pairs.
pub type Pairs = Seq<(Seq<char>, Seq<char>)>;

/// Keys are strictly ascending, so no key occurs twice.
pub open spec fn ascending(pairs: Pairs) -> bool {
    forall|i: int, j: int|
        0 <= i < j < pairs.len() ==> text_less(#[trigger] pairs[i].0, #[trigger] pairs[j].0)
}

/// Whether some pair has this key.
pub open spec fn has_key(pairs: Pairs, key: Seq<char>) -> bool {
    exists|i: int| 0 <= i < pairs.len() && #[trigger] pairs[i].0 == key
}

/// Value of the first pair with this key.
pub open spec fn lookup(pairs: Pairs, key: Seq<char>) -> Option<Seq<char>>
    decreases pairs.len(),
{
    if pairs.len() == 0 {
        None
    } else if pairs[0].0 == key {
        Some(pairs[0].1)
    } else {
        lookup(pairs.drop_first(), key)
    }
}

/// An ascending map with `key` bound to `value`.
pub open spec fn insert_pair(pairs: Pairs, key: Seq<char>, value: Seq<char>) -> Pairs
    decreases pairs.len(),
{
    if pairs.len() == 0 {
        seq![(key, value)]
    } else if pairs[0].0 == key {
        seq![(key, value)] + pairs.drop_first()
    } else if text_less(key, pairs[0].0) {
        seq![(key, value)] + pairs
    } else {
        seq![pairs[0]] + insert_pair(pairs.drop_first(), key, value)
    }
}

/// The map that inserting the pairs in order builds; later pairs win.
pub open spec fn collect_pairs(pairs: Pairs) -> Pairs
    decreases pairs.len(),
{
    if pairs.len() == 0 {
        Seq::empty()
    } else {
        insert_pair(collect_pairs(pairs.drop_last()), pairs.last().0, pairs.last().1)
    }
}

/// `base` with every pair of `more` inserted in order.
pub open spec fn extend_pairs(base: Pairs, more: Pairs) -> Pairs
    decreases more.len(),
{
    if more.len() == 0 {
        base
    } else {
        insert_pair(extend_pairs(base, more.drop_last()), more.last().0, more.last().1)
    }
}

/// Order of pairs: by key, then by value.
pub open spec fn pair_less(
    left: (Seq<char>, Seq<char>),
    right: (Seq<char>, Seq<char>),
) -> bool {
    text_less(left.0, right.0) || (left.0 == right.0 && text_less(left.1, right.1))
}

/// Lexicographic order of maps by their pairs.
pub open spec fn pairs_less(left: Pairs, right: Pairs) -> bool
    decreases left.len(),
{
    if right.len() == 0 {
        false
    } else if left.len() == 0 {
        true
    } else if left[0] != right[0] {
        pair_less(left[0], right[0])
    } else {
        pairs_less(left.drop_first(), right.drop_first())
    }
}

pub proof fn lemma_insert_pair_keys(pairs: Pairs, key: Seq<char>, value: Seq<char>)
    ensures
        forall|i: int|
            0 <= i < insert_pair(pairs, key, value).len() ==> {
                let pair = #[trigger] insert_pair(pairs, key, value)[i];
                pair == (key, value) || pairs.contains(pair)
            },
        has_key(insert_pair(pairs, key, value), key),
        lookup(insert_pair(pairs, key, value), key) == Some(value),
    decreases pairs.len(),
{
    let result = insert_pair(pairs, key, value);
    if pairs.len() == 0 {
        assert(result[0].0 == key);
    } else if pairs[0].0 == key || text_less(key, pairs[0].0) {
        assert(result[0].0 == key);
        assert forall|i: int| 0 <= i < result.len() implies #[trigger] result[i] == (key, value)
            || pairs.contains(result[i]) by {
            if i > 0 {
                if pairs[0].0 == key {
                    assert(result[i] == pairs[i]);
                } else {
                    assert(result[i] == pairs[i - 1]);
                }
            }
        }
    } else {
        let rest = pairs.drop_first();
        let tail = insert_pair(rest, key, value);
        lemma_insert_pair_keys(rest, key, value);
        assert(result.drop_first() =~= tail);
        let w = choose|i: int| 0 <= i < tail.len() && #[trigger] tail[i].0 == key;
        assert(result[w + 1] == tail[w]);
        assert forall|i: int| 0 <= i < result.len() implies #[trigger] result[i] == (key, value)
            || pairs.contains(result[i]) by {
            if i == 0 {
                assert(result[0] == pairs[0]);
            } else {
                assert(result[i] == tail[i - 1]);
                if result[i] != (key, value) {
                    let j = choose|j: int| 0 <= j < rest.len() && rest[j] == tail[i - 1];
                    assert(pairs[j + 1] == tail[i - 1]);
                }
            }
        }
    }
}

/// Inserting into an ascending map keeps it ascending.
pub proof fn lemma_insert_pair_ascending(pairs: Pairs, key: Seq<char>, value: Seq<char>)
    requires
        ascending(pairs),
    ensures
        ascending(insert_pair(pairs, key, value)),
    decreases pairs.len(),
{
    let result = insert_pair(pairs, key, value);
    if pairs.len() > 0 {
        let rest = pairs.drop_first();
        assert(ascending(rest));
        if pairs[0].0 == key {
            assert forall|i: int, j: int| 0 <= i < j < result.len() implies text_less(
                #[trigger] result[i].0,
                #[trigger] result[j].0,
            ) by {
                assert(result[i].0 == pairs[i].0);
                assert(result[j].0 == pairs[j].0);
            }
        } else if text_less(key, pairs[0].0) {
            assert forall|i: int, j: int| 0 <= i < j < result.len() implies text_less(
                #[trigger] result[i].0,
                #[trigger] result[j].0,
            ) by {
                assert(result[j] == pairs[j - 1]);
                if i == 0 {
                    if j > 1 {
                        lemma_text_less_transitive(key, pairs[0].0, pairs[j - 1].0);
                    }
                } else {
                    assert(result[i] == pairs[i - 1]);
                }
            }
        } else {
            let tail = insert_pair(rest, key, value);
            lemma_insert_pair_ascending(rest, key, value);
            lemma_insert_pair_keys(rest, key, value);
            lemma_text_less_total(key, pairs[0].0);
            assert forall|i: int, j: int| 0 <= i < j < result.len() implies text_less(
                #[trigger] result[i].0,
                #[trigger] result[j].0,
            ) by {
                assert(result[j] == tail[j - 1]);
                if i == 0 {
                    if tail[j - 1] != (key, value) {
                        let k = choose|k: int| 0 <= k < rest.len() && rest[k] == tail[j - 1];
                        assert(pairs[k + 1] == rest[k]);
                    }
                } else {
                    assert(result[i] == tail[i - 1]);
                }
            }
        }
    }
}

/// Inserting a key that is above all others appends the pair.
pub proof fn lemma_insert_pair_last(pairs: Pairs, key: Seq<char>, value: Seq<char>)
    requires
        forall|i: int| 0 <= i < pairs.len() ==> text_less(#[trigger] pairs[i].0, key),
    ensures
        insert_pair(pairs, key, value) == pairs.push((key, value)),
    decreases pairs.len(),
{
    if pairs.len() == 0 {
        assert(insert_pair(pairs, key, value) =~= pairs.push((key, value)));
    } else {
        lemma_text_less_total(pairs[0].0, key);
        lemma_insert_pair_last(pairs.drop_first(), key, value);
        assert(insert_pair(pairs, key, value) =~= pairs.push((key, value)));
    }
}

/// Collecting the pairs of an ascending map gives the map.
pub proof fn lemma_collect_ascending(pairs: Pairs)
    requires
        ascending(pairs),
    ensures
        collect_pairs(pairs) == pairs,
    decreases pairs.len(),
{
    if pairs.len() > 0 {
        let front = pairs.drop_last();
        assert(ascending(front));
        lemma_collect_ascending(front);
        lemma_insert_pair_last(front, pairs.last().0, pairs.last().1);
        assert(front.push(pairs.last()) =~= pairs);
    } else {
        assert(collect_pairs(pairs) =~= pairs);
    }
}

/// An ascending map binds each key at most once.
pub proof fn lemma_ascending_unique(pairs: Pairs, i: int, j: int)
    requires
        ascending(pairs),
        0 <= i < pairs.len(),
        0 <= j < pairs.len(),
        pairs[i].0 == pairs[j].0,
    ensures
        i == j,
{
    if i < j {
        lemma_text_less_total(pairs[i].0, pairs[j].0);
    } else if j < i {
        lemma_text_less_total(pairs[j].0, pairs[i].0);
    }
}

/// A lookup gives the value of the first pair with the key.
pub proof fn lemma_lookup_at(pairs: Pairs, key: Seq<char>, at: int)
    requires
        0 <= at < pairs.len(),
        pairs[at].0 == key,
        forall|i: int| 0 <= i < at ==> #[trigger] pairs[i].0 != key,
    ensures
        lookup(pairs, key) == Some(pairs[at].1),
    decreases pairs.len(),
{
    if at > 0 {
        assert(pairs[0].0 != key);
        let rest = pairs.drop_first();
        assert forall|i: int| 0 <= i < at - 1 implies #[trigger] rest[i].0 != key by {
            assert(rest[i] == pairs[i + 1]);
        }
        lemma_lookup_at(rest, key, at - 1);
    }
}

/// A lookup fails exactly where no pair has the key.
pub proof fn lemma_lookup_none(pairs: Pairs, key: Seq<char>)
    ensures
        lookup(pairs, key) is None <==> !has_key(pairs, key),
    decreases pairs.len(),
{
    if pairs.len() > 0 {
        let rest = pairs.drop_first();
        lemma_lookup_none(rest, key);
        if pairs[0].0 == key {
            assert(has_key(pairs, key));
        } else {
            if has_key(rest, key) {
                let i = choose|i: int| 0 <= i < rest.len() && #[trigger] rest[i].0 == key;
                assert(pairs[i + 1].0 == key);
            }
            if has_key(pairs, key) {
                let i = choose|i: int| 0 <= i < pairs.len() && #[trigger] pairs[i].0 == key;
                assert(rest[i - 1].0 == key);
            }
        }
    }
}

/// The order of pairs is strict and total.
pub proof fn lemma_pair_less_total(
    left: (Seq<char>, Seq<char>),
    right: (Seq<char>, Seq<char>),
)
    ensures
        !(pair_less(left, right) && pair_less(right, left)),
        left != right ==> pair_less(left, right) || pair_less(right, left),
        left == right ==> !pair_less(left, right),
{
    lemma_text_less_total(left.0, right.0);
    lemma_text_less_total(left.1, right.1);
}

/// The order of maps is strict and total.
pub proof fn lemma_pairs_less_total(left: Pairs, right: Pairs)
    ensures
        !(pairs_less(left, right) && pairs_less(right, left)),
        left != right ==> pairs_less(left, right) || pairs_less(right, left),
        left == right ==> !pairs_less(left, right),
    decreases left.len(),
{
    if left.len() > 0 && right.len() > 0 {
        lemma_pair_less_total(left[0], right[0]);
        if left[0] == right[0] {
            lemma_pairs_less_total(left.drop_first(), right.drop_first());
            if left.drop_first() == right.drop_first() {
                assert(left =~= seq![left[0]] + left.drop_first());
                assert(right =~= seq![right[0]] + right.drop_first());
            }
        }
    } else {
        if left.len() == 0 && right.len() == 0 {
            assert(left =~= right);
        }
    }
}

/// The order of maps is transitive.
pub proof fn lemma_pairs_less_transitive(a: Pairs, b: Pairs, c: Pairs)
    requires
        pairs_less(a, b),
        pairs_less(b, c),
    ensures
        pairs_less(a, c),
    decreases a.len(),
{
    if a.len() > 0 && b.len() > 0 && c.len() > 0 {
        lemma_pair_less_total(a[0], b[0]);
        lemma_pair_less_total(b[0], c[0]);
        lemma_pair_less_total(a[0], c[0]);
        if a[0] == b[0] && b[0] == c[0] {
            lemma_pairs_less_transitive(a.drop_first(), b.drop_first(), c.drop_first());
        } else if a[0] != b[0] && b[0] != c[0] {
            if text_less(a[0].0, b[0].0) && text_less(b[0].0, c[0].0) {
                lemma_text_less_transitive(a[0].0, b[0].0, c[0].0);
            } else if a[0].0 == b[0].0 && b[0].0 == c[0].0 {
                lemma_text_less_transitive(a[0].1, b[0].1, c[0].1);
            }
            lemma_text_less_total(a[0].0, b[0].0);
            lemma_text_less_total(b[0].0, c[0].0);
            lemma_text_less_total(a[0].0, c[0].0);
        }
    }
}

/// Values of a list of owned pairs.
pub open spec fn pairs_view(pairs: Seq<(String, String)>) -> Pairs {
    pairs.map_values(|pair: (String, String)| (pair.0@, pair.1@))
}

/// String map in ascending key order.
#[derive(Debug, PartialEq, Eq)]
pub struct LabelMap {
    pairs: Vec<(String, String)>,
}

impl View for LabelMap {
    type V = Pairs;

    closed spec fn view(&self) -> Pairs {
        pairs_view(self.pairs@)
    }
}

impl Clone for LabelMap {
    fn clone(&self) -> (copy: Self)
        ensures
            copy@ == self@,
    {
        proof {
            use_type_invariant(self);
        }
        LabelMap { pairs: clone_pairs(&self.pairs) }
    }
}

impl Default for LabelMap {
    fn default() -> (map: Self)
        ensures
            map@ == Pairs::empty(),
    {
        LabelMap::new()
    }
}

/// Copies a list of pairs.
pub fn clone_pairs(pairs: &Vec<(String, String)>) -> (copy: Vec<(String, String)>)
    ensures
        copy@ == pairs@,
{
    let mut copy: Vec<(String, String)> = Vec::new();
    let mut index: usize = 0;
    while index < pairs.len()
        invariant
            index <= pairs@.len(),
            copy@ == pairs@.subrange(0, index as int),
        decreases pairs@.len() - index,
    {
        proof {
            assert(pairs@.subrange(0, index + 1) =~= pairs@.subrange(0, index as int).push(pairs@[index as int]));
        }
        copy.push((pairs[index].0.clone(), pairs[index].1.clone()));
        index = index + 1;
    }
    proof {
        assert(pairs@.subrange(0, index as int) =~= pairs@);
    }
    copy
}

impl LabelMap {
    #[verifier::type_invariant]
    spec fn keys_ascend(self) -> bool {
        ascending(self@)
    }

    /// The keys of a map are strictly ascending.
    pub fn ordered(&self)
        ensures
            ascending(self@),
    {
        proof {
            use_type_invariant(self);
        }
    }

    /// Creates an empty map.
    pub fn new() -> (map: Self)
        ensures
            map@ == Pairs::empty(),
    {
        let pairs: Vec<(String, String)> = Vec::new();
        proof {
            assert(pairs_view(pairs@) =~= Pairs::empty());
        }
        LabelMap { pairs }
    }

    /// Collects pairs; a later pair replaces an earlier one with its key.
    pub fn from_pairs(pairs: Vec<(String, String)>) -> (map: Self)
        ensures
            map@ == collect_pairs(pairs_view(pairs@)),
    {
        let mut map = LabelMap::new();
        let ghost all = pairs_view(pairs@);
        let mut index: usize = 0;
        proof {
            assert(all.subrange(0, 0) =~= Pairs::empty());
        }
        while index < pairs.len()
            invariant
                index <= pairs@.len(),
                all == pairs_view(pairs@),
                map@ == collect_pairs(all.subrange(0, index as int)),
            decreases pairs@.len() - index,
        {
            proof {
                assert(all.subrange(0, index + 1).drop_last() =~= all.subrange(0, index as int));
            }
            let _ = map.insert(pairs[index].0.clone(), pairs[index].1.clone());
            index = index + 1;
        }
        proof {
            assert(all.subrange(0, index as int) =~= all);
        }
        map
    }

    /// Number of keys.
    pub fn len(&self) -> (count: usize)
        ensures
            count == self@.len(),
    {
        self.pairs.len()
    }

    /// Whether the map has no key.
    pub fn is_empty(&self) -> (empty: bool)
        ensures
            empty == (self@.len() == 0),
    {
        self.pairs.len() == 0
    }

    /// Key at a position in ascending order.
    pub fn key_at(&self, index: usize) -> (key: &String)
        requires
            index < self@.len(),
        ensures
            key@ == self@[index as int].0,
    {
        &self.pairs[index].0
    }

    /// Value at a position in ascending key order.
    pub fn value_at(&self, index: usize) -> (value: &String)
        requires
            index < self@.len(),
        ensures
            value@ == self@[index as int].1,
    {
        &self.pairs[index].1
    }

    /// Position of the first key that is not below `key`.
    fn lower_bound(&self, key: &str) -> (position: usize)
        ensures
            position <= self@.len(),
            forall|i: int| 0 <= i < position ==> text_less(#[trigger] self@[i].0, key@),
            position < self@.len() ==> !text_less(self@[position as int].0, key@),
    {
        let mut position: usize = 0;
        while position < self.pairs.len() && text_is_less(&self.pairs[position].0, key)
            invariant
                position <= self@.len(),
                forall|i: int| 0 <= i < position ==> text_less(#[trigger] self@[i].0, key@),
            decreases self@.len() - position,
        {
            position = position + 1;
        }
        position
    }

    /// Value bound to `key`.
    pub fn get(&self, key: &str) -> (value: Option<&String>)
        ensures
            value is Some <==> lookup(self@, key@) is Some,
            value matches Some(text) ==> lookup(self@, key@) == Some(text@),
    {
        proof {
            use_type_invariant(self);
        }
        let position = self.lower_bound(key);
        proof {
            lemma_lookup_none(self@, key@);
            assert forall|i: int| 0 <= i < position implies #[trigger] self@[i].0 != key@ by {
                lemma_text_less_total(self@[i].0, key@);
            }
        }
        if position < self.pairs.len() && same_text(&self.pairs[position].0, key) {
            proof {
                lemma_lookup_at(self@, key@, position as int);
            }
            Some(&self.pairs[position].1)
        } else {
            proof {
                if has_key(self@, key@) {
                    let i = choose|i: int| 0 <= i < self@.len() && #[trigger] self@[i].0 == key@;
                    lemma_text_less_total(self@[position as int].0, key@);
                    if i > position {
                        lemma_text_less_transitive(key@, self@[position as int].0, self@[i].0);
                        lemma_text_less_total(key@, self@[i].0);
                    }
                }
            }
            None
        }
    }

    /// Whether `key` is bound.
    pub fn contains_key(&self, key: &str) -> (found: bool)
        ensures
            found == has_key(self@, key@),
    {
        proof {
            lemma_lookup_none(self@, key@);
        }
        self.get(key).is_some()
    }

    /// Binds `key` to `value` and tells whether the key was bound before.
    pub fn insert(&mut self, key: String, value: String) -> (replaced: bool)
        ensures
            final(self)@ == insert_pair(old(self)@, key@, value@),
            replaced == has_key(old(self)@, key@),
    {
        proof {
            use_type_invariant(&*self);
        }
        let ghost before = self@;
        let replaced = self.contains_key(&key);
        let position = self.lower_bound(&key);
        proof {
            lemma_insert_pair_ascending(before, key@, value@);
            lemma_insert_at(before, key@, value@, position as int);
        }
        let ghost raw = self.pairs@;
        let present = position < self.pairs.len() && same_text(&self.pairs[position].0, &key);
        let mut pairs: Vec<(String, String)> = Vec::new();
        core::mem::swap(&mut pairs, &mut self.pairs);
        if present {
            proof {
                assert(pairs_view(raw.update(position as int, (key, value))) =~= before.update(
                    position as int,
                    (key@, value@),
                ));
            }
            pairs[position] = (key, value);
        } else {
            proof {
                assert(pairs_view(raw.insert(position as int, (key, value))) =~= before.insert(
                    position as int,
                    (key@, value@),
                ));
            }
            pairs.insert(position, (key, value));
        }
        self.pairs = pairs;
        replaced
    }

    /// Binds every key of `more`, replacing values already bound.
    pub fn extend(&mut self, more: &LabelMap)
        ensures
            final(self)@ == extend_pairs(old(self)@, more@),
    {
        let ghost before = self@;
        let mut index: usize = 0;
        proof {
            assert(more@.subrange(0, 0) =~= Pairs::empty());
        }
        while index < more.pairs.len()
            invariant
                index <= more@.len(),
                self@ == extend_pairs(before, more@.subrange(0, index as int)),
            decreases more@.len() - index,
        {
            proof {
                assert(more@.subrange(0, index + 1).drop_last() =~= more@.subrange(0, index as int));
            }
            let _ = self.insert(more.pairs[index].0.clone(), more.pairs[index].1.clone());
            index = index + 1;
        }
        proof {
            assert(more@.subrange(0, index as int) =~= more@);
        }
    }

    /// Whether two maps hold the same pairs.
    pub fn same(&self, other: &LabelMap) -> (same: bool)
        ensures
            same == (self@ == other@),
    {
        if self.pairs.len() != other.pairs.len() {
            return false;
        }
        let mut index: usize = 0;
        while index < self.pairs.len()
            invariant
                index <= self@.len(),
                self@.len() == other@.len(),
                forall|i: int| 0 <= i < index ==> self@[i] == other@[i],
            decreases self@.len() - index,
        {
            if !same_text(&self.pairs[index].0, &other.pairs[index].0) || !same_text(
                &self.pairs[index].1,
                &other.pairs[index].1,
            ) {
                proof {
                    assert(self@[index as int] != other@[index as int]);
                }
                return false;
            }
            index = index + 1;
        }
        proof {
            assert(self@ =~= other@);
        }
        true
    }

    /// Whether this map is below `other` in the order of maps.
    pub fn is_less(&self, other: &LabelMap) -> (less: bool)
        ensures
            less == pairs_less(self@, other@),
    {
        let mut index: usize = 0;
        let ghost l = self@;
        let ghost r = other@;
        proof {
            assert(l.subrange(0, l.len() as int) =~= l);
            assert(r.subrange(0, r.len() as int) =~= r);
        }
        while index < self.pairs.len() && index < other.pairs.len() && same_text(
            &self.pairs[index].0,
            &other.pairs[index].0,
        ) && same_text(&self.pairs[index].1, &other.pairs[index].1)
            invariant
                l == self@,
                r == other@,
                index <= l.len(),
                index <= r.len(),
                pairs_less(l, r) == pairs_less(
                    l.subrange(index as int, l.len() as int),
                    r.subrange(index as int, r.len() as int),
                ),
            decreases l.len() - index,
        {
            proof {
                let a = l.subrange(index as int, l.len() as int);
                let b = r.subrange(index as int, r.len() as int);
                assert(a.drop_first() =~= l.subrange(index + 1, l.len() as int));
                assert(b.drop_first() =~= r.subrange(index + 1, r.len() as int));
                assert(a[0] == l[index as int]);
                assert(b[0] == r[index as int]);
            }
            index = index + 1;
        }
        if index == other.pairs.len() {
            false
        } else if index == self.pairs.len() {
            true
        } else {
            proof {
                lemma_pair_less_total(l[index as int], r[index as int]);
            }
            text_is_less(&self.pairs[index].0, &other.pairs[index].0) || (same_text(
                &self.pairs[index].0,
                &other.pairs[index].0,
            ) && text_is_less(&self.pairs[index].1, &other.pairs[index].1))
        }
    }
}

/// Where a key goes: over its own pair, or before the first greater key.
proof fn lemma_insert_at(pairs: Pairs, key: Seq<char>, value: Seq<char>, at: int)
    requires
        0 <= at <= pairs.len(),
        forall|i: int| 0 <= i < at ==> text_less(#[trigger] pairs[i].0, key),
        at < pairs.len() ==> !text_less(pairs[at].0, key),
    ensures
        insert_pair(pairs, key, value) == if at < pairs.len() && pairs[at].0 == key {
            pairs.update(at, (key, value))
        } else {
            pairs.insert(at, (key, value))
        },
    decreases pairs.len(),
{
    let expected = if at < pairs.len() && pairs[at].0 == key {
        pairs.update(at, (key, value))
    } else {
        pairs.insert(at, (key, value))
    };
    if pairs.len() == 0 {
        assert(insert_pair(pairs, key, value) =~= expected);
    } else if at == 0 {
        lemma_text_less_total(pairs[0].0, key);
        assert(insert_pair(pairs, key, value) =~= expected);
    } else {
        lemma_text_less_total(pairs[0].0, key);
        let rest = pairs.drop_first();
        assert forall|i: int| 0 <= i < at - 1 implies text_less(#[trigger] rest[i].0, key) by {
            assert(rest[i] == pairs[i + 1]);
        }
        lemma_insert_at(rest, key, value, at - 1);
        assert(insert_pair(pairs, key, value) =~= expected);
    }
}

/// One indexed metadata field.
#[derive(Debug, PartialEq, Eq)]
pub struct MetadataField {
    /// Field name.
    pub key: String,
    /// Field value.
    pub value: String,
}

impl View for MetadataField {
    type V = (Seq<char>, Seq<char>);

    open spec fn view(&self) -> (Seq<char>, Seq<char>) {
        (self.key@, self.value@)
    }
}

impl Clone for MetadataField {
    fn clone(&self) -> (copy: Self)
        ensures
            copy == *self,
    {
        MetadataField { key: self.key.clone(), value: self.value.clone() }
    }
}

impl MetadataField {
    /// Creates a field.
    pub fn new(key: String, value: String) -> (field: Self)
        ensures
            field@ == (key@, value@),
    {
        MetadataField { key, value }
    }
}

/// Values of a list of fields.
pub open spec fn fields_view(fields: Seq<MetadataField>) -> Pairs {
    fields.map_values(|field: MetadataField| field@)
}

/// Copies a list of fields.
pub fn clone_fields(fields: &Vec<MetadataField>) -> (copy: Vec<MetadataField>)
    ensures
        copy@ == fields@,
{
    let mut copy: Vec<MetadataField> = Vec::new();
    let mut index: usize = 0;
    while index < fields.len()
        invariant
            index <= fields@.len(),
            copy@ == fields@.subrange(0, index as int),
        decreases fields@.len() - index,
    {
        proof {
            assert(fields@.subrange(0, index + 1) =~= fields@.subrange(0, index as int).push(fields@[index as int]));
        }
        copy.push(fields[index].clone());
        index = index + 1;
    }
    proof {
        assert(fields@.subrange(0, index as int) =~= fields@);
    }
    copy
}

} // verus!
