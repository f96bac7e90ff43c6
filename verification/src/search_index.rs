//! Inverted index of documents by key and value.
use vstd::prelude::*;

use crate::codec::same_text;
use crate::labels::{pairs_view, Pairs};
use crate::posting::{
    held, intersect_ordinal_runs, may_follow, pushed, pushed_holds, rising, surviving, survives,
    window_is_exact, HotPostingList, OrdinalRun, QueryOrder,
};

verus! {

broadcast use vstd::seq_lib::group_seq_properties;

/// Key and value of a document.
pub type Entry = (Seq<char>, Seq<char>);

/// `count` documents with the same entries.
pub open spec fn repeated(document: Pairs, count: nat) -> Seq<Pairs> {
    Seq::new(count, |i: int| document)
}

/// Inverted index: for each entry the ordinals of the documents that hold it.
pub struct SearchIndex {
    /// Entries in order of first use.
    pub entries: Vec<(String, String)>,
    /// Posting list of each entry.
    pub lists: Vec<HotPostingList>,
    /// The documents.
    pub documents: Ghost<Seq<Pairs>>,
}

/// Whether a posting list holds exactly the documents with an entry.
pub open spec fn lists_entry(list: HotPostingList, documents: Seq<Pairs>, entry: Entry) -> bool {
    &&& list.well_formed()
    &&& forall|ordinal: int|
        #[trigger] held(list.runs@, ordinal) <==> (0 <= ordinal < documents.len()
            && documents[ordinal].contains(entry))
}

impl SearchIndex {
    /// Every list holds exactly the documents of its entry, and every entry of a
    /// document has its list.
    pub open spec fn well_formed(self) -> bool {
        let entries = pairs_view(self.entries@);
        let documents = self.documents@;
        &&& self.entries@.len() == self.lists@.len()
        &&& documents.len() <= u32::MAX
        &&& forall|i: int, j: int|
            0 <= i < j < entries.len() ==> #[trigger] entries[i] != #[trigger] entries[j]
        &&& forall|i: int|
            0 <= i < self.lists@.len() ==> lists_entry(
                #[trigger] self.lists@[i],
                documents,
                entries[i],
            )
        &&& forall|ordinal: int, k: int|
            0 <= ordinal < documents.len() && 0 <= k < documents[ordinal].len()
                ==> entries.contains(#[trigger] documents[ordinal][k])
    }

    /// An index without documents.
    pub fn new() -> (index: Self)
        ensures
            index.well_formed(),
            index.documents@ == Seq::<Pairs>::empty(),
    {
        SearchIndex { entries: Vec::new(), lists: Vec::new(), documents: Ghost(Seq::empty()) }
    }

    /// Place of an entry, or the number of entries.
    fn find(&self, key: &str, value: &str) -> (at: usize)
        requires
            self.entries@.len() == self.lists@.len(),
        ensures
            at <= self.entries@.len(),
            at < self.entries@.len() ==> pairs_view(self.entries@)[at as int] == (key@, value@),
            at == self.entries@.len() ==> !pairs_view(self.entries@).contains((key@, value@)),
    {
        let ghost entries = pairs_view(self.entries@);
        let mut at: usize = 0;
        while at < self.entries.len()
            invariant
                at <= self.entries@.len(),
                entries == pairs_view(self.entries@),
                forall|i: int| 0 <= i < at ==> #[trigger] entries[i] != (key@, value@),
            decreases self.entries@.len() - at,
        {
            if same_text(&self.entries[at].0, key) && same_text(&self.entries[at].1, value) {
                return at;
            }
            proof {
                assert(entries[at as int] == (
                    self.entries@[at as int].0@,
                    self.entries@[at as int].1@,
                ));
            }
            at = at + 1;
        }
        proof {
            assert(!entries.contains((key@, value@)));
        }
        at
    }

    /// The posting list of an entry, where a document holds it.
    pub fn list<'a>(&'a self, key: &str, value: &str) -> (list: Option<&'a HotPostingList>)
        requires
            self.well_formed(),
        ensures
            match list {
                Some(found) => lists_entry(*found, self.documents@, (key@, value@)),
                None => forall|ordinal: int|
                    0 <= ordinal < self.documents@.len() ==> !(
                    #[trigger] self.documents@[ordinal]).contains((key@, value@)),
            },
    {
        let at: usize = self.find(key, value);
        if at < self.lists.len() {
            proof {
                assert(lists_entry(
                    self.lists@[at as int],
                    self.documents@,
                    pairs_view(self.entries@)[at as int],
                ));
            }
            return Some(&self.lists[at]);
        }
        proof {
            let entry = (key@, value@);
            assert forall|ordinal: int| 0 <= ordinal < self.documents@.len() implies !(
            #[trigger] self.documents@[ordinal]).contains(entry) by {
                let document = self.documents@[ordinal];
                if document.contains(entry) {
                    let k = choose|k: int| 0 <= k < document.len() && document[k] == entry;
                    assert(pairs_view(self.entries@).contains(self.documents@[ordinal][k]));
                }
            }
        }
        None
    }

    /// Gives every entry of a document a list, and their distinct places.
    fn intern(&mut self, document: &Vec<(String, String)>) -> (ids: Vec<usize>)
        requires
            old(self).well_formed(),
        ensures
            final(self).well_formed(),
            final(self).documents == old(self).documents,
            forall|i: int|
                0 <= i < ids@.len() ==> #[trigger] ids@[i] < final(self).entries@.len()
                    && pairs_view(document@).contains(pairs_view(final(self).entries@)[ids@[i] as int]),
            forall|i: int, j: int|
                0 <= i < j < ids@.len() ==> #[trigger] ids@[i] != #[trigger] ids@[j],
            forall|k: int|
                0 <= k < document@.len() ==> #[trigger] interned(
                    pairs_view(final(self).entries@),
                    ids@,
                    pairs_view(document@)[k],
                ),
    {
        let ghost pairs = pairs_view(document@);
        let mut ids: Vec<usize> = Vec::new();
        let mut index: usize = 0;
        while index < document.len()
            invariant
                self.well_formed(),
                self.documents == old(self).documents,
                index <= document@.len(),
                pairs == pairs_view(document@),
                forall|i: int|
                    0 <= i < ids@.len() ==> #[trigger] ids@[i] < self.entries@.len()
                        && pairs.contains(pairs_view(self.entries@)[ids@[i] as int]),
                forall|i: int, j: int|
                    0 <= i < j < ids@.len() ==> #[trigger] ids@[i] != #[trigger] ids@[j],
                forall|k: int|
                    0 <= k < index ==> #[trigger] interned(
                        pairs_view(self.entries@),
                        ids@,
                        pairs[k],
                    ),
            decreases document@.len() - index,
        {
            let ghost entry = pairs[index as int];
            let ghost before = pairs_view(self.entries@);
            let ghost ids_before = ids@;
            proof {
                assert(entry == (document@[index as int].0@, document@[index as int].1@));
                assert(pairs.contains(entry));
            }
            let at: usize = self.find(&document[index].0, &document[index].1);
            if at == self.entries.len() {
                self.add_entry(&document[index]);
            }
            let ghost entries = pairs_view(self.entries@);
            proof {
                assert(entries[at as int] == entry);
                assert forall|i: int| 0 <= i < before.len() implies entries[i] == before[i] by {}
            }
            let mut known = false;
            let mut place: usize = 0;
            while place < ids.len()
                invariant
                    place <= ids@.len(),
                    known == exists|i: int| 0 <= i < place && #[trigger] ids@[i] == at,
                decreases ids@.len() - place,
            {
                if ids[place] == at {
                    known = true;
                }
                place = place + 1;
            }
            if !known {
                ids.push(at);
            }
            proof {
                let place = if known {
                    choose|i: int| 0 <= i < ids_before.len() && #[trigger] ids_before[i] == at
                } else {
                    ids_before.len() as int
                };
                assert(ids@[place] == at);
                assert(interned(entries, ids@, entry));
                assert forall|k: int| 0 <= k < index + 1 implies #[trigger] interned(
                    entries,
                    ids@,
                    pairs[k],
                ) by {
                    if k < index {
                        assert(interned(before, ids_before, pairs[k]));
                        let i = choose|i: int|
                            0 <= i < ids_before.len() && ids_before[i] < before.len()
                                && before[(#[trigger] ids_before[i]) as int] == pairs[k];
                        assert(ids@[i] == ids_before[i]);
                    }
                }
            }
            index = index + 1;
        }
        ids
    }

    /// Adds an entry that no document holds yet.
    fn add_entry(&mut self, entry: &(String, String))
        requires
            old(self).well_formed(),
            !pairs_view(old(self).entries@).contains((entry.0@, entry.1@)),
        ensures
            final(self).well_formed(),
            final(self).documents == old(self).documents,
            pairs_view(final(self).entries@) == pairs_view(old(self).entries@).push(
                (entry.0@, entry.1@),
            ),
    {
        let ghost before = pairs_view(self.entries@);
        let ghost lists = self.lists@;
        let ghost added = (entry.0@, entry.1@);
        self.entries.push((entry.0.clone(), entry.1.clone()));
        self.lists.push(HotPostingList::new());
        proof {
            let entries = pairs_view(self.entries@);
            assert(entries =~= before.push(added));
            assert forall|ordinal: int, k: int|
                0 <= ordinal < self.documents@.len() && 0 <= k
                    < self.documents@[ordinal].len() implies entries.contains(
                #[trigger] self.documents@[ordinal][k],
            ) by {
                let item = self.documents@[ordinal][k];
                assert(before.contains(item));
                let i = choose|i: int| 0 <= i < before.len() && before[i] == item;
                assert(entries[i] == item);
            }
            let at = lists.len() as int;
            assert forall|i: int| 0 <= i < self.lists@.len() implies lists_entry(
                #[trigger] self.lists@[i],
                self.documents@,
                entries[i],
            ) by {
                if i < at {
                    assert(lists_entry(lists[i], self.documents@, before[i]));
                } else {
                    assert forall|ordinal: int|
                        #[trigger] held(self.lists@[i].runs@, ordinal) <==> (0 <= ordinal
                            < self.documents@.len() && self.documents@[ordinal].contains(
                            added,
                        )) by {
                        if 0 <= ordinal < self.documents@.len()
                            && self.documents@[ordinal].contains(added) {
                            let document = self.documents@[ordinal];
                            let k = choose|k: int| 0 <= k < document.len() && document[k] == added;
                            assert(before.contains(self.documents@[ordinal][k]));
                        }
                    }
                }
            }
            assert forall|i: int, j: int| 0 <= i < j < entries.len() implies #[trigger] entries[i]
                != #[trigger] entries[j] by {
                if j == at {
                    assert(before.contains(before[i]));
                }
            }
        }
    }

    /// Adds the documents `first` to `last`, all with the same entries.
    pub fn add_range(&mut self, document: &Vec<(String, String)>, first: u32, last: u32)
        requires
            old(self).well_formed(),
            old(self).documents@.len() == first,
            first <= last < u32::MAX,
        ensures
            final(self).well_formed(),
            final(self).documents@ == old(self).documents@ + repeated(
                pairs_view(document@),
                (last - first + 1) as nat,
            ),
    {
        let ids = self.intern(document);
        let ghost pairs = pairs_view(document@);
        let ghost documents = self.documents@;
        let ghost all = documents + repeated(pairs, (last - first + 1) as nat);
        let ghost entries = pairs_view(self.entries@);
        let ghost lists = self.lists@;
        let mut index: usize = 0;
        while index < ids.len()
            invariant
                index <= ids@.len(),
                lists.len() == entries.len(),
                self.lists@.len() == lists.len(),
                entries == pairs_view(self.entries@),
                self.documents@ == documents,
                documents.len() == first,
                first <= last,
                all == documents + repeated(pairs, (last - first + 1) as nat),
                forall|i: int|
                    0 <= i < ids@.len() ==> #[trigger] ids@[i] < entries.len() && pairs.contains(
                        entries[ids@[i] as int],
                    ),
                forall|i: int, j: int|
                    0 <= i < j < ids@.len() ==> #[trigger] ids@[i] != #[trigger] ids@[j],
                forall|i: int|
                    0 <= i < lists.len() ==> lists_entry(#[trigger] lists[i], documents, entries[i]),
                forall|i: int|
                    0 <= i < lists.len() && !listed_before(ids@, index as int, i)
                        ==> #[trigger] self.lists@[i] == lists[i],
                forall|i: int|
                    0 <= i < lists.len() && listed_before(ids@, index as int, i) ==> lists_entry(
                        #[trigger] self.lists@[i],
                        all,
                        entries[i],
                    ),
            decreases ids@.len() - index,
        {
            let id: usize = ids[index];
            let ghost lists_now = self.lists@;
            proof {
                assert(!listed_before(ids@, index as int, id as int)) by {
                    assert forall|i: int| 0 <= i < index implies ids@[i] != id by {}
                }
                assert(self.lists@[id as int] == lists[id as int]);
                lemma_list_may_grow(lists[id as int], documents, entries[id as int], first);
                pushed_holds(lists[id as int].runs@, first, last);
            }
            self.lists[id].push_range(first, last);
            proof {
                lemma_list_grows(
                    lists[id as int],
                    self.lists@[id as int],
                    documents,
                    entries[id as int],
                    pairs,
                    first,
                    last,
                );
                assert forall|i: int|
                    0 <= i < lists.len() && !listed_before(
                        ids@,
                        index + 1,
                        i,
                    ) implies #[trigger] self.lists@[i] == lists[i] by {
                    assert(ids@[index as int] == id);
                    assert(!listed_before(ids@, index as int, i));
                    assert(i != id);
                    assert(self.lists@[i] == lists_now[i]);
                }
                assert forall|i: int|
                    0 <= i < lists.len() && listed_before(ids@, index + 1, i) implies lists_entry(
                    #[trigger] self.lists@[i],
                    all,
                    entries[i],
                ) by {
                    if i != id {
                        assert(listed_before(ids@, index as int, i));
                        assert(self.lists@[i] == lists_now[i]);
                    }
                }
            }
            index = index + 1;
        }
        self.documents = Ghost(all);
        proof {
            assert forall|i: int| 0 <= i < self.lists@.len() implies lists_entry(
                #[trigger] self.lists@[i],
                all,
                entries[i],
            ) by {
                if !listed_before(ids@, ids@.len() as int, i) {
                    assert(self.lists@[i] == lists[i]);
                    assert(lists_entry(lists[i], documents, entries[i]));
                    assert(!pairs.contains(entries[i])) by {
                        if pairs.contains(entries[i]) {
                            let k = choose|k: int| 0 <= k < pairs.len() && pairs[k] == entries[i];
                            assert(interned(entries, ids@, pairs_view(document@)[k]));
                            let j = choose|j: int|
                                0 <= j < ids@.len() && ids@[j] < entries.len() && entries[(
                                #[trigger] ids@[j]) as int] == pairs[k];
                            if ids@[j] < i {
                                assert(entries[ids@[j] as int] != entries[i]);
                            } else if ids@[j] > i {
                                assert(entries[i] != entries[ids@[j] as int]);
                            }
                            assert(ids@[j] == i);
                        }
                    }
                    assert forall|ordinal: int|
                        #[trigger] held(self.lists@[i].runs@, ordinal) <==> (0 <= ordinal
                            < all.len() && all[ordinal].contains(entries[i])) by {
                        if ordinal < documents.len() {
                        } else if ordinal < all.len() {
                            assert(all[ordinal] == pairs);
                        }
                    }
                }
            }
            assert forall|ordinal: int, k: int|
                0 <= ordinal < all.len() && 0 <= k < all[ordinal].len() implies entries.contains(
                #[trigger] all[ordinal][k],
            ) by {
                if ordinal < documents.len() {
                    assert(all[ordinal] == documents[ordinal]);
                    assert(entries.contains(documents[ordinal][k]));
                } else {
                    assert(all[ordinal] == pairs);
                    assert(interned(entries, ids@, pairs_view(document@)[k]));
                    let j = choose|j: int|
                        0 <= j < ids@.len() && ids@[j] < entries.len() && entries[(
                        #[trigger] ids@[j]) as int] == pairs[k];
                    assert(entries[ids@[j] as int] == all[ordinal][k]);
                }
            }
        }
    }
}

/// Whether one of the first `count` places is `place`.
spec fn listed_before(places: Seq<usize>, count: int, place: int) -> bool {
    exists|i: int| 0 <= i < count && #[trigger] places[i] == place
}

/// Whether an entry is at one of the places.
spec fn interned(entries: Pairs, places: Seq<usize>, entry: Entry) -> bool {
    exists|i: int|
        0 <= i < places.len() && places[i] < entries.len() && entries[(
        #[trigger] places[i]) as int] == entry
}

proof fn lemma_list_may_grow(
    list: HotPostingList,
    documents: Seq<Pairs>,
    entry: Entry,
    first: u32,
)
    requires
        lists_entry(list, documents, entry),
        documents.len() == first,
    ensures
        may_follow(list.runs@, first),
{
    let runs = list.runs@;
    if runs.len() > 0 {
        let last = runs[runs.len() - 1];
        assert(last.first <= last.last);
        assert(held(runs, last.last as int));
    }
}

proof fn lemma_list_grows(
    before: HotPostingList,
    after: HotPostingList,
    documents: Seq<Pairs>,
    entry: Entry,
    document: Pairs,
    first: u32,
    last: u32,
)
    requires
        lists_entry(before, documents, entry),
        documents.len() == first,
        first <= last,
        document.contains(entry),
        after.well_formed(),
        after.runs@ == pushed(before.runs@, first, last),
        may_follow(before.runs@, first),
    ensures
        lists_entry(
            after,
            documents + repeated(document, (last - first + 1) as nat),
            entry,
        ),
{
    let all = documents + repeated(document, (last - first + 1) as nat);
    pushed_holds(before.runs@, first, last);
    assert forall|ordinal: int|
        #[trigger] held(after.runs@, ordinal) <==> (0 <= ordinal < all.len()
            && all[ordinal].contains(entry)) by {
        assert(held(after.runs@, ordinal) == (held(before.runs@, ordinal) || first <= ordinal
            <= last));
        if 0 <= ordinal < documents.len() {
            assert(all[ordinal] == documents[ordinal]);
        } else if ordinal < all.len() && ordinal >= 0 {
            assert(all[ordinal] == document);
        }
    }
}

/// Whether all lists hold an ordinal.
pub open spec fn all_hold(lists: Seq<&HotPostingList>, ordinal: int) -> bool {
    forall|i: int| 0 <= i < lists.len() ==> held((#[trigger] lists[i]).runs@, ordinal)
}

/// Ordinals in `[start, end)` that all lists hold, ascending. The shortest list is
/// walked, and the others narrow it.
pub fn ordinals_in_all(lists: &Vec<&HotPostingList>, start: u32, end: u32) -> (ordinals: Vec<u32>)
    requires
        lists@.len() > 0,
        forall|i: int| 0 <= i < lists@.len() ==> (#[trigger] lists@[i]).well_formed(),
    ensures
        rising(ordinals@),
        forall|ordinal: u32|
            #[trigger] ordinals@.contains(ordinal) <==> (start <= ordinal < end && all_hold(
                lists@,
                ordinal as int,
            )),
{
    let mut best: usize = 0;
    let mut index: usize = 1;
    while index < lists.len()
        invariant
            best < lists@.len(),
            1 <= index <= lists@.len(),
        decreases lists@.len() - index,
    {
        if lists[index].cardinality < lists[best].cardinality {
            best = index;
        }
        index = index + 1;
    }
    let mut ordinals = lists[best].collect_in(start, end, QueryOrder::OldestFirst, None);
    proof {
        window_is_exact(lists@[best as int].runs@, start, end);
    }
    let mut place: usize = 0;
    while place < lists.len()
        invariant
            place <= lists@.len(),
            best < lists@.len(),
            forall|i: int| 0 <= i < lists@.len() ==> (#[trigger] lists@[i]).well_formed(),
            rising(ordinals@),
            forall|ordinal: u32|
                #[trigger] ordinals@.contains(ordinal) <==> (start <= ordinal < end && held(
                    lists@[best as int].runs@,
                    ordinal as int,
                ) && forall|i: int|
                    0 <= i < place ==> held((#[trigger] lists@[i]).runs@, ordinal as int)),
        decreases lists@.len() - place,
    {
        let ghost before = ordinals@;
        let ghost runs = lists@[place as int].runs@;
        intersect_ordinal_runs(&mut ordinals, &lists[place].runs, start, end);
        proof {
            lemma_surviving(before, runs, start, end);
            assert forall|ordinal: u32|
                #[trigger] ordinals@.contains(ordinal) <==> (start <= ordinal < end && held(
                    lists@[best as int].runs@,
                    ordinal as int,
                ) && forall|i: int|
                    0 <= i < place + 1 ==> held((#[trigger] lists@[i]).runs@, ordinal as int)) by {
                assert(ordinals@.contains(ordinal) <==> before.contains(ordinal) && survives(
                    runs,
                    start,
                    end,
                    ordinal,
                ));
                if start <= ordinal < end {
                    lemma_survives_is_held(runs, start, end, ordinal);
                }
                if ordinals@.contains(ordinal) {
                    assert(held(lists@[place as int].runs@, ordinal as int));
                }
            }
        }
        place = place + 1;
    }
    proof {
        assert forall|ordinal: u32|
            #[trigger] ordinals@.contains(ordinal) <==> (start <= ordinal < end && all_hold(
                lists@,
                ordinal as int,
            )) by {
            if all_hold(lists@, ordinal as int) {
                assert(held(lists@[best as int].runs@, ordinal as int));
            }
        }
    }
    ordinals
}

proof fn lemma_survives_is_held(runs: Seq<OrdinalRun>, start: u32, end: u32, ordinal: u32)
    requires
        start <= ordinal < end,
    ensures
        survives(runs, start, end, ordinal) == held(runs, ordinal as int),
{
}

proof fn lemma_surviving(candidates: Seq<u32>, runs: Seq<OrdinalRun>, start: u32, end: u32)
    requires
        rising(candidates),
    ensures
        rising(surviving(candidates, runs, start, end)),
        forall|ordinal: u32|
            #[trigger] surviving(candidates, runs, start, end).contains(ordinal) <==> (
            candidates.contains(ordinal) && survives(runs, start, end, ordinal)),
    decreases candidates.len(),
{
    if candidates.len() > 0 {
        let front = candidates.drop_last();
        let early = surviving(front, runs, start, end);
        let all = surviving(candidates, runs, start, end);
        let last = candidates.last();
        assert(last == candidates[candidates.len() - 1]);
        assert(rising(front)) by {
            assert forall|i: int, j: int| 0 <= i < j < front.len() implies #[trigger] front[i]
                < #[trigger] front[j] by {
                assert(candidates[i] < candidates[j]);
            }
        }
        lemma_surviving(front, runs, start, end);
        assert forall|i: int| 0 <= i < early.len() implies #[trigger] early[i] < last by {
            assert(early.contains(early[i]));
            assert(front.contains(early[i]));
            let k = choose|k: int| 0 <= k < front.len() && front[k] == early[i];
            assert(candidates[k] == early[i]);
        }
        assert forall|ordinal: u32|
            #[trigger] all.contains(ordinal) <==> (candidates.contains(ordinal) && survives(
                runs,
                start,
                end,
                ordinal,
            )) by {
            if candidates.contains(ordinal) {
                let k = choose|k: int| 0 <= k < candidates.len() && candidates[k] == ordinal;
                if k < front.len() {
                    assert(front[k] == ordinal);
                    assert(front.contains(ordinal));
                }
            }
            if front.contains(ordinal) {
                let k = choose|k: int| 0 <= k < front.len() && front[k] == ordinal;
                assert(candidates[k] == ordinal);
            }
            if survives(runs, start, end, last) {
                assert(all =~= early.push(last));
                if early.contains(ordinal) {
                    let k = choose|k: int| 0 <= k < early.len() && early[k] == ordinal;
                    assert(all[k] == ordinal);
                }
                assert(all[early.len() as int] == last);
                if all.contains(ordinal) {
                    let k = choose|k: int| 0 <= k < all.len() && all[k] == ordinal;
                    if k < early.len() {
                        assert(early[k] == ordinal);
                    } else {
                        assert(candidates[candidates.len() - 1] == ordinal);
                    }
                }
            }
        }
    }
}

/// Two ascending lists with the same members are equal.
pub proof fn lemma_rising_unique(left: Seq<u32>, right: Seq<u32>)
    requires
        rising(left),
        rising(right),
        forall|ordinal: u32| left.contains(ordinal) == right.contains(ordinal),
    ensures
        left == right,
    decreases left.len(),
{
    if left.len() == 0 {
        if right.len() > 0 {
            assert(right.contains(right[0]));
            assert(left.contains(right[0]));
        }
        assert(left =~= right);
    } else {
        assert(left.contains(left.last()));
        assert(right.contains(left.last()));
        assert(right.contains(right.last()));
        assert(left.contains(right.last()));
        let a = choose|a: int| 0 <= a < right.len() && right[a] == left.last();
        let b = choose|b: int| 0 <= b < left.len() && left[b] == right.last();
        if a < right.len() - 1 {
            assert(right[a] < right[right.len() - 1]);
        }
        if b < left.len() - 1 {
            assert(left[b] < left[left.len() - 1]);
        }
        assert(left.last() == right.last());
        let l = left.drop_last();
        let r = right.drop_last();
        assert forall|i: int, j: int| 0 <= i < j < l.len() implies #[trigger] l[i]
            < #[trigger] l[j] by {
            assert(left[i] < left[j]);
        }
        assert forall|i: int, j: int| 0 <= i < j < r.len() implies #[trigger] r[i]
            < #[trigger] r[j] by {
            assert(right[i] < right[j]);
        }
        assert forall|ordinal: u32| l.contains(ordinal) == r.contains(ordinal) by {
            if l.contains(ordinal) {
                let k = choose|k: int| 0 <= k < l.len() && l[k] == ordinal;
                assert(left[k] == ordinal);
                assert(left[k] < left[left.len() - 1]);
                assert(left.contains(ordinal));
                let m = choose|m: int| 0 <= m < right.len() && right[m] == ordinal;
                assert(r[m] == ordinal);
            }
            if r.contains(ordinal) {
                let k = choose|k: int| 0 <= k < r.len() && r[k] == ordinal;
                assert(right[k] == ordinal);
                assert(right[k] < right[right.len() - 1]);
                assert(right.contains(ordinal));
                let m = choose|m: int| 0 <= m < left.len() && left[m] == ordinal;
                assert(l[m] == ordinal);
            }
        }
        lemma_rising_unique(l, r);
        assert(left =~= l.push(left.last()));
        assert(right =~= r.push(right.last()));
    }
}

} // verus!
