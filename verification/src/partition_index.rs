//! Hot index of the records of one partition.
use vstd::prelude::*;

use crate::error::LogDbError;
use crate::labels::{fields_view, pairs_view, MetadataField, Pairs};
use crate::log_query::{
    in_range, offset_number, records_view, search_forms, DurableLogRecord, LogQuery,
    LogQueryModel, QuerySort, RecordModel,
};
use crate::order::{arranged, is_order, order_of, stable_order};
use crate::posting::{
    collect_ordered_range, directed, held, limited, reversed, rising, span, HotPostingList,
    QueryOrder,
};
use crate::record::{LogicalOffset, TopicPartition};
use crate::search_index::{all_hold, lemma_rising_unique, ordinals_in_all, repeated, SearchIndex};
use crate::text::normalize_term;

verus! {

broadcast use vstd::seq_lib::group_seq_properties;

/// Records of a partition with the terms of their messages.
#[verifier::ext_equal]
pub struct PartitionModel {
    /// Records in ascending offset order.
    pub records: Seq<RecordModel>,
    /// Search forms of the terms of each record.
    pub terms: Seq<Seq<Seq<char>>>,
}

/// Terms as index entries, which have no key.
pub open spec fn term_entries(terms: Seq<Seq<char>>) -> Pairs {
    terms.map_values(|term: Seq<char>| (Seq::empty(), term))
}

/// The terms of index entries.
pub open spec fn entry_terms(entries: Pairs) -> Seq<Seq<char>> {
    entries.map_values(|entry: (Seq<char>, Seq<char>)| entry.1)
}

/// The ordinals below `count` whose records a query selects, ascending.
pub open spec fn matching(model: PartitionModel, query: LogQueryModel, count: nat) -> Seq<u32>
    decreases count,
{
    if count == 0 {
        Seq::empty()
    } else {
        let front = matching(model, query, (count - 1) as nat);
        if query.selects(model.records[count - 1], model.terms[count - 1]) {
            front.push((count - 1) as u32)
        } else {
            front
        }
    }
}

/// Sort keys of the records at ordinals.
pub open spec fn ordinal_sort_keys(
    ordinals: Seq<u32>,
    records: Seq<RecordModel>,
    query: LogQueryModel,
) -> Seq<u128> {
    ordinals.map_values(|ordinal: u32| query.key(records[ordinal as int]))
}

/// Ordinals in the order of a query.
pub open spec fn sorted_ordinals(
    ordinals: Seq<u32>,
    records: Seq<RecordModel>,
    query: LogQueryModel,
) -> Seq<u32> {
    match query.sort {
        QuerySort::Offset => ordinals,
        QuerySort::Timestamp => arranged(
            ordinals,
            order_of(ordinal_sort_keys(ordinals, records, query)),
        ),
    }
}

/// The answer of a partition: the selected records, sorted, in the query's
/// direction and up to its limit.
pub open spec fn answer(model: PartitionModel, query: LogQueryModel) -> Seq<u32> {
    directed(
        sorted_ordinals(matching(model, query, model.records.len()), model.records, query),
        query.order,
        query.limit,
    )
}

/// Hot index of one partition.
pub struct PartitionIndex {
    /// Partition of the records.
    pub topic_partition: TopicPartition,
    /// Records in ascending offset order.
    pub records: Vec<DurableLogRecord>,
    /// Records by message term.
    pub terms: SearchIndex,
    /// Records by field.
    pub fields: SearchIndex,
    /// Highest visible offset.
    pub indexed_through: Option<LogicalOffset>,
}

impl View for PartitionIndex {
    type V = PartitionModel;

    open spec fn view(&self) -> PartitionModel {
        PartitionModel {
            records: records_view(self.records@),
            terms: self.terms.documents@.map_values(|document: Pairs| entry_terms(document)),
        }
    }
}

/// Records in strictly ascending offset order.
pub open spec fn offsets_rise(records: Seq<RecordModel>) -> bool {
    forall|i: int, j: int|
        0 <= i < j < records.len() ==> (#[trigger] records[i]).reference.offset.0 < (
        #[trigger] records[j]).reference.offset.0
}

/// Offset of the last record.
pub open spec fn last_offset(records: Seq<RecordModel>) -> Option<LogicalOffset> {
    if records.len() == 0 {
        None
    } else {
        Some(records.last().reference.offset)
    }
}

/// Whether a document holds the terms of a record, which have no keys.
pub open spec fn keyless(document: Pairs) -> bool {
    forall|i: int| 0 <= i < document.len() ==> (#[trigger] document[i]).0.len() == 0
}

impl PartitionIndex {
    /// Both indexes cover exactly the records, which are in order and all visible.
    pub open spec fn well_formed(self) -> bool {
        let records = records_view(self.records@);
        &&& self.terms.well_formed()
        &&& self.fields.well_formed()
        &&& self.terms.documents@.len() == records.len()
        &&& self.fields.documents@.len() == records.len()
        &&& records.len() <= u32::MAX
        &&& offsets_rise(records)
        &&& forall|i: int|
            0 <= i < records.len() ==> (#[trigger] records[i]).reference.topic_partition
                == self.topic_partition
        &&& forall|i: int|
            0 <= i < records.len() ==> #[trigger] self.fields.documents@[i] == records[i].fields
        &&& forall|i: int|
            0 <= i < records.len() ==> keyless(#[trigger] self.terms.documents@[i])
        &&& self.indexed_through == last_offset(records)
    }

    /// An index without records.
    pub fn new(topic_partition: TopicPartition) -> (index: Self)
        ensures
            index.well_formed(),
            index.topic_partition == topic_partition,
            index@ == (PartitionModel { records: Seq::empty(), terms: Seq::empty() }),
    {
        let index = PartitionIndex {
            topic_partition,
            records: Vec::new(),
            terms: SearchIndex::new(),
            fields: SearchIndex::new(),
            indexed_through: None,
        };
        proof {
            assert(index@.records =~= Seq::<RecordModel>::empty());
            assert(index@.terms =~= Seq::<Seq<Seq<char>>>::empty());
        }
        index
    }

    /// First record whose offset is not below `offset`.
    fn partition_point(&self, offset: u64) -> (at: usize)
        requires
            self.well_formed(),
        ensures
            at <= self.records@.len(),
            forall|i: int|
                0 <= i < at ==> (#[trigger] self@.records[i]).reference.offset.0 < offset,
            forall|i: int|
                at <= i < self.records@.len() ==> (#[trigger] self@.records[i]).reference.offset.0
                    >= offset,
    {
        let ghost records = self@.records;
        let mut low: usize = 0;
        let mut high: usize = self.records.len();
        while low < high
            invariant
                low <= high <= self.records@.len(),
                records == records_view(self.records@),
                offsets_rise(records),
                forall|i: int| 0 <= i < low ==> (#[trigger] records[i]).reference.offset.0 < offset,
                forall|i: int|
                    high <= i < records.len() ==> (#[trigger] records[i]).reference.offset.0
                        >= offset,
            decreases high - low,
        {
            let middle: usize = low + (high - low) / 2;
            proof {
                assert(records[middle as int] == self.records@[middle as int]@);
            }
            if self.records[middle].record_ref.offset.0 < offset {
                low = middle + 1;
            } else {
                high = middle;
            }
        }
        low
    }

    /// The record at an offset.
    pub fn record<'a>(&'a self, offset: LogicalOffset) -> (record: Option<&'a DurableLogRecord>)
        requires
            self.well_formed(),
        ensures
            match record {
                Some(found) => found@.reference.offset == offset && self@.records.contains(found@),
                None => forall|i: int|
                    0 <= i < self@.records.len() ==> (#[trigger] self@.records[i]).reference.offset
                        != offset,
            },
    {
        let at: usize = self.partition_point(offset.0);
        if at < self.records.len() {
            proof {
                assert(self@.records[at as int] == self.records@[at as int]@);
            }
            if self.records[at].record_ref.offset.0 == offset.0 {
                return Some(&self.records[at]);
            }
            proof {
                assert forall|i: int| 0 <= i < self@.records.len() implies (
                #[trigger] self@.records[i]).reference.offset != offset by {
                    if i > at {
                        assert(self@.records[at as int].reference.offset.0
                            < self@.records[i].reference.offset.0);
                    }
                }
            }
        }
        None
    }

    /// Offset of the last record.
    pub fn last_offset(&self) -> (offset: Option<LogicalOffset>)
        ensures
            offset == last_offset(self@.records),
    {
        if self.records.len() == 0 {
            return None;
        }
        proof {
            assert(self@.records.last() == self.records@[self.records@.len() - 1]@);
        }
        Some(self.records[self.records.len() - 1].record_ref.offset)
    }

    /// The records of an offset range as a range of ordinals.
    fn ordinal_window(&self, start: Option<LogicalOffset>, end: Option<LogicalOffset>) -> (range: (
        usize,
        usize,
    ))
        requires
            self.well_formed(),
        ensures
            range.0 <= range.1 <= self.records@.len(),
            forall|i: int|
                0 <= i < self.records@.len() ==> (range.0 <= i < range.1 <==> in_range(
                    (#[trigger] self@.records[i]).reference.offset.0,
                    offset_number(start),
                    offset_number(end),
                )),
    {
        let first: usize = match start {
            Some(start) => self.partition_point(start.0),
            None => 0,
        };
        let last: usize = match end {
            Some(end) => self.partition_point(end.0),
            None => self.records.len(),
        };
        if first < last {
            (first, last)
        } else {
            proof {
                assert forall|i: int| 0 <= i < self.records@.len() implies (last <= i < last
                    <==> in_range(
                    (#[trigger] self@.records[i]).reference.offset.0,
                    offset_number(start),
                    offset_number(end),
                )) by {}
            }
            (last, last)
        }
    }

    /// Adds records `first` to `last` that all have the same terms and fields and
    /// have been appended to the records already.
    fn publish(&mut self, terms: &Vec<String>, fields: &Vec<MetadataField>, first: u32, last: u32)
        requires
            old(self).terms.well_formed(),
            old(self).fields.well_formed(),
            old(self).terms.documents@.len() == first,
            old(self).fields.documents@.len() == first,
            first <= last < u32::MAX,
            last + 1 == old(self).records@.len(),
        ensures
            final(self).terms.well_formed(),
            final(self).fields.well_formed(),
            final(self).topic_partition == old(self).topic_partition,
            final(self).records == old(self).records,
            final(self).terms.documents@ == old(self).terms.documents@ + repeated(
                term_entries(search_forms(terms@)),
                (last - first + 1) as nat,
            ),
            final(self).fields.documents@ == old(self).fields.documents@ + repeated(
                fields_view(fields@),
                (last - first + 1) as nat,
            ),
            final(self).indexed_through == last_offset(records_view(old(self).records@)),
    {
        let term_document = term_document(terms);
        let field_document = field_document(fields);
        self.terms.add_range(&term_document, first, last);
        self.fields.add_range(&field_document, first, last);
        let offset = self.records[last as usize].record_ref.offset;
        proof {
            assert(records_view(self.records@).last() == self.records@[last as int]@);
        }
        self.indexed_through = Some(offset);
    }

    /// Adds a record behind the last one.
    pub fn append(&mut self, record: DurableLogRecord, terms: &Vec<String>) -> (result: Result<
        (),
        LogDbError,
    >)
        requires
            old(self).well_formed(),
            record@.reference.topic_partition == old(self).topic_partition,
        ensures
            final(self).well_formed(),
            final(self).topic_partition == old(self).topic_partition,
            match result {
                Ok(_) => {
                    &&& append_error(old(self)@, record@) is None
                    &&& final(self)@ == appended(old(self)@, record@, search_forms(terms@))
                },
                Err(error) => append_error(old(self)@, record@) == Some(error) && final(self)@
                    == old(self)@,
            },
    {
        match validate_offset(self.last_offset(), &record) {
            Ok(_) => {},
            Err(error) => return Err(error),
        }
        let count: usize = self.records.len();
        if count as u64 >= u32::MAX as u64 {
            return Err(LogDbError::RecordTooLarge);
        }
        let ordinal: u32 = count as u32;
        let ghost before = self@;
        let ghost term_documents = self.terms.documents@;
        let ghost model = record@;
        let fields = crate::labels::clone_fields(&record.fields);
        proof {
            assert(records_view(self.records@.push(record)) =~= before.records.push(model));
        }
        self.records.push(record);
        self.publish(terms, &fields, ordinal, ordinal);
        proof {
            let document = term_entries(search_forms(terms@));
            lemma_term_entries(search_forms(terms@));
            assert(repeated(document, 1) =~= seq![document]);
            assert(repeated(fields_view(fields@), 1) =~= seq![fields_view(fields@)]);
            assert(self@.terms =~= before.terms.push(search_forms(terms@)));
            assert(self@.records =~= before.records.push(model));
            assert(offsets_rise(self@.records));
        }
        Ok(())
    }

    /// Adds a run of records with the same message and fields behind the last one.
    pub fn append_homogeneous(&mut self, records: Vec<DurableLogRecord>, terms: &Vec<String>)
        requires
            old(self).well_formed(),
            records@.len() > 0,
            old(self).records@.len() + records@.len() <= u32::MAX,
            offsets_rise(old(self)@.records + records_view(records@)),
            forall|i: int|
                0 <= i < records@.len() ==> (#[trigger] records@[i])@.fields == records@[0]@.fields
                    && records@[i]@.reference.topic_partition == old(self).topic_partition,
        ensures
            final(self).well_formed(),
            final(self).topic_partition == old(self).topic_partition,
            final(self)@ == all_appended(
                old(self)@,
                records_view(records@),
                search_forms(terms@),
            ),
    {
        let ghost before = self@;
        let ghost added = records_view(records@);
        let ghost raw = records@;
        let count: usize = records.len();
        let first: u32 = self.records.len() as u32;
        let last: u32 = (self.records.len() + (count - 1)) as u32;
        let fields = crate::labels::clone_fields(&records[0].fields);
        let ghost own = self.records@;
        let mut records = records;
        self.records.append(&mut records);
        proof {
            assert(records_view(self.records@) =~= before.records + added);
        }
        self.publish(terms, &fields, first, last);
        proof {
            let forms = search_forms(terms@);
            let document = term_entries(forms);
            lemma_term_entries(forms);
            assert(self@.terms =~= before.terms + Seq::new(added.len(), |i: int| forms));
            assert(self@.records =~= before.records + added);
            lemma_all_appended(before, added, forms);
            assert forall|i: int| 0 <= i < self@.records.len() implies
                #[trigger] self.fields.documents@[i] == self@.records[i].fields by {
                if i >= before.records.len() {
                    assert(self@.records[i] == raw[i - before.records.len()]@);
                } else {
                    assert(self@.records[i] == before.records[i]);
                }
            }
            assert forall|i: int| 0 <= i < self@.records.len() implies (
            #[trigger] self@.records[i]).reference.topic_partition == self.topic_partition by {
                if i >= before.records.len() {
                    assert(self@.records[i] == raw[i - before.records.len()]@);
                } else {
                    assert(self@.records[i] == before.records[i]);
                }
            }
        }
    }
}

/// What keeps a record from being appended.
pub open spec fn append_error(model: PartitionModel, record: RecordModel) -> Option<LogDbError> {
    match offset_error(last_offset(model.records), record) {
        Some(error) => Some(error),
        None => if model.records.len() >= u32::MAX {
            Some(LogDbError::RecordTooLarge)
        } else {
            None
        },
    }
}

/// A partition with one more record.
pub open spec fn appended(
    model: PartitionModel,
    record: RecordModel,
    terms: Seq<Seq<char>>,
) -> PartitionModel {
    PartitionModel { records: model.records.push(record), terms: model.terms.push(terms) }
}

/// A partition with records appended one by one, all with the same terms.
pub open spec fn all_appended(
    model: PartitionModel,
    records: Seq<RecordModel>,
    terms: Seq<Seq<char>>,
) -> PartitionModel
    decreases records.len(),
{
    if records.len() == 0 {
        model
    } else {
        appended(all_appended(model, records.drop_last(), terms), records.last(), terms)
    }
}

pub proof fn lemma_all_appended(
    model: PartitionModel,
    records: Seq<RecordModel>,
    terms: Seq<Seq<char>>,
)
    ensures
        all_appended(model, records, terms).records == model.records + records,
        all_appended(model, records, terms).terms == model.terms + Seq::new(
            records.len(),
            |i: int| terms,
        ),
    decreases records.len(),
{
    if records.len() == 0 {
        assert(model.records + records =~= model.records);
        assert(model.terms + Seq::new(0, |i: int| terms) =~= model.terms);
    } else {
        let front = records.drop_last();
        lemma_all_appended(model, front, terms);
        assert((model.records + front).push(records.last()) =~= model.records + records);
        assert((model.terms + Seq::new(front.len(), |i: int| terms)).push(terms) =~= model.terms
            + Seq::new(records.len(), |i: int| terms));
    }
}

proof fn lemma_term_entries(terms: Seq<Seq<char>>)
    ensures
        entry_terms(term_entries(terms)) == terms,
        keyless(term_entries(terms)),
{
    assert(entry_terms(term_entries(terms)) =~= terms);
}

/// What is wrong with the offset of a record behind a last offset.
pub open spec fn offset_error(last: Option<LogicalOffset>, record: RecordModel) -> Option<
    LogDbError,
> {
    match last {
        None => None,
        Some(previous) => if previous.0 == u64::MAX {
            Some(LogDbError::OffsetExhausted(record.reference.topic_partition))
        } else if record.reference.offset.0 <= previous.0 {
            Some(
                LogDbError::OffsetOutOfOrder {
                    partition: record.reference.topic_partition,
                    expected: LogicalOffset((previous.0 + 1) as u64),
                    observed: record.reference.offset,
                },
            )
        } else {
            None
        },
    }
}

/// Checks that the offset of a record lies behind the last one.
pub fn validate_offset(last: Option<LogicalOffset>, record: &DurableLogRecord) -> (result: Result<
    (),
    LogDbError,
>)
    ensures
        match result {
            Ok(_) => offset_error(last, record@) is None,
            Err(error) => offset_error(last, record@) == Some(error),
        },
{
    let previous = match last {
        Some(previous) => previous,
        None => return Ok(()),
    };
    if previous.0 == u64::MAX {
        return Err(LogDbError::OffsetExhausted(record.record_ref.topic_partition));
    }
    if record.record_ref.offset.0 <= previous.0 {
        return Err(
            LogDbError::OffsetOutOfOrder {
                partition: record.record_ref.topic_partition,
                expected: LogicalOffset(previous.0 + 1),
                observed: record.record_ref.offset,
            },
        );
    }
    Ok(())
}

/// Terms in search form as index entries.
fn term_document(terms: &Vec<String>) -> (document: Vec<(String, String)>)
    ensures
        pairs_view(document@) == term_entries(search_forms(terms@)),
{
    let mut document: Vec<(String, String)> = Vec::new();
    let ghost wanted = term_entries(search_forms(terms@));
    let mut index: usize = 0;
    while index < terms.len()
        invariant
            index <= terms@.len(),
            wanted == term_entries(search_forms(terms@)),
            document@.len() == index,
            forall|i: int| 0 <= i < index ==> pairs_view(document@)[i] == #[trigger] wanted[i],
        decreases terms@.len() - index,
    {
        let key = String::new();
        proof {
            assert(key@ =~= Seq::<char>::empty());
        }
        document.push((key, normalize_term(&terms[index])));
        index = index + 1;
    }
    proof {
        assert(pairs_view(document@) =~= wanted);
    }
    document
}

/// Fields as index entries.
fn field_document(fields: &Vec<MetadataField>) -> (document: Vec<(String, String)>)
    ensures
        pairs_view(document@) == fields_view(fields@),
{
    let mut document: Vec<(String, String)> = Vec::new();
    let ghost wanted = fields_view(fields@);
    let mut index: usize = 0;
    while index < fields.len()
        invariant
            index <= fields@.len(),
            wanted == fields_view(fields@),
            document@.len() == index,
            forall|i: int| 0 <= i < index ==> pairs_view(document@)[i] == #[trigger] wanted[i],
        decreases fields@.len() - index,
    {
        document.push((fields[index].key.clone(), fields[index].value.clone()));
        index = index + 1;
    }
    proof {
        assert(pairs_view(document@) =~= wanted);
    }
    document
}

/// Matching ordinals ascend and are those of the selected records.
pub proof fn lemma_matching(model: PartitionModel, query: LogQueryModel, count: nat)
    requires
        count <= u32::MAX,
    ensures
        rising(matching(model, query, count)),
        forall|ordinal: u32|
            #[trigger] matching(model, query, count).contains(ordinal) <==> (ordinal < count
                && query.selects(model.records[ordinal as int], model.terms[ordinal as int])),
    decreases count,
{
    if count > 0 {
        let last = (count - 1) as nat;
        let front = matching(model, query, last);
        let all = matching(model, query, count);
        lemma_matching(model, query, last);
        assert forall|i: int| 0 <= i < front.len() implies #[trigger] front[i] < last by {
            assert(front.contains(front[i]));
        }
        assert forall|ordinal: u32|
            #[trigger] all.contains(ordinal) <==> (ordinal < count && query.selects(
                model.records[ordinal as int],
                model.terms[ordinal as int],
            )) by {
            if query.selects(model.records[last as int], model.terms[last as int]) {
                assert(all[front.len() as int] == last);
                if front.contains(ordinal) {
                    let k = choose|k: int| 0 <= k < front.len() && front[k] == ordinal;
                    assert(all[k] == ordinal);
                }
                if all.contains(ordinal) && ordinal != last {
                    let k = choose|k: int| 0 <= k < all.len() && all[k] == ordinal;
                    assert(front[k] == ordinal);
                }
            }
        }
    }
}

/// What the posting lists of a query decide: an ordinal is in all of them exactly
/// where its record has all required terms and fields.
spec fn lists_decide(
    lists: Seq<&HotPostingList>,
    index: PartitionIndex,
    query: LogQueryModel,
    terms: int,
    fields: int,
) -> bool {
    forall|ordinal: int|
        0 <= ordinal < index.records@.len() ==> (#[trigger] all_hold(lists, ordinal) <==> {
            &&& forall|i: int|
                0 <= i < terms ==> index@.terms[ordinal].contains(#[trigger] query.terms[i])
            &&& forall|i: int|
                0 <= i < fields ==> index@.records[ordinal].fields.contains(
                    #[trigger] query.fields[i],
                )
        })
}

proof fn lemma_all_hold_push(
    lists: Seq<&HotPostingList>,
    list: &HotPostingList,
    ordinal: int,
)
    ensures
        all_hold(lists.push(list), ordinal) == (all_hold(lists, ordinal) && held(
            list.runs@,
            ordinal,
        )),
{
    let next = lists.push(list);
    if all_hold(next, ordinal) {
        assert(next[lists.len() as int] == list);
        assert forall|i: int| 0 <= i < lists.len() implies held(
            (#[trigger] lists[i]).runs@,
            ordinal,
        ) by {
            assert(next[i] == lists[i]);
        }
    }
}

proof fn lemma_term_held(document: Pairs, term: Seq<char>)
    requires
        keyless(document),
    ensures
        document.contains((Seq::empty(), term)) == entry_terms(document).contains(term),
{
    let entry = (Seq::<char>::empty(), term);
    if document.contains(entry) {
        let k = choose|k: int| 0 <= k < document.len() && document[k] == entry;
        assert(entry_terms(document)[k] == term);
    }
    if entry_terms(document).contains(term) {
        let k = choose|k: int| 0 <= k < document.len() && entry_terms(document)[k] == term;
        assert(document[k].0 =~= Seq::<char>::empty());
        assert(document[k] == entry);
    }
}

impl PartitionIndex {
    /// Collects the posting lists of a query; `None` where a required term or field
    /// occurs in no record.
    fn posting_lists<'a>(&'a self, query: &LogQuery) -> (lists: Option<Vec<&'a HotPostingList>>)
        requires
            self.well_formed(),
        ensures
            match lists {
                Some(found) => {
                    &&& found@.len() == query@.terms.len() + query@.fields.len()
                    &&& forall|i: int|
                        0 <= i < found@.len() ==> (#[trigger] found@[i]).well_formed()
                    &&& lists_decide(
                        found@,
                        *self,
                        query@,
                        query@.terms.len() as int,
                        query@.fields.len() as int,
                    )
                },
                None => forall|ordinal: int|
                    0 <= ordinal < self.records@.len() ==> !query@.selects(
                        #[trigger] self@.records[ordinal],
                        self@.terms[ordinal],
                    ),
            },
    {
        let mut lists: Vec<&'a HotPostingList> = Vec::new();
        let mut index: usize = 0;
        while index < query.terms.len()
            invariant
                self.well_formed(),
                index <= query.terms@.len(),
                lists@.len() == index,
                forall|i: int| 0 <= i < lists@.len() ==> (#[trigger] lists@[i]).well_formed(),
                lists_decide(lists@, *self, query@, index as int, 0),
            decreases query.terms@.len() - index,
        {
            let term = normalize_term(&query.terms[index]);
            let key = String::new();
            proof {
                assert(key@ =~= Seq::<char>::empty());
                assert(query@.terms[index as int] == term@);
            }
            match self.terms.list(&key, &term) {
                Some(list) => {
                    proof {
                        assert forall|ordinal: int|
                            0 <= ordinal < self.records@.len() implies (#[trigger] all_hold(
                            lists@.push(list),
                            ordinal,
                        ) <==> {
                            &&& forall|i: int|
                                0 <= i < index + 1 ==> self@.terms[ordinal].contains(
                                    #[trigger] query@.terms[i],
                                )
                            &&& forall|i: int|
                                0 <= i < 0 ==> self@.records[ordinal].fields.contains(
                                    #[trigger] query@.fields[i],
                                )
                        }) by {
                            lemma_all_hold_push(lists@, list, ordinal);
                            assert(all_hold(lists@, ordinal) || !all_hold(lists@, ordinal));
                            lemma_term_held(self.terms.documents@[ordinal], term@);
                            assert(held(list.runs@, ordinal) == self@.terms[ordinal].contains(
                                term@,
                            ));
                        }
                    }
                    lists.push(list);
                },
                None => {
                    proof {
                        assert forall|ordinal: int|
                            0 <= ordinal < self.records@.len() implies !query@.selects(
                            #[trigger] self@.records[ordinal],
                            self@.terms[ordinal],
                        ) by {
                            lemma_term_held(self.terms.documents@[ordinal], term@);
                            assert(!self@.terms[ordinal].contains(query@.terms[index as int]));
                        }
                    }
                    return None;
                },
            }
            index = index + 1;
        }
        let mut place: usize = 0;
        while place < query.fields.len()
            invariant
                self.well_formed(),
                place <= query.fields@.len(),
                lists@.len() == query.terms@.len() + place,
                forall|i: int| 0 <= i < lists@.len() ==> (#[trigger] lists@[i]).well_formed(),
                lists_decide(lists@, *self, query@, query@.terms.len() as int, place as int),
            decreases query.fields@.len() - place,
        {
            let ghost entry = query@.fields[place as int];
            proof {
                assert(entry == (query.fields@[place as int].0@, query.fields@[place as int].1@));
            }
            match self.fields.list(&query.fields[place].0, &query.fields[place].1) {
                Some(list) => {
                    proof {
                        assert forall|ordinal: int|
                            0 <= ordinal < self.records@.len() implies (#[trigger] all_hold(
                            lists@.push(list),
                            ordinal,
                        ) <==> {
                            &&& forall|i: int|
                                0 <= i < query@.terms.len() ==> self@.terms[ordinal].contains(
                                    #[trigger] query@.terms[i],
                                )
                            &&& forall|i: int|
                                0 <= i < place + 1 ==> self@.records[ordinal].fields.contains(
                                    #[trigger] query@.fields[i],
                                )
                        }) by {
                            lemma_all_hold_push(lists@, list, ordinal);
                            assert(all_hold(lists@, ordinal) || !all_hold(lists@, ordinal));
                            assert(self.fields.documents@[ordinal]
                                == self@.records[ordinal].fields);
                            assert(held(list.runs@, ordinal)
                                == self@.records[ordinal].fields.contains(entry));
                        }
                    }
                    lists.push(list);
                },
                None => {
                    proof {
                        assert forall|ordinal: int|
                            0 <= ordinal < self.records@.len() implies !query@.selects(
                            #[trigger] self@.records[ordinal],
                            self@.terms[ordinal],
                        ) by {
                            assert(self.fields.documents@[ordinal]
                                == self@.records[ordinal].fields);
                            assert(!self@.records[ordinal].fields.contains(
                                query@.fields[place as int],
                            ));
                        }
                    }
                    return None;
                },
            }
            place = place + 1;
        }
        Some(lists)
    }

    /// Ordinals of the selected records, ascending.
    fn selected(&self, query: &LogQuery) -> (ordinals: Vec<u32>)
        requires
            self.well_formed(),
            query.topic_partition == self.topic_partition,
        ensures
            ordinals@ == matching(self@, query@, self@.records.len()),
    {
        proof {
            lemma_matching(self@, query@, self@.records.len());
        }
        let lists = match self.posting_lists(query) {
            Some(lists) => lists,
            None => {
                let none: Vec<u32> = Vec::new();
                proof {
                    let all = matching(self@, query@, self@.records.len());
                    assert forall|ordinal: u32| none@.contains(ordinal) == all.contains(
                        ordinal,
                    ) by {
                        if all.contains(ordinal) {
                            assert(!query@.selects(
                                self@.records[ordinal as int],
                                self@.terms[ordinal as int],
                            ));
                        }
                    }
                    lemma_rising_unique(none@, all);
                }
                return none;
            },
        };
        let (start, end) = self.ordinal_window(query.start_offset, query.end_offset);
        let candidates = if lists.len() == 0 {
            let range = collect_ordered_range(start, end, QueryOrder::OldestFirst, None);
            proof {
                lemma_span(start as int, end - 1);
                assert forall|ordinal: int| #[trigger] all_hold(lists@, ordinal) by {}
            }
            range
        } else {
            ordinals_in_all(&lists, start as u32, end as u32)
        };
        proof {
            assert forall|ordinal: u32|
                #[trigger] candidates@.contains(ordinal) <==> (start <= ordinal < end && all_hold(
                    lists@,
                    ordinal as int,
                )) by {}
        }
        let mut ordinals: Vec<u32> = Vec::new();
        let mut index: usize = 0;
        while index < candidates.len()
            invariant
                self.well_formed(),
                index <= candidates@.len(),
                rising(candidates@),
                end <= self.records@.len(),
                forall|ordinal: u32|
                    #[trigger] candidates@.contains(ordinal) ==> start <= ordinal < end,
                rising(ordinals@),
                forall|i: int|
                    0 <= i < ordinals@.len() && index < candidates@.len()
                        ==> #[trigger] ordinals@[i] < candidates@[index as int],
                forall|ordinal: u32|
                    #[trigger] ordinals@.contains(ordinal) <==> (candidates@.subrange(
                        0,
                        index as int,
                    ).contains(ordinal) && query@.position_fits(self@.records[ordinal as int])),
            decreases candidates@.len() - index,
        {
            let ordinal: u32 = candidates[index];
            let ghost before = ordinals@;
            proof {
                assert(candidates@.contains(ordinal));
                assert(self@.records[ordinal as int] == self.records@[ordinal as int]@);
            }
            if query.position_matches(&self.records[ordinal as usize]) {
                ordinals.push(ordinal);
            }
            proof {
                let part = candidates@.subrange(0, index as int);
                assert(candidates@.subrange(0, index + 1) =~= part.push(ordinal));
                assert forall|other: u32|
                    #[trigger] ordinals@.contains(other) <==> (candidates@.subrange(
                        0,
                        index + 1,
                    ).contains(other) && query@.position_fits(self@.records[other as int])) by {
                    lemma_push_contains(part, ordinal, other);
                    lemma_push_contains(before, ordinal, other);
                }
                if index + 1 < candidates@.len() {
                    assert(candidates@[index as int] < candidates@[index + 1]);
                }
            }
            index = index + 1;
        }
        proof {
            assert(candidates@.subrange(0, index as int) =~= candidates@);
            let all = matching(self@, query@, self@.records.len());
            assert forall|ordinal: u32| ordinals@.contains(ordinal) == all.contains(ordinal) by {
                if ordinal < self@.records.len() {
                    let record = self@.records[ordinal as int];
                    assert(start <= ordinal < end <==> query@.offset_fits(record));
                    assert(all_hold(lists@, ordinal as int) || !all_hold(lists@, ordinal as int));
                }
            }
            lemma_rising_unique(ordinals@, all);
        }
        ordinals
    }

    /// The ordinals of the records that a query selects, in its order and up to its
    /// limit.
    pub fn query_ordinals(&self, query: &LogQuery) -> (ordinals: Vec<u32>)
        requires
            self.well_formed(),
            query.topic_partition == self.topic_partition,
        ensures
            ordinals@ == answer(self@, query@),
    {
        let selected = self.selected(query);
        proof {
            lemma_matching(self@, query@, self@.records.len());
            assert forall|i: int| 0 <= i < selected@.len() implies #[trigger] selected@[i]
                < self.records@.len() by {
                assert(selected@.contains(selected@[i]));
            }
        }
        let mut sorted = match query.sort {
            QuerySort::Offset => selected,
            QuerySort::Timestamp => self.sort_ordinals(&selected, query),
        };
        match query.order {
            QueryOrder::OldestFirst => {},
            QueryOrder::NewestFirst => {
                sorted = reversed(&sorted);
            },
        }
        match query.limit {
            Some(limit) => {
                let ghost whole = sorted@;
                if sorted.len() > limit {
                    sorted.truncate(limit);
                    proof {
                        assert(sorted@ =~= limited(whole, limit as nat));
                    }
                }
                sorted
            },
            None => sorted,
        }
    }

    /// Sorts ordinals by the query's key.
    fn sort_ordinals(&self, ordinals: &Vec<u32>, query: &LogQuery) -> (sorted: Vec<u32>)
        requires
            forall|i: int|
                0 <= i < ordinals@.len() ==> #[trigger] ordinals@[i] < self.records@.len(),
        ensures
            sorted@ == arranged(
                ordinals@,
                order_of(ordinal_sort_keys(ordinals@, self@.records, query@)),
            ),
    {
        let ghost wanted = ordinal_sort_keys(ordinals@, self@.records, query@);
        let mut keys: Vec<u128> = Vec::new();
        let mut index: usize = 0;
        while index < ordinals.len()
            invariant
                index <= ordinals@.len(),
                forall|i: int|
                    0 <= i < ordinals@.len() ==> #[trigger] ordinals@[i] < self.records@.len(),
                wanted == ordinal_sort_keys(ordinals@, self@.records, query@),
                keys@.len() == index,
                forall|i: int| 0 <= i < index ==> keys@[i] == wanted[i],
            decreases ordinals@.len() - index,
        {
            let at: u32 = ordinals[index];
            proof {
                assert(self@.records[at as int] == self.records@[at as int]@);
            }
            keys.push(query.key_of(&self.records[at as usize]));
            index = index + 1;
        }
        proof {
            assert(keys@ =~= wanted);
        }
        let order = stable_order(&keys);
        let mut sorted: Vec<u32> = Vec::new();
        let mut place: usize = 0;
        while place < order.len()
            invariant
                place <= order@.len(),
                is_order(keys@, order@),
                keys@.len() == ordinals@.len(),
                sorted@.len() == place,
                forall|i: int| 0 <= i < place ==> sorted@[i] == arranged(ordinals@, order@)[i],
            decreases order@.len() - place,
        {
            sorted.push(ordinals[order[place]]);
            place = place + 1;
        }
        proof {
            assert(sorted@ =~= arranged(ordinals@, order@));
        }
        sorted
    }
}

/// Answers name records that there are.
pub proof fn lemma_answer_in_range(model: PartitionModel, query: LogQueryModel)
    requires
        model.records.len() <= u32::MAX,
    ensures
        forall|i: int|
            0 <= i < answer(model, query).len() ==> #[trigger] answer(model, query)[i]
                < model.records.len(),
{
    let found = matching(model, query, model.records.len());
    let keys = ordinal_sort_keys(found, model.records, query);
    let sorted = sorted_ordinals(found, model.records, query);
    lemma_matching(model, query, model.records.len());
    lemma_rising_len(found, model.records.len());
    crate::order::lemma_order_exists(keys);
    assert forall|i: int| 0 <= i < sorted.len() implies #[trigger] sorted[i]
        < model.records.len() by {
        match query.sort {
            QuerySort::Offset => {
                assert(found.contains(found[i]));
            },
            QuerySort::Timestamp => {
                let at = order_of(keys)[i] as int;
                assert(sorted[i] == found[at]);
                assert(found.contains(found[at]));
            },
        }
    }
}

/// An ascending list below a bound has at most that many members.
pub proof fn lemma_rising_len(numbers: Seq<u32>, bound: nat)
    requires
        rising(numbers),
        bound <= u32::MAX,
        forall|number: u32| #[trigger] numbers.contains(number) ==> number < bound,
    ensures
        numbers.len() <= bound,
{
    if numbers.len() > 0 {
        lemma_rising_floor(numbers, numbers.len() - 1);
        assert(numbers.contains(numbers[numbers.len() - 1]));
    }
}

proof fn lemma_rising_floor(numbers: Seq<u32>, i: int)
    requires
        rising(numbers),
        0 <= i < numbers.len(),
    ensures
        numbers[i] >= i,
    decreases i,
{
    if i > 0 {
        lemma_rising_floor(numbers, i - 1);
        assert(numbers[i - 1] < numbers[i]);
    }
}

proof fn lemma_push_contains(items: Seq<u32>, item: u32, other: u32)
    ensures
        items.push(item).contains(other) == (items.contains(other) || other == item),
{
    let next = items.push(item);
    if items.contains(other) {
        let k = choose|k: int| 0 <= k < items.len() && items[k] == other;
        assert(next[k] == other);
    }
    assert(next[items.len() as int] == item);
    if next.contains(other) && other != item {
        let k = choose|k: int| 0 <= k < next.len() && next[k] == other;
        assert(items[k] == other);
    }
}

proof fn lemma_span(first: int, last: int)
    requires
        0 <= first,
        last < u32::MAX,
    ensures
        rising(span(first, last)),
        forall|ordinal: u32|
            #[trigger] span(first, last).contains(ordinal) <==> first <= ordinal <= last,
{
    let all = span(first, last);
    assert forall|ordinal: u32| #[trigger] all.contains(ordinal) <==> first <= ordinal
        <= last by {
        if first <= ordinal <= last {
            assert(all[ordinal - first] == ordinal);
        }
    }
}

} // verus!
