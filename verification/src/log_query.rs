//! Durable log records and the queries that select them.
use vstd::prelude::*;

use crate::codec::same_text;
use crate::labels::{clone_fields, clone_pairs, fields_view, pairs_view, MetadataField, Pairs};
use crate::log_predicate::{
    all_hold, all_match, clone_predicates, predicates_view, LogPredicate, PredicateModel,
};
use crate::posting::QueryOrder;
use crate::record::{
    CompressionCohortId, EventModel, LogicalOffset, OtlpLogEvent, RecordRef, ShardId,
    TopicPartition,
};
use crate::text::{normal_term, normalize_term};

verus! {

broadcast use vstd::seq_lib::group_seq_properties;

/// Value of a durable record.
#[verifier::ext_equal]
pub struct RecordModel {
    /// Physical shard.
    pub shard: ShardId,
    /// Partition and offset.
    pub reference: RecordRef,
    /// Nanosecond Unix timestamp.
    pub timestamp: u64,
    /// Log message.
    pub message: Seq<char>,
    /// Indexed fields.
    pub fields: Pairs,
    /// Compression cohort.
    pub cohort: CompressionCohortId,
}

/// Log record whose append is durable.
#[derive(Debug, PartialEq, Eq)]
pub struct DurableLogRecord {
    /// Physical shard that owns the record.
    pub stream_shard_id: ShardId,
    /// Partition and offset of the record.
    pub record_ref: RecordRef,
    /// Nanosecond Unix timestamp.
    pub timestamp_unix_nanos: u64,
    /// Log message.
    pub message: String,
    /// Indexed fields.
    pub fields: Vec<MetadataField>,
    /// Source compression cohort.
    pub compression_cohort: CompressionCohortId,
}

impl View for DurableLogRecord {
    type V = RecordModel;

    open spec fn view(&self) -> RecordModel {
        RecordModel {
            shard: self.stream_shard_id,
            reference: self.record_ref,
            timestamp: self.timestamp_unix_nanos,
            message: self.message@,
            fields: fields_view(self.fields@),
            cohort: self.compression_cohort,
        }
    }
}

impl Clone for DurableLogRecord {
    fn clone(&self) -> (copy: Self)
        ensures
            copy@ == self@,
    {
        DurableLogRecord {
            stream_shard_id: self.stream_shard_id,
            record_ref: self.record_ref,
            timestamp_unix_nanos: self.timestamp_unix_nanos,
            message: self.message.clone(),
            fields: clone_fields(&self.fields),
            compression_cohort: self.compression_cohort,
        }
    }
}

/// Values of records.
pub open spec fn records_view(records: Seq<DurableLogRecord>) -> Seq<RecordModel> {
    records.map_values(|record: DurableLogRecord| record@)
}

/// The record of an event at an offset.
pub open spec fn durable(
    event: EventModel,
    shard: ShardId,
    partition: TopicPartition,
    offset: LogicalOffset,
) -> RecordModel {
    RecordModel {
        shard,
        reference: RecordRef { topic_partition: partition, offset },
        timestamp: event.timestamp,
        message: event.message,
        fields: event.fields,
        cohort: CompressionCohortId(event.cohort),
    }
}

impl OtlpLogEvent {
    /// The durable record of this event at an offset.
    pub fn into_durable(
        self,
        stream_shard_id: ShardId,
        topic_partition: TopicPartition,
        offset: LogicalOffset,
    ) -> (record: DurableLogRecord)
        ensures
            record@ == durable(self@, stream_shard_id, topic_partition, offset),
    {
        DurableLogRecord {
            stream_shard_id,
            record_ref: RecordRef { topic_partition, offset },
            timestamp_unix_nanos: self.timestamp_unix_nanos,
            message: self.message,
            fields: self.fields,
            compression_cohort: self.compression_cohort,
        }
    }
}

/// Whether two lists of fields are the same.
pub fn same_fields(left: &Vec<MetadataField>, right: &Vec<MetadataField>) -> (same: bool)
    ensures
        same == (fields_view(left@) == fields_view(right@)),
{
    let ghost l = fields_view(left@);
    let ghost r = fields_view(right@);
    if left.len() != right.len() {
        proof {
            assert(l.len() != r.len());
        }
        return false;
    }
    let mut index: usize = 0;
    while index < left.len()
        invariant
            index <= left@.len(),
            left@.len() == right@.len(),
            l == fields_view(left@),
            r == fields_view(right@),
            forall|i: int| 0 <= i < index ==> l[i] == r[i],
        decreases left@.len() - index,
    {
        proof {
            assert(l[index as int] == (left@[index as int].key@, left@[index as int].value@));
            assert(r[index as int] == (right@[index as int].key@, right@[index as int].value@));
        }
        if !same_text(&left[index].key, &right[index].key) || !same_text(
            &left[index].value,
            &right[index].value,
        ) {
            return false;
        }
        index = index + 1;
    }
    proof {
        assert(l =~= r);
    }
    true
}

impl DurableLogRecord {
    /// Whether two records are the same.
    pub fn same(&self, other: &DurableLogRecord) -> (same: bool)
        ensures
            same == (self@ == other@),
    {
        self.stream_shard_id == other.stream_shard_id && self.record_ref == other.record_ref
            && self.timestamp_unix_nanos == other.timestamp_unix_nanos && same_text(
            &self.message,
            &other.message,
        ) && same_fields(&self.fields, &other.fields) && self.compression_cohort
            == other.compression_cohort
    }
}

/// What a result is sorted by.
#[derive(Debug, Clone, Copy, PartialEq, Eq, Structural)]
pub enum QuerySort {
    /// By offset.
    Offset,
    /// By timestamp, then by offset.
    Timestamp,
}

/// Place of a record in a result, behind which another result begins.
#[derive(Debug, Clone, Copy, PartialEq, Eq, Structural)]
pub struct QueryCursor {
    /// Timestamp of the record.
    pub timestamp_unix_nanos: u64,
    /// Offset of the record.
    pub offset: LogicalOffset,
}

impl QueryCursor {
    /// The place of a record with a timestamp and an offset.
    pub fn new(timestamp_unix_nanos: u64, offset: LogicalOffset) -> (cursor: Self)
        ensures
            cursor == (QueryCursor { timestamp_unix_nanos, offset }),
    {
        QueryCursor { timestamp_unix_nanos, offset }
    }
}

/// Sort key of a place in ascending order.
pub open spec fn place_key(sort: QuerySort, timestamp: u64, offset: LogicalOffset) -> u128 {
    match sort {
        QuerySort::Offset => offset.0 as u128,
        QuerySort::Timestamp => (timestamp * 0x1_0000_0000_0000_0000 + offset.0) as u128,
    }
}

/// Sort key of a place in ascending order.
fn key_at(sort: QuerySort, timestamp: u64, offset: LogicalOffset) -> (key: u128)
    ensures
        key == place_key(sort, timestamp, offset),
{
    match sort {
        QuerySort::Offset => offset.0 as u128,
        QuerySort::Timestamp => timestamp as u128 * 0x1_0000_0000_0000_0000 + offset.0 as u128,
    }
}

/// Exact lookup in one partition.
#[derive(Debug)]
pub struct LogQuery {
    /// Partition to search.
    pub topic_partition: TopicPartition,
    /// Terms that a record must all hold.
    pub terms: Vec<String>,
    /// Fields that a record must all carry.
    pub fields: Vec<(String, String)>,
    /// Conditions that a record must all meet.
    pub predicates: Vec<LogPredicate>,
    /// Lowest offset.
    pub start_offset: Option<LogicalOffset>,
    /// First offset past the range.
    pub end_offset: Option<LogicalOffset>,
    /// Lowest timestamp.
    pub start_timestamp_unix_nanos: Option<u64>,
    /// First timestamp past the range.
    pub end_timestamp_unix_nanos: Option<u64>,
    /// What the result is sorted by.
    pub sort: QuerySort,
    /// Direction of the result.
    pub order: QueryOrder,
    /// Most records of the result.
    pub limit: Option<usize>,
    /// Place behind which the result begins.
    pub after: Option<QueryCursor>,
}

/// Value of a query; terms in search form.
#[verifier::ext_equal]
pub struct LogQueryModel {
    /// Partition to search.
    pub partition: TopicPartition,
    /// Terms in search form.
    pub terms: Seq<Seq<char>>,
    /// Required fields.
    pub fields: Pairs,
    /// Conditions on the fields.
    pub predicates: Seq<PredicateModel>,
    /// Lowest offset.
    pub start_offset: Option<LogicalOffset>,
    /// First offset past the range.
    pub end_offset: Option<LogicalOffset>,
    /// Lowest timestamp.
    pub start_time: Option<u64>,
    /// First timestamp past the range.
    pub end_time: Option<u64>,
    /// What the result is sorted by.
    pub sort: QuerySort,
    /// Direction of the result.
    pub order: QueryOrder,
    /// Most records of the result.
    pub limit: Option<usize>,
    /// Place behind which the result begins.
    pub after: Option<QueryCursor>,
}

/// Terms in search form.
pub open spec fn search_forms(terms: Seq<String>) -> Seq<Seq<char>> {
    terms.map_values(|term: String| normal_term(term@))
}

impl View for LogQuery {
    type V = LogQueryModel;

    open spec fn view(&self) -> LogQueryModel {
        LogQueryModel {
            partition: self.topic_partition,
            terms: search_forms(self.terms@),
            fields: pairs_view(self.fields@),
            predicates: predicates_view(self.predicates@),
            start_offset: self.start_offset,
            end_offset: self.end_offset,
            start_time: self.start_timestamp_unix_nanos,
            end_time: self.end_timestamp_unix_nanos,
            sort: self.sort,
            order: self.order,
            limit: self.limit,
            after: self.after,
        }
    }
}

/// Whether a number is in an optional half-open range.
pub open spec fn in_range(value: u64, start: Option<u64>, end: Option<u64>) -> bool {
    &&& start matches Some(low) ==> low <= value
    &&& end matches Some(high) ==> value < high
}

/// The number of an optional offset.
pub open spec fn offset_number(offset: Option<LogicalOffset>) -> Option<u64> {
    match offset {
        Some(offset) => Some(offset.0),
        None => None,
    }
}

impl LogQueryModel {
    /// Whether the record's offset is in the range.
    pub open spec fn offset_fits(self, record: RecordModel) -> bool {
        in_range(
            record.reference.offset.0,
            offset_number(self.start_offset),
            offset_number(self.end_offset),
        )
    }

    /// Whether a key lies behind the cursor, if there is one.
    pub open spec fn behind_cursor(self, key: u128) -> bool {
        match self.after {
            None => true,
            Some(cursor) => {
                let place = place_key(self.sort, cursor.timestamp_unix_nanos, cursor.offset);
                match self.order {
                    QueryOrder::OldestFirst => key > place,
                    QueryOrder::NewestFirst => key < place,
                }
            },
        }
    }

    /// Whether the record's timestamp is in the range, the record lies behind the cursor, and
    /// it meets the conditions.
    pub open spec fn position_fits(self, record: RecordModel) -> bool {
        &&& in_range(record.timestamp, self.start_time, self.end_time)
        &&& self.behind_cursor(self.key(record))
        &&& all_hold(self.predicates, record.fields)
    }

    /// Whether a record with these terms, in search form, is selected.
    pub open spec fn selects(self, record: RecordModel, terms: Seq<Seq<char>>) -> bool {
        &&& record.reference.topic_partition == self.partition
        &&& self.offset_fits(record)
        &&& self.position_fits(record)
        &&& forall|i: int| 0 <= i < self.terms.len() ==> terms.contains(#[trigger] self.terms[i])
        &&& forall|i: int|
            0 <= i < self.fields.len() ==> record.fields.contains(#[trigger] self.fields[i])
    }

    /// Sort key of a record in ascending order.
    pub open spec fn key(self, record: RecordModel) -> u128 {
        place_key(self.sort, record.timestamp, record.reference.offset)
    }

    /// Whether a range is empty whatever is stored.
    pub open spec fn invalid_range(self) -> bool {
        ||| (self.start_offset matches Some(start) && (self.end_offset matches Some(end)
            && start.0 >= end.0))
        ||| (self.start_time matches Some(start) && (self.end_time matches Some(end) && start
            >= end))
    }
}

/// A query with an empty range selects nothing.
pub proof fn invalid_range_selects_nothing(
    query: LogQueryModel,
    record: RecordModel,
    terms: Seq<Seq<char>>,
)
    requires
        query.invalid_range(),
    ensures
        !query.selects(record, terms),
{
}

/// Whether a number is in an optional half-open range.
fn range_holds(value: u64, start: Option<u64>, end: Option<u64>) -> (inside: bool)
    ensures
        inside == in_range(value, start, end),
{
    (match start {
        Some(low) => low <= value,
        None => true,
    }) && (match end {
        Some(high) => value < high,
        None => true,
    })
}

/// The number of an optional offset.
fn number_of(offset: Option<LogicalOffset>) -> (number: Option<u64>)
    ensures
        number == offset_number(offset),
{
    match offset {
        Some(offset) => Some(offset.0),
        None => None,
    }
}

pub(crate) fn holds_text(texts: &Vec<String>, text: &str) -> (found: bool)
    ensures
        found == texts@.map_values(|item: String| item@).contains(text@),
{
    let ghost all = texts@.map_values(|item: String| item@);
    let mut index: usize = 0;
    while index < texts.len()
        invariant
            index <= texts@.len(),
            all == texts@.map_values(|item: String| item@),
            forall|i: int| 0 <= i < index ==> all[i] != text@,
        decreases texts@.len() - index,
    {
        if same_text(&texts[index], text) {
            proof {
                assert(all[index as int] == text@);
            }
            return true;
        }
        index = index + 1;
    }
    false
}

fn holds_field(fields: &Vec<MetadataField>, key: &str, value: &str) -> (found: bool)
    ensures
        found == fields_view(fields@).contains((key@, value@)),
{
    let ghost all = fields_view(fields@);
    let mut index: usize = 0;
    while index < fields.len()
        invariant
            index <= fields@.len(),
            all == fields_view(fields@),
            forall|i: int| 0 <= i < index ==> #[trigger] all[i] != (key@, value@),
        decreases fields@.len() - index,
    {
        proof {
            assert(all[index as int] == (fields@[index as int].key@, fields@[index as int].value@));
        }
        if same_text(&fields[index].key, key) && same_text(&fields[index].value, value) {
            return true;
        }
        index = index + 1;
    }
    proof {
        assert(!all.contains((key@, value@)));
    }
    false
}

impl LogQuery {
    /// A query for all records of a partition, oldest first.
    pub fn new(topic_partition: TopicPartition) -> (query: Self)
        ensures
            query@ == (LogQueryModel {
                partition: topic_partition,
                terms: Seq::empty(),
                fields: Seq::empty(),
                predicates: Seq::empty(),
                start_offset: None,
                end_offset: None,
                start_time: None,
                end_time: None,
                sort: QuerySort::Offset,
                order: QueryOrder::OldestFirst,
                limit: None,
                after: None,
            }),
    {
        let query = LogQuery {
            topic_partition,
            terms: Vec::new(),
            fields: Vec::new(),
            predicates: Vec::new(),
            start_offset: None,
            end_offset: None,
            start_timestamp_unix_nanos: None,
            end_timestamp_unix_nanos: None,
            sort: QuerySort::Offset,
            order: QueryOrder::OldestFirst,
            limit: None,
            after: None,
        };
        proof {
            assert(query@.terms =~= Seq::<Seq<char>>::empty());
            assert(query@.fields =~= Pairs::empty());
            assert(query@.predicates =~= Seq::<PredicateModel>::empty());
        }
        query
    }

    /// Requires one more condition.
    pub fn with_predicate(self, predicate: LogPredicate) -> (query: Self)
        ensures
            query@ == (LogQueryModel {
                predicates: self@.predicates.push(predicate@),
                ..self@
            }),
    {
        let mut query = self;
        proof {
            assert(predicates_view(query.predicates@.push(predicate)) =~= predicates_view(
                query.predicates@,
            ).push(predicate@));
        }
        query.predicates.push(predicate);
        query
    }

    /// Requires one more term.
    pub fn with_term(self, term: &str) -> (query: Self)
        ensures
            query@ == (LogQueryModel { terms: self@.terms.push(normal_term(term@)), ..self@ }),
    {
        let mut query = self;
        let owned = term.to_owned();
        proof {
            assert(search_forms(query.terms@.push(owned)) =~= search_forms(query.terms@).push(
                normal_term(term@),
            ));
        }
        query.terms.push(owned);
        query
    }

    /// Requires one more field.
    pub fn with_field(self, key: &str, value: &str) -> (query: Self)
        ensures
            query@ == (LogQueryModel { fields: self@.fields.push((key@, value@)), ..self@ }),
    {
        let mut query = self;
        let owned = (key.to_owned(), value.to_owned());
        proof {
            assert(pairs_view(query.fields@.push(owned)) =~= pairs_view(query.fields@).push(
                (key@, value@),
            ));
        }
        query.fields.push(owned);
        query
    }

    /// Restricts offsets to `[start, end)`.
    pub fn with_offset_range(self, start: LogicalOffset, end: LogicalOffset) -> (query: Self)
        ensures
            query@ == (LogQueryModel {
                start_offset: Some(start),
                end_offset: Some(end),
                ..self@
            }),
    {
        LogQuery { start_offset: Some(start), end_offset: Some(end), ..self }
    }

    /// Restricts timestamps to `[start, end)`.
    pub fn with_timestamp_range(self, start: u64, end: u64) -> (query: Self)
        ensures
            query@ == (LogQueryModel { start_time: Some(start), end_time: Some(end), ..self@ }),
    {
        LogQuery {
            start_timestamp_unix_nanos: Some(start),
            end_timestamp_unix_nanos: Some(end),
            ..self
        }
    }

    /// Sorts the result by timestamp.
    pub fn sort_by_timestamp(self) -> (query: Self)
        ensures
            query@ == (LogQueryModel { sort: QuerySort::Timestamp, ..self@ }),
    {
        LogQuery { sort: QuerySort::Timestamp, ..self }
    }

    /// Turns the result around.
    pub fn newest_first(self) -> (query: Self)
        ensures
            query@ == (LogQueryModel { order: QueryOrder::NewestFirst, ..self@ }),
    {
        LogQuery { order: QueryOrder::NewestFirst, ..self }
    }

    /// Limits the result.
    pub fn with_limit(self, limit: usize) -> (query: Self)
        ensures
            query@ == (LogQueryModel { limit: Some(limit), ..self@ }),
    {
        LogQuery { limit: Some(limit), ..self }
    }

    /// Whether a range is empty whatever is stored.
    pub fn has_invalid_range(&self) -> (invalid: bool)
        ensures
            invalid == self@.invalid_range(),
    {
        (match (self.start_offset, self.end_offset) {
            (Some(start), Some(end)) => start.0 >= end.0,
            _ => false,
        }) || (match (self.start_timestamp_unix_nanos, self.end_timestamp_unix_nanos) {
            (Some(start), Some(end)) => start >= end,
            _ => false,
        })
    }

    /// Whether a record's timestamp is in the range, the record lies behind the cursor, and it
    /// meets the conditions.
    pub fn position_matches(&self, record: &DurableLogRecord) -> (inside: bool)
        ensures
            inside == self@.position_fits(record@),
    {
        if !range_holds(
            record.timestamp_unix_nanos,
            self.start_timestamp_unix_nanos,
            self.end_timestamp_unix_nanos,
        ) || !all_match(&self.predicates, &record.fields) {
            return false;
        }
        match self.after {
            None => true,
            Some(cursor) => {
                let place: u128 = key_at(self.sort, cursor.timestamp_unix_nanos, cursor.offset);
                let key: u128 = self.key_of(record);
                match self.order {
                    QueryOrder::OldestFirst => key > place,
                    QueryOrder::NewestFirst => key < place,
                }
            },
        }
    }

    /// Whether a record with these terms, in search form, is selected.
    pub fn matches(&self, record: &DurableLogRecord, terms: &Vec<String>) -> (matches: bool)
        ensures
            matches == self@.selects(record@, terms@.map_values(|item: String| item@)),
    {
        let ghost held = terms@.map_values(|item: String| item@);
        if record.record_ref.topic_partition != self.topic_partition || !range_holds(
            record.record_ref.offset.0,
            number_of(self.start_offset),
            number_of(self.end_offset),
        ) || !self.position_matches(record) {
            return false;
        }
        let mut index: usize = 0;
        while index < self.terms.len()
            invariant
                index <= self.terms@.len(),
                held == terms@.map_values(|item: String| item@),
                forall|i: int| 0 <= i < index ==> held.contains(#[trigger] self@.terms[i]),
            decreases self.terms@.len() - index,
        {
            let term = normalize_term(&self.terms[index]);
            proof {
                assert(self@.terms[index as int] == term@);
            }
            if !holds_text(terms, &term) {
                return false;
            }
            index = index + 1;
        }
        let mut place: usize = 0;
        while place < self.fields.len()
            invariant
                place <= self.fields@.len(),
                forall|i: int|
                    0 <= i < place ==> record@.fields.contains(#[trigger] self@.fields[i]),
            decreases self.fields@.len() - place,
        {
            proof {
                assert(self@.fields[place as int] == (
                    self.fields@[place as int].0@,
                    self.fields@[place as int].1@,
                ));
            }
            if !holds_field(&record.fields, &self.fields[place].0, &self.fields[place].1) {
                return false;
            }
            place = place + 1;
        }
        true
    }

    /// Sort key of a record in ascending order.
    pub fn key_of(&self, record: &DurableLogRecord) -> (key: u128)
        ensures
            key == self@.key(record@),
    {
        key_at(self.sort, record.timestamp_unix_nanos, record.record_ref.offset)
    }

    /// Begins the result behind a place.
    pub fn after(self, cursor: QueryCursor) -> (query: Self)
        ensures
            query@ == (LogQueryModel { after: Some(cursor), ..self@ }),
    {
        LogQuery { after: Some(cursor), ..self }
    }
}

impl Clone for LogQuery {
    fn clone(&self) -> (copy: Self)
        ensures
            copy@ == self@,
    {
        let mut terms: Vec<String> = Vec::new();
        let mut index: usize = 0;
        while index < self.terms.len()
            invariant
                index <= self.terms@.len(),
                terms@.len() == index,
                forall|i: int| 0 <= i < index ==> (#[trigger] terms@[i])@ == self.terms@[i]@,
            decreases self.terms@.len() - index,
        {
            terms.push(self.terms[index].clone());
            index = index + 1;
        }
        proof {
            assert(search_forms(terms@) =~= search_forms(self.terms@));
        }
        LogQuery {
            topic_partition: self.topic_partition,
            terms,
            fields: clone_pairs(&self.fields),
            predicates: clone_predicates(&self.predicates),
            start_offset: self.start_offset,
            end_offset: self.end_offset,
            start_timestamp_unix_nanos: self.start_timestamp_unix_nanos,
            end_timestamp_unix_nanos: self.end_timestamp_unix_nanos,
            sort: self.sort,
            order: self.order,
            limit: self.limit,
            after: self.after,
        }
    }
}

} // verus!
