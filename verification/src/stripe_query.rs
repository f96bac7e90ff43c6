//! Queries over stripes: pages, compressed frames and the database of all shards.
use vstd::prelude::*;

use crate::error::{block_fault, BlockFault, ConfigFault, LogDbError};
use crate::frame_install::{check_frames, frames_fault, lemma_no_fault, InstalledFrame};
use crate::frame_query::stripe_answer;
use crate::ingest_frames::IndexedIngestFrame;
use crate::ingest_pack::StructuralRecord;
use crate::labels::{clone_fields, fields_view};
use crate::log_query::{
    records_view, search_forms, DurableLogRecord, LogQuery, LogQueryModel, RecordModel,
};
use crate::log_stripe::{
    has_offset, indexed_append_plan, no_records, published, IndexReceipt, IndexedFrameAppend,
    LogStripe,
};
use crate::order::{
    arranged, comes_before, is_order, lemma_order_exists, lemma_order_unique, listed, order_of,
    stable_order,
};
use crate::partition_index::{answer, matching, PartitionModel};
use crate::posting::{limited, QueryOrder};
use crate::record::{LogicalOffset, RecordRef, ShardId, TopicPartition};

verus! {

broadcast use vstd::seq_lib::group_seq_properties;

/// Rank of a record in a result: lower ranks come first.
pub open spec fn rank(query: LogQueryModel, record: RecordModel) -> u128 {
    match query.order {
        QueryOrder::OldestFirst => query.key(record),
        QueryOrder::NewestFirst => (u128::MAX - query.key(record)) as u128,
    }
}

/// Ranks of records.
pub open spec fn ranks(query: LogQueryModel, records: Seq<RecordModel>) -> Seq<u128> {
    records.map_values(|record: RecordModel| rank(query, record))
}

/// The first records of a result, by rank; records of one rank keep their order.
pub open spec fn page(
    query: LogQueryModel,
    records: Seq<RecordModel>,
    limit: Option<usize>,
) -> Seq<RecordModel> {
    let sorted = arranged(records, order_of(ranks(query, records)));
    match limit {
        Some(most) => limited(sorted, most as nat),
        None => sorted,
    }
}

/// Rank of a record in a result.
fn rank_of(query: &LogQuery, record: &DurableLogRecord) -> (value: u128)
    ensures
        value == rank(query@, record@),
{
    let key: u128 = query.key_of(record);
    match query.order {
        QueryOrder::OldestFirst => key,
        QueryOrder::NewestFirst => u128::MAX - key,
    }
}

/// Sorts matches into the order of a query and keeps the first ones.
pub fn sort_and_limit_matches(
    matches: &Vec<DurableLogRecord>,
    query: &LogQuery,
    limit: Option<usize>,
) -> (sorted: Vec<DurableLogRecord>)
    ensures
        records_view(sorted@) == page(query@, records_view(matches@), limit),
        forall|i: int|
            0 <= i < sorted@.len() ==> records_view(matches@).contains((#[trigger] sorted@[i])@),
{
    let ghost records = records_view(matches@);
    let mut keys: Vec<u128> = Vec::new();
    let mut index: usize = 0;
    while index < matches.len()
        invariant
            index <= matches@.len(),
            records == records_view(matches@),
            keys@.len() == index,
            forall|i: int| 0 <= i < index ==> keys@[i] == ranks(query@, records)[i],
        decreases matches@.len() - index,
    {
        proof {
            assert(records[index as int] == matches@[index as int]@);
        }
        keys.push(rank_of(query, &matches[index]));
        index = index + 1;
    }
    proof {
        assert(keys@ =~= ranks(query@, records));
    }
    let order = stable_order(&keys);
    let ghost wanted = arranged(records, order@);
    let take: usize = match limit {
        Some(most) => if most < order.len() {
            most
        } else {
            order.len()
        },
        None => order.len(),
    };
    let mut sorted: Vec<DurableLogRecord> = Vec::new();
    let mut place: usize = 0;
    while place < take
        invariant
            place <= take <= order@.len(),
            is_order(keys@, order@),
            keys@.len() == matches@.len(),
            records == records_view(matches@),
            wanted == arranged(records, order@),
            sorted@.len() == place,
            forall|i: int| 0 <= i < place ==> (#[trigger] sorted@[i])@ == wanted[i],
        decreases take - place,
    {
        let at: usize = order[place];
        proof {
            assert(wanted[place as int] == records[at as int]);
            assert(records[at as int] == matches@[at as int]@);
        }
        sorted.push(matches[at].clone());
        place = place + 1;
    }
    proof {
        assert(records_view(sorted@) =~= page(query@, records, limit));
        assert forall|i: int| 0 <= i < sorted@.len() implies records.contains(
            (#[trigger] sorted@[i])@,
        ) by {
            assert(sorted@[i]@ == wanted[i]);
            assert(wanted[i] == records[order@[i] as int]);
        }
    }
    sorted
}

/// A page that is full stays as it is where further records all rank behind its
/// last one.
pub proof fn full_page_is_final(
    query: LogQueryModel,
    records: Seq<RecordModel>,
    limit: usize,
    further: Seq<RecordModel>,
)
    requires
        records.len() + further.len() <= usize::MAX,
        0 < limit <= records.len(),
        forall|i: int|
            0 <= i < further.len() ==> rank(
                query,
                page(query, records, Some(limit)).last(),
            ) < rank(query, #[trigger] further[i]),
    ensures
        page(query, page(query, records, Some(limit)) + further, Some(limit)) == page(
            query,
            records,
            Some(limit),
        ),
{
    let kept = page(query, records, Some(limit));
    let all = kept + further;
    let keys = ranks(query, all);
    let late = ranks(query, further);
    let first_order = order_of(ranks(query, records));
    lemma_order_exists(ranks(query, records));
    lemma_order_exists(late);
    let n = kept.len();
    assert(n == limit);
    assert forall|i: int, j: int| 0 <= i < j < n implies keys[i] <= keys[j] by {
        assert(comes_before(
            ranks(query, records),
            first_order[i] as int,
            first_order[j] as int,
        ));
        assert(kept[i] == records[first_order[i] as int]);
        assert(kept[j] == records[first_order[j] as int]);
    }
    let order = Seq::new(
        all.len(),
        |i: int|
            if i < n {
                i as usize
            } else {
                (n + order_of(late)[i - n]) as usize
            },
    );
    assert(is_order(keys, order)) by {
        let tail = order_of(late);
        assert forall|i: int| 0 <= i < order.len() implies #[trigger] order[i] < all.len() by {
            if i >= n {
                assert(tail[i - n] < further.len());
            }
        }
        assert forall|place: int| 0 <= place < all.len() implies #[trigger] listed(
            order,
            place,
        ) by {
            if place < n {
                assert(order[place] == place);
            } else {
                assert(listed(tail, place - n));
                let k = choose|k: int| 0 <= k < tail.len() && #[trigger] tail[k] == place - n;
                assert(order[n + k] == place);
            }
        }
        assert forall|i: int, j: int| 0 <= i < j < order.len() implies comes_before(
            keys,
            #[trigger] order[i] as int,
            #[trigger] order[j] as int,
        ) by {
            if j < n {
            } else if i >= n {
                assert(comes_before(late, tail[i - n] as int, tail[j - n] as int));
                assert(keys[n + tail[i - n]] == late[tail[i - n] as int]);
                assert(keys[n + tail[j - n]] == late[tail[j - n] as int]);
            } else {
                let m = tail[j - n] as int;
                assert(m < further.len());
                assert(all[n + m] == further[m]);
                assert(rank(query, kept.last()) < rank(query, further[m]));
                if i < n - 1 {
                    assert(keys[i] <= keys[n - 1]);
                }
                assert(kept.last() == all[n - 1]);
            }
        }
    }
    lemma_order_unique(keys, order);
    assert(page(query, all, Some(limit)) =~= kept) by {
        let sorted = arranged(all, order);
        assert forall|i: int| 0 <= i < n implies sorted[i] == kept[i] by {
            assert(order[i] == i);
            assert(sorted[i] == all[i]);
        }
    }
}

/// Whether the records of a frame could still enter a full page of a query that
/// sorts by timestamp.
pub fn frame_can_improve(
    matches: &Vec<DurableLogRecord>,
    query: &LogQuery,
    frame: &IndexedIngestFrame,
    limit: usize,
) -> (can: bool)
    ensures
        can == !(matches@.len() == limit && limit > 0 && match query.order {
            QueryOrder::NewestFirst => frame.max_timestamp_unix_nanos
                < matches@.last().timestamp_unix_nanos,
            QueryOrder::OldestFirst => frame.min_timestamp_unix_nanos
                > matches@.last().timestamp_unix_nanos,
        }),
{
    if matches.len() != limit || limit == 0 {
        return true;
    }
    let boundary: u64 = matches[matches.len() - 1].timestamp_unix_nanos;
    match query.order {
        QueryOrder::NewestFirst => frame.max_timestamp_unix_nanos >= boundary,
        QueryOrder::OldestFirst => frame.min_timestamp_unix_nanos <= boundary,
    }
}

/// Where a frame cannot improve a full page sorted by timestamp, each record inside
/// the frame's time range ranks behind the page's last one.
pub proof fn skipped_frame_ranks_behind(
    query: LogQueryModel,
    last: RecordModel,
    record: RecordModel,
    min_timestamp: u64,
    max_timestamp: u64,
)
    requires
        query.sort == crate::log_query::QuerySort::Timestamp,
        min_timestamp <= record.timestamp <= max_timestamp,
        match query.order {
            QueryOrder::NewestFirst => max_timestamp < last.timestamp,
            QueryOrder::OldestFirst => min_timestamp > last.timestamp,
        },
    ensures
        rank(query, last) < rank(query, record),
{
}

/// Whether the offsets of an append overlap the range of a query.
pub open spec fn append_overlaps(query: LogQueryModel, first: LogicalOffset, last: LogicalOffset) -> bool {
    &&& query.end_offset matches Some(end) ==> end.0 > first.0
    &&& query.start_offset matches Some(start) ==> start.0 <= last.0
}

/// Whether the offsets of an append overlap the range of a query.
pub fn append_matches_query_bounds(query: &LogQuery, append: &IndexedFrameAppend) -> (overlaps: bool)
    ensures
        overlaps == append_overlaps(query@, append.first_offset, append.last_offset),
{
    (match query.end_offset {
        Some(end) => end.0 > append.first_offset.0,
        None => true,
    }) && (match query.start_offset {
        Some(start) => start.0 <= append.last_offset.0,
        None => true,
    })
}

/// Whether the timestamps of a frame overlap the range of a query.
pub open spec fn frame_overlaps(query: LogQueryModel, min_timestamp: u64, max_timestamp: u64) -> bool {
    &&& query.end_time matches Some(end) ==> end > min_timestamp
    &&& query.start_time matches Some(start) ==> start <= max_timestamp
}

/// Whether the timestamps of a frame overlap the range of a query.
pub fn frame_matches_query_bounds(query: &LogQuery, frame: &IndexedIngestFrame) -> (overlaps: bool)
    ensures
        overlaps == frame_overlaps(
            query@,
            frame.min_timestamp_unix_nanos,
            frame.max_timestamp_unix_nanos,
        ),
{
    (match query.end_timestamp_unix_nanos {
        Some(end) => end > frame.min_timestamp_unix_nanos,
        None => true,
    }) && (match query.start_timestamp_unix_nanos {
        Some(start) => start <= frame.max_timestamp_unix_nanos,
        None => true,
    })
}

/// Pruning loses nothing: a selected record lies in an append and a frame that
/// overlap the query.
pub proof fn pruned_frames_hold_no_match(
    query: LogQueryModel,
    record: RecordModel,
    terms: Seq<Seq<char>>,
    first: LogicalOffset,
    last: LogicalOffset,
    min_timestamp: u64,
    max_timestamp: u64,
)
    requires
        query.selects(record, terms),
        first.0 <= record.reference.offset.0 <= last.0,
        min_timestamp <= record.timestamp <= max_timestamp,
    ensures
        append_overlaps(query, first, last),
        frame_overlaps(query, min_timestamp, max_timestamp),
{
}

/// The record of a decoded frame record, or what is wrong with its ordinal.
pub open spec fn frame_record(
    shard: ShardId,
    partition: TopicPartition,
    append_first: LogicalOffset,
    append_count: u32,
    cohort: crate::record::CompressionCohortId,
    decoded: StructuralRecord,
) -> Result<RecordModel, LogDbError> {
    if decoded.offset >= append_count {
        Err(block_fault(BlockFault::RecordOrdinal))
    } else if append_first.0 + decoded.offset > u64::MAX {
        Err(LogDbError::OffsetExhausted(partition))
    } else {
        Ok(
            RecordModel {
                shard,
                reference: RecordRef {
                    topic_partition: partition,
                    offset: LogicalOffset((append_first.0 + decoded.offset) as u64),
                },
                timestamp: decoded.timestamp_unix_nanos,
                message: decoded.message@,
                fields: fields_view(decoded.fields@),
                cohort,
            },
        )
    }
}

impl LogStripe {
    /// Turns a decoded record of a frame into a durable record.
    pub fn decoded_record(
        &self,
        topic_partition: TopicPartition,
        append: &IndexedFrameAppend,
        frame: &IndexedIngestFrame,
        decoded: &StructuralRecord,
    ) -> (result: Result<DurableLogRecord, LogDbError>)
        ensures
            match (
                frame_record(
                    self.stream_shard_id,
                    topic_partition,
                    append.first_offset,
                    append.record_count,
                    frame.cohort,
                    *decoded,
                ),
                result,
            ) {
                (Ok(model), Ok(record)) => record@ == model,
                (Err(error), Err(reported)) => error == reported,
                _ => false,
            },
    {
        if decoded.offset >= append.record_count as u64 {
            return Err(LogDbError::InvalidBlockEncoding(BlockFault::RecordOrdinal));
        }
        match append.first_offset.0.checked_add(decoded.offset) {
            None => Err(LogDbError::OffsetExhausted(topic_partition)),
            Some(offset) => Ok(
                DurableLogRecord {
                    stream_shard_id: self.stream_shard_id,
                    record_ref: RecordRef { topic_partition, offset: LogicalOffset(offset) },
                    timestamp_unix_nanos: decoded.timestamp_unix_nanos,
                    message: decoded.message.clone(),
                    fields: clone_fields(&decoded.fields),
                    compression_cohort: frame.cohort,
                },
            ),
        }
    }

    /// Checks a compressed append; gives its last offset.
    pub fn plan_indexed_append(
        &self,
        topic_partition: TopicPartition,
        first_offset: LogicalOffset,
        record_count: u32,
    ) -> (result: Result<LogicalOffset, LogDbError>)
        requires
            self.well_formed(),
        ensures
            result == indexed_append_plan(
                self.watermark(topic_partition),
                topic_partition,
                first_offset,
                record_count,
            ),
    {
        if record_count == 0 {
            return Err(LogDbError::InvalidConfig(ConfigFault::EmptyIngestAppend));
        }
        let last: u64 = match first_offset.0.checked_add((record_count - 1) as u64) {
            Some(last) => last,
            None => return Err(LogDbError::OffsetExhausted(topic_partition)),
        };
        match self.indexed_through(topic_partition) {
            Some(previous) => {
                if first_offset.0 <= previous.0 {
                    if previous.0 == u64::MAX {
                        return Err(LogDbError::OffsetExhausted(topic_partition));
                    }
                    return Err(
                        LogDbError::OffsetOutOfOrder {
                            partition: topic_partition,
                            expected: LogicalOffset(previous.0 + 1),
                            observed: first_offset,
                        },
                    );
                }
            },
            None => {},
        }
        Ok(LogicalOffset(last))
    }

    /// Publishes the frames of a compressed append. The watermark advances only once
    /// all of them are installed.
    pub fn apply_indexed_ingest_pack(
        &mut self,
        topic_partition: TopicPartition,
        first_offset: LogicalOffset,
        record_count: u32,
        frames: Vec<InstalledFrame>,
    ) -> (result: Result<(), LogDbError>)
        requires
            old(self).well_formed(),
        ensures
            final(self).well_formed(),
            final(self).stream_shard_id == old(self).stream_shard_id,
            final(self).partitions == old(self).partitions,
            match (
                indexed_append_plan(
                    old(self).watermark(topic_partition),
                    topic_partition,
                    first_offset,
                    record_count,
                ),
                frames_fault(frames@, record_count),
            ) {
                (Err(error), _) => result == Err::<(), _>(error) && final(self).appends
                    == old(self).appends,
                (Ok(_), Some(error)) => result == Err::<(), _>(error) && final(self).appends
                    == old(self).appends,
                (Ok(last), None) => result is Ok && final(self).appends@
                    == old(self).appends@.push(
                    IndexedFrameAppend {
                        topic_partition,
                        first_offset,
                        last_offset: last,
                        record_count,
                        frames,
                    },
                ) && final(self).watermark(topic_partition) == Some(last),
            },
    {
        let last = match self.plan_indexed_append(topic_partition, first_offset, record_count) {
            Ok(last) => last,
            Err(error) => return Err(error),
        };
        match check_frames(&frames, record_count) {
            Ok(_) => {},
            Err(error) => return Err(error),
        }
        proof {
            lemma_no_fault(frames@, record_count);
        }
        let append = IndexedFrameAppend {
            topic_partition,
            first_offset,
            last_offset: last,
            record_count,
            frames,
        };
        let ghost before = self.appends@;
        self.appends.push(append);
        proof {
            assert(self.appends@.drop_last() =~= before);
            assert(self.model(topic_partition) == old(self).model(topic_partition));
            assert forall|i: int| 0 <= i < self.appends@.len() implies (
            #[trigger] self.appends@[i]).well_formed() by {
                if i < before.len() {
                    assert(self.appends@[i] == before[i]);
                }
            }
        }
        Ok(())
    }

    /// The hot records of a partition that a query finds, in its order.
    pub fn query_hot_matches(&self, query: &LogQuery) -> (matches: Vec<DurableLogRecord>)
        requires
            self.well_formed(),
        ensures
            records_view(matches@) == query_answer(self.model(query.topic_partition), query@),
            forall|i: int|
                0 <= i < matches@.len() ==> fits_query(query@, (#[trigger] matches@[i])@),
    {
        let mut matches: Vec<DurableLogRecord> = Vec::new();
        let ghost model = self.model(query.topic_partition);
        let at: usize = self.place(query.topic_partition);
        if at == self.partitions.len() {
            proof {
                lemma_no_records_answer(query@);
                assert(records_view(matches@) =~= query_answer(model, query@));
            }
            return matches;
        }
        proof {
            crate::log_stripe::lemma_partition_place(self.partitions@, query.topic_partition, 0);
        }
        let ordinals = self.partitions[at].query_ordinals(query);
        let ghost wanted = query_answer(model, query@);
        proof {
            crate::partition_index::lemma_answer_in_range(model, query@);
        }
        let mut index: usize = 0;
        while index < ordinals.len()
            invariant
                index <= ordinals@.len(),
                at < self.partitions@.len(),
                model == self.partitions@[at as int]@,
                ordinals@ == answer(model, query@),
                wanted == query_answer(model, query@),
                forall|i: int|
                    0 <= i < ordinals@.len() ==> #[trigger] ordinals@[i] < model.records.len(),
                matches@.len() == index,
                forall|i: int| 0 <= i < index ==> (#[trigger] matches@[i])@ == wanted[i],
            decreases ordinals@.len() - index,
        {
            let ordinal: u32 = ordinals[index];
            proof {
                assert(model.records[ordinal as int]
                    == self.partitions@[at as int].records@[ordinal as int]@);
                assert(wanted[index as int] == model.records[ordinal as int]);
            }
            matches.push(self.partitions[at].records[ordinal as usize].clone());
            index = index + 1;
        }
        proof {
            assert(records_view(matches@) =~= wanted);
            lemma_answer_fits(model, query@);
        }
        matches
    }
}

/// Whether a record lies in the offset range of a query and behind its cursor.
pub open spec fn fits_query(query: LogQueryModel, record: RecordModel) -> bool {
    query.offset_fits(record) && query.position_fits(record)
}

pub proof fn lemma_answer_fits(model: PartitionModel, query: LogQueryModel)
    requires
        model.records.len() <= u32::MAX,
    ensures
        forall|i: int|
            0 <= i < query_answer(model, query).len() ==> fits_query(
                query,
                #[trigger] query_answer(model, query)[i],
            ),
{
    let found = matching(model, query, model.records.len());
    let keys = crate::partition_index::ordinal_sort_keys(found, model.records, query);
    let sorted = crate::partition_index::sorted_ordinals(found, model.records, query);
    crate::partition_index::lemma_matching(model, query, model.records.len());
    crate::partition_index::lemma_rising_len(found, model.records.len());
    lemma_order_exists(keys);
    assert forall|i: int| 0 <= i < sorted.len() implies fits_query(
        query,
        model.records[#[trigger] sorted[i] as int],
    ) by {
        match query.sort {
            crate::log_query::QuerySort::Offset => {
                assert(found.contains(sorted[i]));
            },
            crate::log_query::QuerySort::Timestamp => {
                let at = order_of(keys)[i] as int;
                assert(sorted[i] == found[at]);
                assert(found.contains(found[at]));
            },
        }
    }
    let list = answer(model, query);
    assert forall|i: int| 0 <= i < query_answer(model, query).len() implies fits_query(
        query,
        #[trigger] query_answer(model, query)[i],
    ) by {
        assert(query_answer(model, query)[i] == model.records[list[i] as int]);
        let at = match query.order {
            QueryOrder::OldestFirst => i,
            QueryOrder::NewestFirst => sorted.len() - 1 - i,
        };
        assert(list[i] == sorted[at]);
    }
}

/// References of records.
pub open spec fn references(records: Seq<RecordModel>) -> Seq<RecordRef> {
    records.map_values(|record: RecordModel| record.reference)
}

impl LogStripe {
    /// Physical shard that the stripe is aligned with.
    pub fn stream_shard_id(&self) -> (shard: ShardId)
        ensures
            shard == self.stream_shard_id,
    {
        self.stream_shard_id
    }

    /// References of the records that a query finds, in its order.
    pub fn query_refs(&self, query: &LogQuery) -> (found: Vec<RecordRef>)
        requires
            self.well_formed(),
        ensures
            found@ == references(stripe_answer(*self, query@)),
    {
        let matches = self.query(query);
        let ghost records = records_view(matches@);
        let mut found: Vec<RecordRef> = Vec::new();
        let mut index: usize = 0;
        while index < matches.len()
            invariant
                index <= matches@.len(),
                records == records_view(matches@),
                found@.len() == index,
                forall|i: int| 0 <= i < index ==> found@[i] == records[i].reference,
            decreases matches@.len() - index,
        {
            proof {
                assert(records[index as int] == matches@[index as int]@);
            }
            found.push(matches[index].record_ref);
            index = index + 1;
        }
        proof {
            assert(found@ =~= references(records));
        }
        found
    }
}

/// The records that a query finds in a partition, in its order.
pub open spec fn query_answer(model: PartitionModel, query: LogQueryModel) -> Seq<RecordModel> {
    answer(model, query).map_values(|ordinal: u32| model.records[ordinal as int])
}

proof fn lemma_no_records_answer(query: LogQueryModel)
    ensures
        query_answer(no_records(), query) == Seq::<RecordModel>::empty(),
{
    let model = no_records();
    let none = matching(model, query, 0);
    assert(none =~= Seq::<u32>::empty());
    let keys = crate::partition_index::ordinal_sort_keys(none, model.records, query);
    lemma_order_exists(keys);
    assert(arranged(none, order_of(keys)) =~= Seq::<u32>::empty());
    assert(none.reverse() =~= Seq::<u32>::empty());
    assert(answer(model, query).len() == 0);
    assert(query_answer(model, query) =~= Seq::<RecordModel>::empty());
}

/// Independently owned stripes of all shards.
pub struct ShardLogDb {
    /// One stripe per shard.
    pub stripes: Vec<LogStripe>,
}

/// Place of a stripe from `from` on, or their number.
pub open spec fn stripe_place(stripes: Seq<LogStripe>, shard: ShardId, from: int) -> int
    decreases stripes.len() - from,
{
    if from >= stripes.len() {
        stripes.len() as int
    } else if stripes[from].stream_shard_id == shard {
        from
    } else {
        stripe_place(stripes, shard, from + 1)
    }
}

/// First shard that occurs twice among the first `count`.
pub open spec fn first_duplicate(shards: Seq<ShardId>, count: nat) -> Option<ShardId>
    decreases count,
{
    if count == 0 {
        None
    } else {
        match first_duplicate(shards, (count - 1) as nat) {
            Some(shard) => Some(shard),
            None => if shards.subrange(0, count - 1).contains(shards[count - 1]) {
                Some(shards[count - 1])
            } else {
                None
            },
        }
    }
}

impl ShardLogDb {
    /// Every shard has one well-formed stripe.
    pub open spec fn well_formed(self) -> bool {
        &&& forall|i: int|
            0 <= i < self.stripes@.len() ==> (#[trigger] self.stripes@[i]).well_formed()
        &&& forall|i: int, j: int|
            0 <= i < j < self.stripes@.len() ==> (#[trigger] self.stripes@[i]).stream_shard_id != (
            #[trigger] self.stripes@[j]).stream_shard_id
    }

    /// Creates one log stripe for each supplied shard.
    pub fn new(shard_ids: &Vec<ShardId>) -> (result: Result<Self, LogDbError>)
        ensures
            match result {
                Ok(database) => {
                    &&& database.well_formed()
                    &&& first_duplicate(shard_ids@, shard_ids@.len()) is None
                    &&& shard_ids@.len() > 0
                    &&& database.stripes@.len() == shard_ids@.len()
                    &&& forall|i: int|
                        0 <= i < shard_ids@.len() ==> {
                            &&& (#[trigger] database.stripes@[i]).stream_shard_id == shard_ids@[i]
                            &&& database.stripes@[i].appends@.len() == 0
                            &&& forall|p: TopicPartition|
                                #[trigger] database.stripes@[i].model(p) == no_records()
                        }
                },
                Err(error) => match first_duplicate(shard_ids@, shard_ids@.len()) {
                    Some(shard) => error == LogDbError::DuplicateStripe(shard),
                    None => shard_ids@.len() == 0 && error == LogDbError::InvalidConfig(
                        ConfigFault::NoStripes,
                    ),
                },
            },
    {
        let mut stripes: Vec<LogStripe> = Vec::new();
        let mut index: usize = 0;
        while index < shard_ids.len()
            invariant
                index <= shard_ids@.len(),
                first_duplicate(shard_ids@, index as nat) is None,
                stripes@.len() == index,
                forall|i: int|
                    0 <= i < index ==> {
                        &&& (#[trigger] stripes@[i]).stream_shard_id == shard_ids@[i]
                        &&& stripes@[i].well_formed()
                        &&& stripes@[i].appends@.len() == 0
                        &&& forall|p: TopicPartition|
                            #[trigger] stripes@[i].model(p) == no_records()
                    },
                forall|i: int, j: int|
                    0 <= i < j < index ==> #[trigger] shard_ids@[i] != #[trigger] shard_ids@[j],
            decreases shard_ids@.len() - index,
        {
            let shard = shard_ids[index];
            let mut place: usize = 0;
            while place < index
                invariant
                    place <= index < shard_ids@.len(),
                    shard == shard_ids@[index as int],
                    first_duplicate(shard_ids@, index as nat) is None,
                    forall|i: int| 0 <= i < place ==> shard_ids@[i] != shard,
                decreases index - place,
            {
                if shard_ids[place] == shard {
                    proof {
                        assert(shard_ids@.subrange(0, index as int)[place as int] == shard);
                        assert(first_duplicate(shard_ids@, (index + 1) as nat) == Some(shard));
                        lemma_duplicate_stays(
                            shard_ids@,
                            (index + 1) as nat,
                            shard_ids@.len(),
                        );
                    }
                    return Err(LogDbError::DuplicateStripe(shard));
                }
                place = place + 1;
            }
            proof {
                assert(!shard_ids@.subrange(0, index as int).contains(shard));
            }
            stripes.push(LogStripe::new(shard));
            index = index + 1;
        }
        if stripes.len() == 0 {
            return Err(LogDbError::InvalidConfig(ConfigFault::NoStripes));
        }
        let database = ShardLogDb { stripes };
        proof {
            assert forall|i: int, j: int| 0 <= i < j < database.stripes@.len() implies (
            #[trigger] database.stripes@[i]).stream_shard_id != (
            #[trigger] database.stripes@[j]).stream_shard_id by {
                assert(shard_ids@[i] != shard_ids@[j]);
            }
        }
        Ok(database)
    }

    /// Place of a stripe, or the number of stripes.
    fn place(&self, shard: ShardId) -> (at: usize)
        ensures
            at == stripe_place(self.stripes@, shard, 0),
            at <= self.stripes@.len(),
            at < self.stripes@.len() ==> self.stripes@[at as int].stream_shard_id == shard,
            forall|i: int|
                0 <= i < at ==> (#[trigger] self.stripes@[i]).stream_shard_id != shard,
    {
        let mut at: usize = 0;
        while at < self.stripes.len() && self.stripes[at].stream_shard_id != shard
            invariant
                at <= self.stripes@.len(),
                stripe_place(self.stripes@, shard, 0) == stripe_place(
                    self.stripes@,
                    shard,
                    at as int,
                ),
                forall|i: int|
                    0 <= i < at ==> (#[trigger] self.stripes@[i]).stream_shard_id != shard,
            decreases self.stripes@.len() - at,
        {
            at = at + 1;
        }
        at
    }

    /// The stripe of a shard.
    pub fn stripe(&self, stream_shard_id: ShardId) -> (stripe: Option<&LogStripe>)
        ensures
            ({
                let at = stripe_place(self.stripes@, stream_shard_id, 0);
                match stripe {
                    Some(found) => 0 <= at < self.stripes@.len() && *found == self.stripes@[at],
                    None => at == self.stripes@.len(),
                }
            }),
    {
        let at: usize = self.place(stream_shard_id);
        if at < self.stripes.len() {
            Some(&self.stripes[at])
        } else {
            None
        }
    }

    /// Routes a durable record to the stripe of its shard.
    pub fn apply_durable(&mut self, record: DurableLogRecord, terms: &Vec<String>) -> (result:
        Result<IndexReceipt, LogDbError>)
        requires
            old(self).well_formed(),
        ensures
            final(self).well_formed(),
            ({
                let at = stripe_place(old(self).stripes@, record@.shard, 0);
                let partition = record@.reference.topic_partition;
                if at == old(self).stripes@.len() {
                    &&& final(self).stripes == old(self).stripes
                    &&& result == Err::<IndexReceipt, _>(LogDbError::UnknownStripe(record@.shard))
                } else {
                    let stripe = old(self).stripes@[at];
                    let model = stripe.model(partition);
                    let after = published(model, record@, search_forms(terms@));
                    &&& final(self).stripes@.len() == old(self).stripes@.len()
                    &&& forall|i: int|
                        0 <= i < old(self).stripes@.len() && i != at ==> #[trigger] final(self).stripes@[i] == old(self).stripes@[i]
                    &&& if has_offset(model, record@.reference.offset) {
                        final(self).stripes@[at] == stripe && result == Err::<IndexReceipt, _>(
                            LogDbError::DuplicateRecord {
                                partition,
                                offset: record@.reference.offset,
                            },
                        )
                    } else {
                        &&& final(self).stripes@[at].differs_in(stripe, partition, after.0)
                        &&& match result {
                            Ok(receipt) => after.1 is Ok && receipt == (IndexReceipt {
                                record_ref: record@.reference,
                                indexed_through: record@.reference.offset,
                            }),
                            Err(error) => after.1 == Err::<(), _>(error),
                        }
                    }
                }
            }),
    {
        let shard = record.stream_shard_id;
        let at: usize = self.place(shard);
        if at == self.stripes.len() {
            return Err(LogDbError::UnknownStripe(shard));
        }
        let ghost before = self.stripes@;
        let result = self.stripes[at].apply_durable(record, terms);
        proof {
            assert forall|i: int, j: int| 0 <= i < j < self.stripes@.len() implies (
            #[trigger] self.stripes@[i]).stream_shard_id != (
            #[trigger] self.stripes@[j]).stream_shard_id by {
                assert(self.stripes@[i].stream_shard_id == before[i].stream_shard_id);
                assert(self.stripes@[j].stream_shard_id == before[j].stream_shard_id);
            }
        }
        result
    }

    /// Runs a partition-local query through one stripe.
    pub fn query(&self, stream_shard_id: ShardId, query: &LogQuery) -> (result: Result<
        Vec<DurableLogRecord>,
        LogDbError,
    >)
        requires
            self.well_formed(),
        ensures
            ({
                let at = stripe_place(self.stripes@, stream_shard_id, 0);
                match result {
                    Ok(matches) => at < self.stripes@.len() && records_view(matches@)
                        == stripe_answer(self.stripes@[at], query@),
                    Err(error) => at == self.stripes@.len() && error == LogDbError::UnknownStripe(
                        stream_shard_id,
                    ),
                }
            }),
    {
        match self.stripe(stream_shard_id) {
            Some(stripe) => Ok(stripe.query(query)),
            None => Err(LogDbError::UnknownStripe(stream_shard_id)),
        }
    }

    /// Fans a query across every stripe and merges the results.
    pub fn query_all(&self, query: &LogQuery) -> (matches: Vec<DurableLogRecord>)
        requires
            self.well_formed(),
        ensures
            records_view(matches@) == merged(stripe_answers(self.stripes@, query@), query@),
            forall|i: int|
                0 <= i < matches@.len() ==> fits_query(query@, (#[trigger] matches@[i])@),
    {
        let mut all: Vec<DurableLogRecord> = Vec::new();
        let mut index: usize = 0;
        proof {
            assert(self.stripes@.subrange(0, 0) =~= Seq::<LogStripe>::empty());
            assert(records_view(all@) =~= Seq::<RecordModel>::empty());
        }
        while index < self.stripes.len()
            invariant
                self.well_formed(),
                index <= self.stripes@.len(),
                records_view(all@) == stripe_answers(
                    self.stripes@.subrange(0, index as int),
                    query@,
                ),
                forall|i: int| 0 <= i < all@.len() ==> fits_query(query@, (#[trigger] all@[i])@),
            decreases self.stripes@.len() - index,
        {
            let mut found = self.stripes[index].query(query);
            let ghost kept = all@;
            let ghost more = found@;
            let ghost before = records_view(all@);
            let ghost added = records_view(found@);
            proof {
                let part = self.stripes@.subrange(0, index + 1);
                assert(part.drop_last() =~= self.stripes@.subrange(0, index as int));
                assert(part.last() == self.stripes@[index as int]);
            }
            all.append(&mut found);
            proof {
                assert(records_view(all@) =~= before + added);
                assert forall|i: int| 0 <= i < all@.len() implies fits_query(
                    query@,
                    (#[trigger] all@[i])@,
                ) by {
                    if i < kept.len() {
                        assert(all@[i] == kept[i]);
                    } else {
                        assert(all@[i] == more[i - kept.len()]);
                    }
                }
            }
            index = index + 1;
        }
        proof {
            assert(self.stripes@.subrange(0, index as int) =~= self.stripes@);
        }
        let matches = merge_matches(&all, query);
        proof {
            assert forall|i: int| 0 <= i < matches@.len() implies fits_query(
                query@,
                (#[trigger] matches@[i])@,
            ) by {
                let records = records_view(all@);
                let k = choose|k: int| 0 <= k < records.len() && records[k] == matches@[i]@;
                assert(records[k] == all@[k]@);
            }
        }
        matches
    }

    /// Fans a query across selected stripes; each is asked once.
    pub fn query_stripes(&self, stream_shard_ids: &Vec<ShardId>, query: &LogQuery) -> (result:
        Result<Vec<DurableLogRecord>, LogDbError>)
        requires
            self.well_formed(),
        ensures
            match (
                selected_answers(
                    self.stripes@,
                    stream_shard_ids@,
                    query@,
                    stream_shard_ids@.len(),
                ),
                result,
            ) {
                (Ok(all), Ok(matches)) => records_view(matches@) == merged(all, query@),
                (Err(error), Err(reported)) => error == reported,
                _ => false,
            },
    {
        let mut all: Vec<DurableLogRecord> = Vec::new();
        let mut index: usize = 0;
        proof {
            assert(records_view(all@) =~= Seq::<RecordModel>::empty());
        }
        while index < stream_shard_ids.len()
            invariant
                self.well_formed(),
                index <= stream_shard_ids@.len(),
                selected_answers(self.stripes@, stream_shard_ids@, query@, index as nat) == Ok::<
                    _,
                    LogDbError,
                >(records_view(all@)),
            decreases stream_shard_ids@.len() - index,
        {
            let shard = stream_shard_ids[index];
            let mut seen = false;
            let mut place: usize = 0;
            while place < index
                invariant
                    place <= index < stream_shard_ids@.len(),
                    shard == stream_shard_ids@[index as int],
                    seen == stream_shard_ids@.subrange(0, place as int).contains(shard),
                decreases index - place,
            {
                proof {
                    let part = stream_shard_ids@.subrange(0, place as int);
                    let next = stream_shard_ids@.subrange(0, place + 1);
                    assert(next =~= part.push(stream_shard_ids@[place as int]));
                    if part.contains(shard) {
                        let k = choose|k: int| 0 <= k < part.len() && part[k] == shard;
                        assert(next[k] == shard);
                    }
                    assert(next[place as int] == stream_shard_ids@[place as int]);
                }
                if stream_shard_ids[place] == shard {
                    seen = true;
                }
                place = place + 1;
            }
            if !seen {
                match self.query(shard, query) {
                    Ok(found) => {
                        let mut found = found;
                        let ghost before = records_view(all@);
                        let ghost added = records_view(found@);
                        all.append(&mut found);
                        proof {
                            assert(records_view(all@) =~= before + added);
                        }
                    },
                    Err(error) => {
                        proof {
                            lemma_selected_error(
                                self.stripes@,
                                stream_shard_ids@,
                                query@,
                                (index + 1) as nat,
                                stream_shard_ids@.len(),
                            );
                        }
                        return Err(error);
                    },
                }
            }
            index = index + 1;
        }
        Ok(merge_matches(&all, query))
    }
}

proof fn lemma_duplicate_stays(shards: Seq<ShardId>, n: nat, count: nat)
    requires
        n <= count,
        first_duplicate(shards, n) is Some,
    ensures
        first_duplicate(shards, count) == first_duplicate(shards, n),
    decreases count,
{
    if n < count {
        lemma_duplicate_stays(shards, n, (count - 1) as nat);
    }
}

/// Answers of stripes, one after the other.
pub open spec fn stripe_answers(stripes: Seq<LogStripe>, query: LogQueryModel) -> Seq<RecordModel>
    decreases stripes.len(),
{
    if stripes.len() == 0 {
        Seq::empty()
    } else {
        stripe_answers(stripes.drop_last(), query) + stripe_answer(stripes.last(), query)
    }
}

/// Answers of the stripes of the first `count` shards; a repeated shard is asked once.
pub open spec fn selected_answers(
    stripes: Seq<LogStripe>,
    shards: Seq<ShardId>,
    query: LogQueryModel,
    count: nat,
) -> Result<Seq<RecordModel>, LogDbError>
    decreases count,
{
    if count == 0 {
        Ok(Seq::empty())
    } else {
        match selected_answers(stripes, shards, query, (count - 1) as nat) {
            Err(error) => Err(error),
            Ok(front) => {
                let shard = shards[count - 1];
                let at = stripe_place(stripes, shard, 0);
                if shards.subrange(0, count - 1).contains(shard) {
                    Ok(front)
                } else if at == stripes.len() {
                    Err(LogDbError::UnknownStripe(shard))
                } else {
                    Ok(front + stripe_answer(stripes[at], query))
                }
            },
        }
    }
}

proof fn lemma_selected_error(
    stripes: Seq<LogStripe>,
    shards: Seq<ShardId>,
    query: LogQueryModel,
    n: nat,
    count: nat,
)
    requires
        n <= count,
        selected_answers(stripes, shards, query, n) is Err,
    ensures
        selected_answers(stripes, shards, query, count) == selected_answers(
            stripes,
            shards,
            query,
            n,
        ),
    decreases count,
{
    if n < count {
        lemma_selected_error(stripes, shards, query, n, (count - 1) as nat);
    }
}

/// Shard numbers of records.
pub open spec fn shard_keys(records: Seq<RecordModel>) -> Seq<u128> {
    records.map_values(|record: RecordModel| record.shard.0 as u128)
}

/// Matches of several stripes: by the order of the query, records of one rank by
/// shard, up to the limit.
pub open spec fn merged(records: Seq<RecordModel>, query: LogQueryModel) -> Seq<RecordModel> {
    page(query, arranged(records, order_of(shard_keys(records))), query.limit)
}

/// Merges the matches of several stripes.
pub(crate) fn merge_matches(matches: &Vec<DurableLogRecord>, query: &LogQuery) -> (sorted: Vec<
    DurableLogRecord,
>)
    ensures
        records_view(sorted@) == merged(records_view(matches@), query@),
        forall|i: int|
            0 <= i < sorted@.len() ==> records_view(matches@).contains((#[trigger] sorted@[i])@),
{
    let ghost records = records_view(matches@);
    let mut keys: Vec<u128> = Vec::new();
    let mut index: usize = 0;
    while index < matches.len()
        invariant
            index <= matches@.len(),
            records == records_view(matches@),
            keys@.len() == index,
            forall|i: int| 0 <= i < index ==> keys@[i] == shard_keys(records)[i],
        decreases matches@.len() - index,
    {
        keys.push(matches[index].stream_shard_id.0 as u128);
        index = index + 1;
    }
    proof {
        assert(keys@ =~= shard_keys(records));
    }
    let order = stable_order(&keys);
    let ghost wanted = arranged(records, order@);
    let mut by_shard: Vec<DurableLogRecord> = Vec::new();
    let mut place: usize = 0;
    while place < order.len()
        invariant
            place <= order@.len(),
            is_order(keys@, order@),
            keys@.len() == matches@.len(),
            records == records_view(matches@),
            wanted == arranged(records, order@),
            by_shard@.len() == place,
            forall|i: int| 0 <= i < place ==> (#[trigger] by_shard@[i])@ == wanted[i],
        decreases order@.len() - place,
    {
        let at: usize = order[place];
        proof {
            assert(wanted[place as int] == records[at as int]);
            assert(records[at as int] == matches@[at as int]@);
        }
        by_shard.push(matches[at].clone());
        place = place + 1;
    }
    let sorted = sort_and_limit_matches(&by_shard, query, query.limit);
    proof {
        assert(records_view(by_shard@) =~= wanted);
        assert forall|i: int| 0 <= i < sorted@.len() implies records.contains(
            (#[trigger] sorted@[i])@,
        ) by {
            assert(wanted.contains(sorted@[i]@));
            let k = choose|k: int| 0 <= k < wanted.len() && wanted[k] == sorted@[i]@;
            assert(wanted[k] == records[order@[k] as int]);
        }
    }
    sorted
}

} // verus!
