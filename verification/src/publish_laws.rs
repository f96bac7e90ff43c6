//! Laws of publishing records and of replaying what was published.
use vstd::prelude::*;

use crate::durable_store::SinkCheckpoint;
use crate::error::LogDbError;
use crate::log_query::{durable, RecordModel};
use crate::log_sink::{
    append_events_of, is_native, partition_keys, payload_events, recovery_order_of,
    sequence_keys, through, topic_keys, DurableAppend,
};
use crate::log_stripe::{
    batch_published, frame_watermark, has_offset, published, receipts_of, republished,
    IndexReceipt, IndexedFrameAppend,
};
use crate::order::{arranged, comes_before, lemma_order_exists, listed, order_of};
use crate::partition_index::{last_offset, offsets_rise, PartitionModel};
use crate::record::{
    CompressionCohortId, EventModel, LogicalOffset, RecordRef, ShardId, TopicPartition,
};

verus! {

broadcast use vstd::seq_lib::group_seq_properties;

/// The record of the event at a place of a batch: the event at the offset that follows the
/// first one by that place.
pub open spec fn record_of(
    events: Seq<EventModel>,
    shard: ShardId,
    partition: TopicPartition,
    first: LogicalOffset,
    i: int,
) -> RecordModel {
    RecordModel {
        shard,
        reference: RecordRef {
            topic_partition: partition,
            offset: LogicalOffset((first.0 + i) as u64),
        },
        timestamp: events[i].timestamp,
        message: events[i].message,
        fields: events[i].fields,
        cohort: CompressionCohortId(events[i].cohort),
    }
}

/// Whether every record of a partition lies below an offset, as far as there is one.
pub open spec fn ends_below(model: PartitionModel, offset: LogicalOffset) -> bool {
    forall|i: int|
        0 <= i < model.records.len() ==> (#[trigger] model.records[i]).reference.offset.0
            < offset.0
}

/// A batch whose offsets lie behind those of its partition is published whole: its records
/// follow those that were there, at contiguous offsets and in the order of the events, each
/// with its terms, and each receipt names its record and its offset.
pub proof fn fresh_batches_are_appended(
    model: PartitionModel,
    shard: ShardId,
    partition: TopicPartition,
    first: LogicalOffset,
    events: Seq<EventModel>,
    terms: Seq<Seq<Seq<char>>>,
    frames: Option<LogicalOffset>,
    count: nat,
)
    requires
        ends_below(model, first),
        count <= events.len(),
        count <= terms.len(),
        model.records.len() + count <= u32::MAX,
        model.records.len() == model.terms.len(),
        count > 0 ==> first.0 + (count - 1) <= u64::MAX,
    ensures
        ({
            let after = batch_published(model, shard, partition, first, events, terms, count);
            let receipts = receipts_of(
                model,
                shard,
                partition,
                first,
                events,
                terms,
                frames,
                count,
            );
            &&& after.1 is Ok
            &&& after.0.records == model.records + Seq::new(
                count,
                |i: int| record_of(events, shard, partition, first, i),
            )
            &&& after.0.terms == model.terms + terms.subrange(0, count as int)
            &&& receipts == Seq::new(
                count,
                |i: int|
                    IndexReceipt {
                        record_ref: record_of(events, shard, partition, first, i).reference,
                        indexed_through: LogicalOffset((first.0 + i) as u64),
                    },
            )
        }),
    decreases count,
{
    let more = Seq::new(count, |i: int| record_of(events, shard, partition, first, i));
    let after = batch_published(model, shard, partition, first, events, terms, count);
    if count == 0 {
        assert(model.records + more =~= model.records);
        assert(model.terms + terms.subrange(0, 0) =~= model.terms);
        assert(receipts_of(model, shard, partition, first, events, terms, frames, 0) =~= Seq::new(
            0,
            |i: int|
                IndexReceipt {
                    record_ref: record_of(events, shard, partition, first, i).reference,
                    indexed_through: LogicalOffset((first.0 + i) as u64),
                },
        ));
    } else {
        let last = (count - 1) as nat;
        let early = Seq::new(last, |i: int| record_of(events, shard, partition, first, i));
        let before = batch_published(model, shard, partition, first, events, terms, last);
        fresh_batches_are_appended(
            model,
            shard,
            partition,
            first,
            events,
            terms,
            frames,
            last,
        );
        let record = record_of(events, shard, partition, first, last as int);
        let held = before.0.records;
        assert(held == model.records + early);
        assert(record == durable(
            events[last as int],
            shard,
            partition,
            LogicalOffset((first.0 + last) as u64),
        ));
        assert forall|i: int| 0 <= i < held.len() implies (
        #[trigger] held[i]).reference.offset.0 < record.reference.offset.0 by {
            if i < model.records.len() {
                assert(held[i] == model.records[i]);
            } else {
                assert(held[i] == early[i - model.records.len()]);
            }
        }
        assert(!has_offset(before.0, record.reference.offset));
        assert(after.0.records =~= model.records + more);
        assert(after.0.terms =~= model.terms + terms.subrange(0, count as int));
        assert(receipts_of(
            model,
            shard,
            partition,
            first,
            events,
            terms,
            frames,
            count,
        ) =~= Seq::new(
            count,
            |i: int|
                IndexReceipt {
                    record_ref: record_of(events, shard, partition, first, i).reference,
                    indexed_through: LogicalOffset((first.0 + i) as u64),
                },
        ));
    }
}

/// A batch that a partition already holds can be published again and changes nothing.
pub proof fn repeated_batches_change_nothing(
    model: PartitionModel,
    shard: ShardId,
    partition: TopicPartition,
    first: LogicalOffset,
    events: Seq<EventModel>,
    terms: Seq<Seq<Seq<char>>>,
    count: nat,
)
    requires
        count <= events.len(),
        forall|i: int|
            0 <= i < count ==> model.records.contains(
                #[trigger] record_of(events, shard, partition, first, i),
            ),
    ensures
        batch_published(model, shard, partition, first, events, terms, count) == (model, Ok::<
            (),
            LogDbError,
        >(())),
    decreases count,
{
    if count > 0 {
        let last = (count - 1) as nat;
        repeated_batches_change_nothing(model, shard, partition, first, events, terms, last);
        let record = record_of(events, shard, partition, first, last as int);
        assert(model.records.contains(record));
        let k = choose|k: int| 0 <= k < model.records.len() && model.records[k] == record;
        assert(model.records[k].reference.offset == record.reference.offset);
    }
}

/// A record at an offset where another one is held is refused, and the partition stays as it
/// was; so is one that lies behind no record and is not the next.
pub proof fn conflicting_records_are_refused(
    model: PartitionModel,
    record: RecordModel,
    terms: Seq<Seq<char>>,
    k: int,
)
    requires
        offsets_rise(model.records),
        0 <= k < model.records.len(),
        record.reference.offset.0 <= model.records[k].reference.offset.0,
        !model.records.contains(record),
    ensures
        republished(model, record, terms).0 == model,
        republished(model, record, terms).1 is Err,
        model.records[k].reference.offset == record.reference.offset ==> republished(
            model,
            record,
            terms,
        ).1 == Err::<(), _>(
            LogDbError::ConflictingRecord {
                partition: record.reference.topic_partition,
                offset: record.reference.offset,
            },
        ),
        published(model, record, terms).0 == model,
        published(model, record, terms).1 is Err,
{
    let end = model.records.len() - 1;
    if k < end {
        assert(model.records[k].reference.offset.0 < model.records[end].reference.offset.0);
    }
    assert(last_offset(model.records) == Some(model.records[end].reference.offset));
}

/// The watermark of compressed appends is that of the newest append of the partition.
pub proof fn watermark_is_that_of_the_newest_append(
    appends: Seq<IndexedFrameAppend>,
    partition: TopicPartition,
    k: int,
)
    requires
        0 <= k < appends.len(),
        appends[k].topic_partition == partition,
        forall|i: int| k < i < appends.len() ==> (#[trigger] appends[i]).topic_partition
            != partition,
    ensures
        frame_watermark(appends, partition) == Some(appends[k].last_offset),
    decreases appends.len(),
{
    assert(appends[appends.len() - 1] == appends.last());
    if k < appends.len() - 1 {
        let early = appends.drop_last();
        assert forall|i: int| k < i < early.len() implies (#[trigger] early[i]).topic_partition
            != partition by {
            assert(early[i] == appends[i]);
        }
        watermark_is_that_of_the_newest_append(early, partition, k);
    }
}

/// Whether a recovered transaction comes before another one: by topic, partition, sequence
/// and then by its place.
pub open spec fn recovered_before(expected: Seq<SinkCheckpoint>, a: int, b: int) -> bool {
    let left = expected[a];
    let right = expected[b];
    let topics = (left.topic_partition.topic_id.0, right.topic_partition.topic_id.0);
    let partitions = (
        left.topic_partition.partition_id.0,
        right.topic_partition.partition_id.0,
    );
    ||| topics.0 < topics.1
    ||| topics.0 == topics.1 && partitions.0 < partitions.1
    ||| topics.0 == topics.1 && partitions.0 == partitions.1 && left.next_placement_sequence
        < right.next_placement_sequence
    ||| topics.0 == topics.1 && partitions.0 == partitions.1 && left.next_placement_sequence
        == right.next_placement_sequence && a < b
}

/// Recovered transactions are taken by topic, then partition, then sequence, and each once.
pub proof fn recovery_goes_by_partition_and_sequence(expected: Seq<SinkCheckpoint>)
    requires
        expected.len() <= usize::MAX,
    ensures
        ({
            let order = recovery_order_of(expected);
            &&& order.len() == expected.len()
            &&& forall|i: int| 0 <= i < order.len() ==> #[trigger] order[i] < expected.len()
            &&& forall|i: int, j: int|
                0 <= i < j < order.len() ==> recovered_before(
                    expected,
                    #[trigger] order[i] as int,
                    #[trigger] order[j] as int,
                )
            &&& forall|place: int|
                0 <= place < expected.len() ==> #[trigger] listed(order, place)
        }),
{
    let first = order_of(sequence_keys(expected));
    let by_sequence = arranged(expected, first);
    let o2 = order_of(partition_keys(by_sequence));
    let second = through(o2, first);
    let by_partition = arranged(expected, second);
    let o3 = order_of(topic_keys(by_partition));
    let order = recovery_order_of(expected);
    lemma_order_exists(sequence_keys(expected));
    lemma_order_exists(partition_keys(by_sequence));
    assert forall|i: int| 0 <= i < second.len() implies #[trigger] second[i] < expected.len() by {
        assert(o2[i] < first.len());
    }
    lemma_order_exists(topic_keys(by_partition));
    assert forall|i: int| 0 <= i < order.len() implies #[trigger] order[i] < expected.len() by {
        assert(o3[i] < second.len());
    }
    assert forall|i: int, j: int| 0 <= i < j < order.len() implies recovered_before(
        expected,
        #[trigger] order[i] as int,
        #[trigger] order[j] as int,
    ) by {
        let a = o3[i] as int;
        let b = o3[j] as int;
        assert(comes_before(topic_keys(by_partition), a, b));
        assert(order[i] == second[a] && order[j] == second[b]);
        assert(by_partition[a] == expected[second[a] as int]);
        assert(by_partition[b] == expected[second[b] as int]);
        if expected[order[i] as int].topic_partition.topic_id.0
            == expected[order[j] as int].topic_partition.topic_id.0 {
            assert(a < b);
            let c = o2[a] as int;
            let d = o2[b] as int;
            assert(comes_before(partition_keys(by_sequence), c, d));
            assert(second[a] == first[c] && second[b] == first[d]);
            assert(by_sequence[c] == expected[first[c] as int]);
            assert(by_sequence[d] == expected[first[d] as int]);
            if expected[order[i] as int].topic_partition.partition_id.0
                == expected[order[j] as int].topic_partition.partition_id.0 {
                assert(c < d);
                assert(comes_before(sequence_keys(expected), first[c] as int, first[d] as int));
            }
        }
    }
    assert forall|place: int| 0 <= place < expected.len() implies #[trigger] listed(
        order,
        place,
    ) by {
        assert(listed(first, place));
        let c = choose|c: int| 0 <= c < first.len() && #[trigger] first[c] == place;
        assert(listed(o2, c));
        let a = choose|a: int| 0 <= a < o2.len() && #[trigger] o2[a] == c;
        assert(second[a] == place);
        assert(listed(o3, a));
        let i = choose|i: int| 0 <= i < o3.len() && #[trigger] o3[i] == a;
        assert(order[i] == place);
    }
}

/// The events of an append are those of its payload, or of the native batch that it still
/// carries, on its own shard and as many as it was acknowledged with.
pub proof fn appends_are_indexed_as_acknowledged(append: DurableAppend, shard: ShardId)
    ensures
        append_events_of(append, shard) matches Ok(events) ==> {
            &&& append.physical_shard_id == shard
            &&& events.len() == append.record_count
            &&& append.transient_context is None ==> payload_events(append.payload@) == Ok::<
                _,
                crate::error::LogDbFault,
            >(events)
            &&& append.transient_context matches Some(context) ==> is_native(context@)
                ==> payload_events(context@) == Ok::<_, crate::error::LogDbFault>(events)
            &&& append.transient_context matches Some(context) ==> !is_native(context@)
                ==> payload_events(append.payload@) == Ok::<_, crate::error::LogDbFault>(events)
        },
{
}

} // verus!
