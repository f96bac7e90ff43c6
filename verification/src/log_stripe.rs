//! Hot log index of one physical shard, and the database of all shards.
use vstd::prelude::*;

use crate::error::{ConfigFault, LogDbError};
use crate::frame_install::{frame_fault, InstalledFrame};
use crate::log_query::{
    durable, records_view, same_fields, search_forms, DurableLogRecord, RecordModel,
};
use crate::partition_index::{
    all_appended, append_error, appended, last_offset, offset_error, offsets_rise, validate_offset,
    PartitionIndex, PartitionModel,
};
use crate::record::{
    events_view, EventModel, LogicalOffset, OtlpLogEvent, RecordRef, ShardId, TopicPartition,
};

verus! {

broadcast use vstd::seq_lib::group_seq_properties;

/// Result of publishing one durable append into the hot index.
#[derive(Debug, Clone, Copy, PartialEq, Eq, Structural)]
pub struct IndexReceipt {
    /// Record made visible to term and metadata queries.
    pub record_ref: RecordRef,
    /// Indexed watermark after the publication.
    pub indexed_through: LogicalOffset,
}

/// Frames of one durable append.
pub struct IndexedFrameAppend {
    /// Partition of the append.
    pub topic_partition: TopicPartition,
    /// First offset.
    pub first_offset: LogicalOffset,
    /// Last offset.
    pub last_offset: LogicalOffset,
    /// Number of records.
    pub record_count: u32,
    /// Searchable frames.
    pub frames: Vec<InstalledFrame>,
}

/// Hot index of one physical shard.
pub struct LogStripe {
    /// Physical shard.
    pub stream_shard_id: ShardId,
    /// One index per partition.
    pub partitions: Vec<PartitionIndex>,
    /// Compressed appends, oldest first.
    pub appends: Vec<IndexedFrameAppend>,
}

impl IndexedFrameAppend {
    /// The offsets of the append fit, and every frame lies in it.
    pub open spec fn well_formed(self) -> bool {
        &&& self.record_count > 0
        &&& self.first_offset.0 + (self.record_count - 1) == self.last_offset.0
        &&& forall|i: int|
            0 <= i < self.frames@.len() ==> frame_fault(
                #[trigger] self.frames@[i],
                self.record_count,
            ) is None
    }
}

/// A partition without records.
pub open spec fn no_records() -> PartitionModel {
    PartitionModel { records: Seq::empty(), terms: Seq::empty() }
}

/// Place of a partition from `from` on, or their number.
pub open spec fn partition_place(
    partitions: Seq<PartitionIndex>,
    partition: TopicPartition,
    from: int,
) -> int
    decreases partitions.len() - from,
{
    if from >= partitions.len() {
        partitions.len() as int
    } else if partitions[from].topic_partition == partition {
        from
    } else {
        partition_place(partitions, partition, from + 1)
    }
}

pub proof fn lemma_partition_place(
    partitions: Seq<PartitionIndex>,
    partition: TopicPartition,
    from: int,
)
    requires
        0 <= from <= partitions.len(),
    ensures
        from <= partition_place(partitions, partition, from) <= partitions.len(),
        partition_place(partitions, partition, from) < partitions.len()
            ==> partitions[partition_place(partitions, partition, from)].topic_partition
            == partition,
        forall|i: int|
            from <= i < partition_place(partitions, partition, from) ==> (
            #[trigger] partitions[i]).topic_partition != partition,
    decreases partitions.len() - from,
{
    if from < partitions.len() && partitions[from].topic_partition != partition {
        lemma_partition_place(partitions, partition, from + 1);
    }
}

proof fn lemma_place_is(
    partitions: Seq<PartitionIndex>,
    partition: TopicPartition,
    at: int,
    from: int,
)
    requires
        0 <= from <= at <= partitions.len(),
        at < partitions.len() ==> partitions[at].topic_partition == partition,
        forall|i: int|
            from <= i < at ==> (#[trigger] partitions[i]).topic_partition != partition,
    ensures
        partition_place(partitions, partition, from) == at,
    decreases at - from,
{
    if from < at {
        lemma_place_is(partitions, partition, at, from + 1);
    }
}

/// Highest offset of the compressed appends of a partition.
pub open spec fn frame_watermark(
    appends: Seq<IndexedFrameAppend>,
    partition: TopicPartition,
) -> Option<LogicalOffset>
    decreases appends.len(),
{
    if appends.len() == 0 {
        None
    } else if appends.last().topic_partition == partition {
        Some(appends.last().last_offset)
    } else {
        frame_watermark(appends.drop_last(), partition)
    }
}

/// The higher of two watermarks.
pub open spec fn higher(left: Option<LogicalOffset>, right: Option<LogicalOffset>) -> Option<
    LogicalOffset,
> {
    match (left, right) {
        (Some(a), Some(b)) => Some(
            if a.0 < b.0 {
                b
            } else {
                a
            },
        ),
        (Some(a), None) => Some(a),
        (None, b) => b,
    }
}

/// Whether the partition holds a record at an offset.
pub open spec fn has_offset(model: PartitionModel, offset: LogicalOffset) -> bool {
    exists|i: int|
        0 <= i < model.records.len() && (#[trigger] model.records[i]).reference.offset == offset
}

/// What publishing a new record does to its partition.
pub open spec fn published(model: PartitionModel, record: RecordModel, terms: Seq<Seq<char>>) -> (
    PartitionModel,
    Result<(), LogDbError>,
) {
    match append_error(model, record) {
        Some(error) => (model, Err(error)),
        None => (appended(model, record, terms), Ok(())),
    }
}

/// What publishing a record that may be a repetition does to its partition.
pub open spec fn republished(
    model: PartitionModel,
    record: RecordModel,
    terms: Seq<Seq<char>>,
) -> (PartitionModel, Result<(), LogDbError>) {
    if has_offset(model, record.reference.offset) {
        if model.records.contains(record) {
            (model, Ok(()))
        } else {
            (
                model,
                Err(
                    LogDbError::ConflictingRecord {
                        partition: record.reference.topic_partition,
                        offset: record.reference.offset,
                    },
                ),
            )
        }
    } else {
        published(model, record, terms)
    }
}

/// What publishing the first `count` events of a batch does to their partition.
pub open spec fn batch_published(
    model: PartitionModel,
    shard: ShardId,
    partition: TopicPartition,
    first_offset: LogicalOffset,
    events: Seq<EventModel>,
    terms: Seq<Seq<Seq<char>>>,
    count: nat,
) -> (PartitionModel, Result<(), LogDbError>)
    decreases count,
{
    if count == 0 {
        (model, Ok(()))
    } else {
        let before = batch_published(
            model,
            shard,
            partition,
            first_offset,
            events,
            terms,
            (count - 1) as nat,
        );
        match before.1 {
            Err(error) => (before.0, Err(error)),
            Ok(_) => republished(
                before.0,
                durable(
                    events[count - 1],
                    shard,
                    partition,
                    LogicalOffset((first_offset.0 + (count - 1)) as u64),
                ),
                terms[count - 1],
            ),
        }
    }
}

/// Offset of the event at a place of a batch.
pub open spec fn batch_offset_of(partition: TopicPartition, first: LogicalOffset, index: int) -> Result<
    LogicalOffset,
    LogDbError,
> {
    if first.0 + index > u64::MAX {
        Err(LogDbError::OffsetExhausted(partition))
    } else {
        Ok(LogicalOffset((first.0 + index) as u64))
    }
}

/// Offset of the event at a place of a batch.
pub fn batch_offset(
    topic_partition: TopicPartition,
    first_offset: LogicalOffset,
    index: usize,
) -> (result: Result<LogicalOffset, LogDbError>)
    ensures
        result == batch_offset_of(topic_partition, first_offset, index as int),
{
    match first_offset.0.checked_add(index as u64) {
        Some(offset) => Ok(LogicalOffset(offset)),
        None => Err(LogDbError::OffsetExhausted(topic_partition)),
    }
}

/// Checks that a batch fits the offsets that are left.
pub fn validate_batch_offset_range(
    topic_partition: TopicPartition,
    first_offset: LogicalOffset,
    record_count: usize,
) -> (result: Result<(), LogDbError>)
    ensures
        result == if record_count > 0 && first_offset.0 + (record_count - 1) > u64::MAX {
            Err::<(), _>(LogDbError::OffsetExhausted(topic_partition))
        } else {
            Ok(())
        },
{
    if record_count == 0 {
        return Ok(());
    }
    match batch_offset(topic_partition, first_offset, record_count - 1) {
        Ok(_) => Ok(()),
        Err(error) => Err(error),
    }
}

/// What keeps a compressed append from being installed, or its last offset.
pub open spec fn indexed_append_plan(
    watermark: Option<LogicalOffset>,
    partition: TopicPartition,
    first_offset: LogicalOffset,
    record_count: u32,
) -> Result<LogicalOffset, LogDbError> {
    if record_count == 0 {
        Err(LogDbError::InvalidConfig(ConfigFault::EmptyIngestAppend))
    } else if first_offset.0 + (record_count - 1) > u64::MAX {
        Err(LogDbError::OffsetExhausted(partition))
    } else {
        match watermark {
            Some(previous) if first_offset.0 <= previous.0 => if previous.0 == u64::MAX {
                Err(LogDbError::OffsetExhausted(partition))
            } else {
                Err(
                    LogDbError::OffsetOutOfOrder {
                        partition,
                        expected: LogicalOffset((previous.0 + 1) as u64),
                        observed: first_offset,
                    },
                )
            },
            _ => Ok(LogicalOffset((first_offset.0 + (record_count - 1)) as u64)),
        }
    }
}

/// Terms of a batch in search form.
pub open spec fn batch_terms(terms: Seq<Vec<String>>) -> Seq<Seq<Seq<char>>> {
    terms.map_values(|item: Vec<String>| search_forms(item@))
}

impl LogStripe {
    /// Every partition occurs once and is well formed, and so is every compressed append.
    pub open spec fn well_formed(self) -> bool {
        &&& forall|i: int|
            0 <= i < self.appends@.len() ==> (#[trigger] self.appends@[i]).well_formed()
        &&& forall|i: int|
            0 <= i < self.partitions@.len() ==> (#[trigger] self.partitions@[i]).well_formed()
        &&& forall|i: int, j: int|
            0 <= i < j < self.partitions@.len() ==> (#[trigger] self.partitions@[i]).topic_partition
                != (#[trigger] self.partitions@[j]).topic_partition
    }

    /// The records of a partition.
    pub open spec fn model(self, partition: TopicPartition) -> PartitionModel {
        let at = partition_place(self.partitions@, partition, 0);
        if at < self.partitions@.len() {
            self.partitions@[at]@
        } else {
            no_records()
        }
    }

    /// Visible watermark of a partition.
    pub open spec fn watermark(self, partition: TopicPartition) -> Option<LogicalOffset> {
        higher(
            last_offset(self.model(partition).records),
            frame_watermark(self.appends@, partition),
        )
    }

    /// Whether only one partition differs from another stripe, and holds `model`.
    pub open spec fn differs_in(
        self,
        other: LogStripe,
        partition: TopicPartition,
        model: PartitionModel,
    ) -> bool {
        &&& self.stream_shard_id == other.stream_shard_id
        &&& self.appends == other.appends
        &&& self.model(partition) == model
        &&& forall|p: TopicPartition|
            p != partition ==> #[trigger] self.model(p) == other.model(p)
    }

    /// A stripe without records.
    pub fn new(stream_shard_id: ShardId) -> (stripe: Self)
        ensures
            stripe.well_formed(),
            stripe.stream_shard_id == stream_shard_id,
            stripe.appends@.len() == 0,
            forall|p: TopicPartition| #[trigger] stripe.model(p) == no_records(),
    {
        LogStripe { stream_shard_id, partitions: Vec::new(), appends: Vec::new() }
    }

    /// Place of a partition, or the number of partitions.
    pub(crate) fn place(&self, partition: TopicPartition) -> (at: usize)
        ensures
            at == partition_place(self.partitions@, partition, 0),
            at <= self.partitions@.len(),
    {
        let mut at: usize = 0;
        while at < self.partitions.len() && self.partitions[at].topic_partition != partition
            invariant
                at <= self.partitions@.len(),
                partition_place(self.partitions@, partition, 0) == partition_place(
                    self.partitions@,
                    partition,
                    at as int,
                ),
            decreases self.partitions@.len() - at,
        {
            at = at + 1;
        }
        at
    }

    /// Returns the visible indexed watermark for a partition.
    pub fn indexed_through(&self, topic_partition: TopicPartition) -> (offset: Option<
        LogicalOffset,
    >)
        requires
            self.well_formed(),
        ensures
            offset == self.watermark(topic_partition),
    {
        let at: usize = self.place(topic_partition);
        let hot = if at < self.partitions.len() {
            self.partitions[at].last_offset()
        } else {
            None
        };
        let mut frames: Option<LogicalOffset> = None;
        let mut left: usize = self.appends.len();
        let ghost appends = self.appends@;
        proof {
            assert(appends.subrange(0, left as int) =~= appends);
        }
        while left > 0 && frames.is_none()
            invariant
                left <= appends.len(),
                appends == self.appends@,
                frames is None ==> frame_watermark(appends, topic_partition) == frame_watermark(
                    appends.subrange(0, left as int),
                    topic_partition,
                ),
                frames is Some ==> frame_watermark(appends, topic_partition) == frames,
            decreases left,
        {
            proof {
                let part = appends.subrange(0, left as int);
                assert(part.last() == appends[left - 1]);
                assert(part.drop_last() =~= appends.subrange(0, left - 1));
            }
            left = left - 1;
            if self.appends[left].topic_partition == topic_partition {
                frames = Some(self.appends[left].last_offset);
            }
        }
        match (hot, frames) {
            (Some(a), Some(b)) => if a.0 < b.0 {
                Some(b)
            } else {
                Some(a)
            },
            (Some(a), None) => Some(a),
            (None, b) => b,
        }
    }

    /// Index of a partition; an empty one is made where there is none.
    fn ensure_partition(&mut self, partition: TopicPartition) -> (at: usize)
        requires
            old(self).well_formed(),
        ensures
            final(self).well_formed(),
            at < final(self).partitions@.len(),
            final(self).partitions@[at as int].topic_partition == partition,
            final(self).differs_in(*old(self), partition, old(self).model(partition)),
    {
        let at: usize = self.place(partition);
        proof {
            lemma_partition_place(self.partitions@, partition, 0);
        }
        if at == self.partitions.len() {
            let ghost before = self.partitions@;
            self.partitions.push(PartitionIndex::new(partition));
            proof {
                let after = self.partitions@;
                assert forall|p: TopicPartition| #[trigger] self.model(p) == old(self).model(p) by {
                    lemma_partition_place(before, p, 0);
                    let k = partition_place(before, p, 0);
                    if k < before.len() {
                        lemma_place_is(after, p, k, 0);
                    } else if p == partition {
                        lemma_place_is(after, p, at as int, 0);
                    } else {
                        lemma_place_is(after, p, after.len() as int, 0);
                    }
                }
            }
        }
        at
    }

    /// Publishes a new record of this stripe.
    fn publish(&mut self, record: DurableLogRecord, terms: &Vec<String>) -> (result: Result<
        IndexReceipt,
        LogDbError,
    >)
        requires
            old(self).well_formed(),
        ensures
            final(self).well_formed(),
            ({
                let partition = record@.reference.topic_partition;
                let after = published(
                    old(self).model(partition),
                    record@,
                    search_forms(terms@),
                );
                &&& final(self).differs_in(*old(self), partition, after.0)
                &&& match result {
                    Ok(receipt) => after.1 is Ok && receipt == (IndexReceipt {
                        record_ref: record@.reference,
                        indexed_through: record@.reference.offset,
                    }),
                    Err(error) => after.1 == Err::<(), _>(error),
                }
            }),
    {
        let record_ref = record.record_ref;
        let partition = record_ref.topic_partition;
        let at: usize = self.ensure_partition(partition);
        let ghost middle = *self;
        let ghost raw = self.partitions@;
        proof {
            lemma_first_of_distinct(raw, partition, at as int);
        }
        let result = self.partitions[at].append(record, terms);
        proof {
            lemma_one_partition_changed(raw, self.partitions@, at as int, partition);
            assert forall|p: TopicPartition| p != partition implies #[trigger] self.model(p)
                == old(self).model(p) by {
                assert(middle.model(p) == old(self).model(p));
                lemma_partition_place(raw, p, 0);
            }
        }
        match result {
            Ok(_) => Ok(IndexReceipt { record_ref, indexed_through: record_ref.offset }),
            Err(error) => Err(error),
        }
    }
}

/// Whether all events carry the message and fields of the first.
pub open spec fn homogeneous(events: Seq<EventModel>) -> bool {
    forall|i: int|
        0 <= i < events.len() ==> (#[trigger] events[i]).message == events[0].message
            && events[i].fields == events[0].fields
}

impl LogStripe {
    /// Applies a record only after the corresponding append is durable. `terms` are
    /// the terms of its message.
    pub fn apply_durable(&mut self, record: DurableLogRecord, terms: &Vec<String>) -> (result:
        Result<IndexReceipt, LogDbError>)
        requires
            old(self).well_formed(),
        ensures
            final(self).well_formed(),
            ({
                let partition = record@.reference.topic_partition;
                let model = old(self).model(partition);
                let after = published(model, record@, search_forms(terms@));
                if record@.shard != old(self).stream_shard_id {
                    *final(self) == *old(self) && result == Err::<IndexReceipt, _>(
                        LogDbError::WrongStripe {
                            expected: old(self).stream_shard_id,
                            observed: record@.shard,
                        },
                    )
                } else if has_offset(model, record@.reference.offset) {
                    *final(self) == *old(self) && result == Err::<IndexReceipt, _>(
                        LogDbError::DuplicateRecord {
                            partition,
                            offset: record@.reference.offset,
                        },
                    )
                } else {
                    &&& final(self).differs_in(*old(self), partition, after.0)
                    &&& match result {
                        Ok(receipt) => after.1 is Ok && receipt == (IndexReceipt {
                            record_ref: record@.reference,
                            indexed_through: record@.reference.offset,
                        }),
                        Err(error) => after.1 == Err::<(), _>(error),
                    }
                }
            }),
    {
        if record.stream_shard_id != self.stream_shard_id {
            return Err(
                LogDbError::WrongStripe {
                    expected: self.stream_shard_id,
                    observed: record.stream_shard_id,
                },
            );
        }
        let at: usize = self.place(record.record_ref.topic_partition);
        if at < self.partitions.len() {
            match self.partitions[at].record(record.record_ref.offset) {
                Some(found) => {
                    proof {
                        let records = self.partitions@[at as int]@.records;
                        let k = choose|k: int| 0 <= k < records.len() && records[k] == found@;
                        assert(records[k].reference.offset == record@.reference.offset);
                    }
                    return Err(
                        LogDbError::DuplicateRecord {
                            partition: record.record_ref.topic_partition,
                            offset: record.record_ref.offset,
                        },
                    );
                },
                None => {},
            }
        }
        self.publish(record, terms)
    }

    /// Applies a record that may be a repetition.
    fn apply_durable_idempotent(&mut self, record: DurableLogRecord, terms: &Vec<String>) -> (
    result: Result<IndexReceipt, LogDbError>)
        requires
            old(self).well_formed(),
        ensures
            final(self).well_formed(),
            ({
                let partition = record@.reference.topic_partition;
                let model = old(self).model(partition);
                let after = republished(model, record@, search_forms(terms@));
                &&& final(self).differs_in(*old(self), partition, after.0)
                &&& match result {
                    Ok(receipt) => after.1 is Ok && receipt == receipt_of(
                        model,
                        record@,
                        frame_watermark(old(self).appends@, partition),
                    ),
                    Err(error) => after.1 == Err::<(), _>(error),
                }
            }),
    {
        let partition = record.record_ref.topic_partition;
        let at: usize = self.place(partition);
        if at < self.partitions.len() {
            match self.partitions[at].record(record.record_ref.offset) {
                Some(found) => {
                    let ghost records = self.partitions@[at as int]@.records;
                    proof {
                        let k = choose|k: int| 0 <= k < records.len() && records[k] == found@;
                        assert(records[k].reference.offset == record@.reference.offset);
                        if records.contains(record@) {
                            let m = choose|m: int|
                                0 <= m < records.len() && records[m] == record@;
                            if m < k {
                                assert(records[m].reference.offset.0
                                    < records[k].reference.offset.0);
                            } else if k < m {
                                assert(records[k].reference.offset.0
                                    < records[m].reference.offset.0);
                            }
                        }
                    }
                    if !found.same(&record) {
                        return Err(
                            LogDbError::ConflictingRecord {
                                partition,
                                offset: record.record_ref.offset,
                            },
                        );
                    }
                    let offset = match self.indexed_through(partition) {
                        Some(offset) => offset,
                        None => record.record_ref.offset,
                    };
                    return Ok(
                        IndexReceipt { record_ref: record.record_ref, indexed_through: offset },
                    );
                },
                None => {},
            }
        }
        self.publish(record, terms)
    }

    /// Publishes a batch one event after the other.
    fn apply_each(
        &mut self,
        topic_partition: TopicPartition,
        first_offset: LogicalOffset,
        events: Vec<OtlpLogEvent>,
        terms: &Vec<Vec<String>>,
    ) -> (result: Result<Vec<IndexReceipt>, LogDbError>)
        requires
            old(self).well_formed(),
            events@.len() == terms@.len(),
            events@.len() > 0 ==> first_offset.0 + (events@.len() - 1) <= u64::MAX,
        ensures
            final(self).well_formed(),
            ({
                let after = batch_published(
                    old(self).model(topic_partition),
                    old(self).stream_shard_id,
                    topic_partition,
                    first_offset,
                    events_view(events@),
                    batch_terms(terms@),
                    events@.len(),
                );
                &&& final(self).differs_in(*old(self), topic_partition, after.0)
                &&& match result {
                    Ok(receipts) => after.1 is Ok && receipts@ == receipts_of(
                        old(self).model(topic_partition),
                        old(self).stream_shard_id,
                        topic_partition,
                        first_offset,
                        events_view(events@),
                        batch_terms(terms@),
                        frame_watermark(old(self).appends@, topic_partition),
                        events@.len(),
                    ),
                    Err(error) => after.1 == Err::<(), _>(error),
                }
            }),
    {
        let ghost model = self.model(topic_partition);
        let ghost all = events_view(events@);
        let ghost forms = batch_terms(terms@);
        let ghost frames = frame_watermark(self.appends@, topic_partition);
        let count: usize = events.len();
        let shard = self.stream_shard_id;
        let mut receipts: Vec<IndexReceipt> = Vec::new();
        let mut index: usize = 0;
        while index < count
            invariant
                index <= count,
                count == events@.len(),
                events@.len() == terms@.len(),
                first_offset.0 + (count - 1) <= u64::MAX || count == 0,
                all == events_view(events@),
                forms == batch_terms(terms@),
                model == old(self).model(topic_partition),
                shard == old(self).stream_shard_id,
                self.well_formed(),
                self.differs_in(
                    *old(self),
                    topic_partition,
                    batch_published(
                        model,
                        shard,
                        topic_partition,
                        first_offset,
                        all,
                        forms,
                        index as nat,
                    ).0,
                ),
                batch_published(
                    model,
                    shard,
                    topic_partition,
                    first_offset,
                    all,
                    forms,
                    index as nat,
                ).1 is Ok,
                receipts@ == receipts_of(
                    model,
                    shard,
                    topic_partition,
                    first_offset,
                    all,
                    forms,
                    frames,
                    index as nat,
                ),
                frames == frame_watermark(old(self).appends@, topic_partition),
            decreases count - index,
        {
            let offset = LogicalOffset(first_offset.0 + index as u64);
            let record = events[index].clone().into_durable(shard, topic_partition, offset);
            proof {
                assert(all[index as int] == events@[index as int]@);
                assert(forms[index as int] == search_forms(terms@[index as int]@));
            }
            match self.apply_durable_idempotent(record, &terms[index]) {
                Ok(receipt) => {
                    receipts.push(receipt);
                },
                Err(error) => {
                    proof {
                        lemma_batch_error(
                            model,
                            shard,
                            topic_partition,
                            first_offset,
                            all,
                            forms,
                            (index + 1) as nat,
                            count as nat,
                        );
                    }
                    return Err(error);
                },
            }
            index = index + 1;
        }
        Ok(receipts)
    }

    /// Whether a batch can be published as one run of equal records.
    fn can_index_as_homogeneous_range(
        &self,
        topic_partition: TopicPartition,
        first_offset: LogicalOffset,
        events: &Vec<OtlpLogEvent>,
    ) -> (possible: bool)
        requires
            self.well_formed(),
        ensures
            possible == (events@.len() >= 2 && homogeneous(events_view(events@)) && match last_offset(
                self.model(topic_partition).records,
            ) {
                Some(last) => first_offset.0 > last.0,
                None => true,
            }),
    {
        if events.len() < 2 {
            return false;
        }
        let at: usize = self.place(topic_partition);
        if at < self.partitions.len() {
            match self.partitions[at].last_offset() {
                Some(last) => {
                    if first_offset.0 <= last.0 {
                        return false;
                    }
                },
                None => {},
            }
        }
        let ghost all = events_view(events@);
        let mut index: usize = 0;
        while index < events.len()
            invariant
                events@.len() >= 2,
                index <= events@.len(),
                all == events_view(events@),
                forall|i: int|
                    0 <= i < index ==> (#[trigger] all[i]).message == all[0].message
                        && all[i].fields == all[0].fields,
            decreases events@.len() - index,
        {
            proof {
                assert(all[0] == events@[0]@);
                assert(all[index as int] == events@[index as int]@);
            }
            if !crate::codec::same_text(&events[index].message, &events[0].message)
                || !same_fields(&events[index].fields, &events[0].fields) {
                return false;
            }
            index = index + 1;
        }
        true
    }

    /// Publishes events after their append is durable. `terms` are the terms of each
    /// message.
    pub fn apply_otlp_events(
        &mut self,
        topic_partition: TopicPartition,
        first_offset: LogicalOffset,
        events: Vec<OtlpLogEvent>,
        terms: &Vec<Vec<String>>,
    ) -> (result: Result<Vec<IndexReceipt>, LogDbError>)
        requires
            old(self).well_formed(),
            events@.len() == terms@.len(),
            forall|i: int, j: int|
                0 <= i < terms@.len() && 0 <= j < terms@.len() && (#[trigger] events@[i])@.message
                    == (#[trigger] events@[j])@.message ==> search_forms(terms@[i]@)
                    == search_forms(terms@[j]@),
        ensures
            final(self).well_formed(),
            ({
                let after = batch_published(
                    old(self).model(topic_partition),
                    old(self).stream_shard_id,
                    topic_partition,
                    first_offset,
                    events_view(events@),
                    batch_terms(terms@),
                    events@.len(),
                );
                if events@.len() > 0 && first_offset.0 + (events@.len() - 1) > u64::MAX {
                    *final(self) == *old(self) && result == Err::<Vec<IndexReceipt>, _>(
                        LogDbError::OffsetExhausted(topic_partition),
                    )
                } else {
                    &&& final(self).differs_in(*old(self), topic_partition, after.0)
                    &&& match result {
                        Ok(receipts) => after.1 is Ok && receipts@ == receipts_of(
                            old(self).model(topic_partition),
                            old(self).stream_shard_id,
                            topic_partition,
                            first_offset,
                            events_view(events@),
                            batch_terms(terms@),
                            frame_watermark(old(self).appends@, topic_partition),
                            events@.len(),
                        ),
                        Err(error) => after.1 == Err::<(), _>(error),
                    }
                }
            }),
    {
        match validate_batch_offset_range(topic_partition, first_offset, events.len()) {
            Ok(_) => {},
            Err(error) => return Err(error),
        }
        let at: usize = self.place(topic_partition);
        let held: usize = if at < self.partitions.len() {
            self.partitions[at].records.len()
        } else {
            0
        };
        let room: u64 = u32::MAX as u64;
        if !self.can_index_as_homogeneous_range(topic_partition, first_offset, &events)
            || events.len() as u64 > room || held as u64 > room - events.len() as u64 {
            return self.apply_each(topic_partition, first_offset, events, terms);
        }
        self.apply_homogeneous_events(topic_partition, first_offset, events, terms)
    }

    /// Publishes a run of records that share their message and fields.
    fn apply_homogeneous_events(
        &mut self,
        topic_partition: TopicPartition,
        first_offset: LogicalOffset,
        events: Vec<OtlpLogEvent>,
        terms: &Vec<Vec<String>>,
    ) -> (result: Result<Vec<IndexReceipt>, LogDbError>)
        requires
            old(self).well_formed(),
            events@.len() >= 2,
            events@.len() == terms@.len(),
            homogeneous(events_view(events@)),
            first_offset.0 + (events@.len() - 1) <= u64::MAX,
            old(self).model(topic_partition).records.len() + events@.len() <= u32::MAX,
            last_offset(old(self).model(topic_partition).records) matches Some(last)
                ==> first_offset.0 > last.0,
            forall|i: int, j: int|
                0 <= i < terms@.len() && 0 <= j < terms@.len() && (#[trigger] events@[i])@.message
                    == (#[trigger] events@[j])@.message ==> search_forms(terms@[i]@)
                    == search_forms(terms@[j]@),
        ensures
            final(self).well_formed(),
            result is Ok,
            result->Ok_0@ == receipts_of(
                old(self).model(topic_partition),
                old(self).stream_shard_id,
                topic_partition,
                first_offset,
                events_view(events@),
                batch_terms(terms@),
                frame_watermark(old(self).appends@, topic_partition),
                events@.len(),
            ),
            ({
                let after = batch_published(
                    old(self).model(topic_partition),
                    old(self).stream_shard_id,
                    topic_partition,
                    first_offset,
                    events_view(events@),
                    batch_terms(terms@),
                    events@.len(),
                );
                final(self).differs_in(*old(self), topic_partition, after.0) && after.1 is Ok
            }),
    {
        let ghost model = self.model(topic_partition);
        let ghost all = events_view(events@);
        let ghost forms = batch_terms(terms@);
        let ghost start = *self;
        let shard = self.stream_shard_id;
        let count: usize = events.len();
        let mut records: Vec<DurableLogRecord> = Vec::new();
        let mut receipts: Vec<IndexReceipt> = Vec::new();
        let mut index: usize = 0;
        while index < count
            invariant
                index <= count,
                count == events@.len(),
                all == events_view(events@),
                first_offset.0 + (count - 1) <= u64::MAX,
                records@.len() == index,
                forall|i: int|
                    0 <= i < index ==> (#[trigger] records@[i])@ == durable(
                        all[i],
                        shard,
                        topic_partition,
                        LogicalOffset((first_offset.0 + i) as u64),
                    ),
                receipts@.len() == index,
                forall|i: int|
                    0 <= i < index ==> (#[trigger] receipts@[i]) == plain_receipt(
                        topic_partition,
                        first_offset,
                        i,
                    ),
            decreases count - index,
        {
            let offset = LogicalOffset(first_offset.0 + index as u64);
            let record = events[index].clone().into_durable(shard, topic_partition, offset);
            proof {
                assert(all[index as int] == events@[index as int]@);
            }
            receipts.push(
                IndexReceipt { record_ref: record.record_ref, indexed_through: offset },
            );
            records.push(record);
            index = index + 1;
        }
        let at: usize = self.ensure_partition(topic_partition);
        let ghost raw = self.partitions@;
        let ghost middle = *self;
        proof {
            lemma_first_of_distinct(raw, topic_partition, at as int);
            assert(middle.model(topic_partition) == model);
            assert(raw[at as int]@ == model);
            let added = records_view(records@);
            lemma_records_rise(model.records, added, first_offset, raw[at as int]);
            assert(all[0] == events@[0]@);
            assert forall|i: int| 0 <= i < records@.len() implies (
            #[trigger] records@[i])@.fields == records@[0]@.fields
                && records@[i]@.reference.topic_partition == topic_partition by {
                assert(all[i].fields == all[0].fields);
            }
            assert forall|i: int| 0 <= i < forms.len() implies #[trigger] forms[i]
                == forms[0] by {
                assert(all[i].message == all[0].message);
                assert(all[i] == events@[i]@);
                assert(events@[i]@.message == events@[0]@.message);
                assert(forms[i] == search_forms(terms@[i]@));
                assert(forms[0] == search_forms(terms@[0]@));
            }
            lemma_homogeneous_batch(
                model,
                shard,
                topic_partition,
                first_offset,
                all,
                forms,
                added,
                frame_watermark(start.appends@, topic_partition),
                count as nat,
            );
            assert(added.subrange(0, count as int) =~= added);
            assert(receipts@ =~= receipts_of(
                model,
                shard,
                topic_partition,
                first_offset,
                all,
                forms,
                frame_watermark(start.appends@, topic_partition),
                count as nat,
            ));
        }
        self.partitions[at].append_homogeneous(records, &terms[0]);
        proof {
            lemma_one_partition_changed(raw, self.partitions@, at as int, topic_partition);
            assert forall|p: TopicPartition| p != topic_partition implies #[trigger] self.model(p)
                == start.model(p) by {
                assert(middle.model(p) == start.model(p));
                lemma_partition_place(raw, p, 0);
            }
            assert(forms[0] == search_forms(terms@[0]@));
        }
        Ok(receipts)
    }
}

/// Receipt of a record published into a partition whose compressed appends reach
/// `frames`.
pub open spec fn receipt_of(
    model: PartitionModel,
    record: RecordModel,
    frames: Option<LogicalOffset>,
) -> IndexReceipt {
    IndexReceipt {
        record_ref: record.reference,
        indexed_through: if has_offset(model, record.reference.offset) {
            higher(last_offset(model.records), frames)->0
        } else {
            record.reference.offset
        },
    }
}

/// Receipts of the first `count` events of a batch.
pub open spec fn receipts_of(
    model: PartitionModel,
    shard: ShardId,
    partition: TopicPartition,
    first_offset: LogicalOffset,
    events: Seq<EventModel>,
    terms: Seq<Seq<Seq<char>>>,
    frames: Option<LogicalOffset>,
    count: nat,
) -> Seq<IndexReceipt>
    decreases count,
{
    if count == 0 {
        Seq::empty()
    } else {
        let last = (count - 1) as nat;
        receipts_of(model, shard, partition, first_offset, events, terms, frames, last).push(
            receipt_of(
                batch_published(model, shard, partition, first_offset, events, terms, last).0,
                durable(
                    events[last as int],
                    shard,
                    partition,
                    LogicalOffset((first_offset.0 + last) as u64),
                ),
                frames,
            ),
        )
    }
}

proof fn lemma_batch_error(
    model: PartitionModel,
    shard: ShardId,
    partition: TopicPartition,
    first_offset: LogicalOffset,
    events: Seq<EventModel>,
    terms: Seq<Seq<Seq<char>>>,
    n: nat,
    count: nat,
)
    requires
        n <= count,
        batch_published(model, shard, partition, first_offset, events, terms, n).1 is Err,
    ensures
        batch_published(model, shard, partition, first_offset, events, terms, count)
            == batch_published(model, shard, partition, first_offset, events, terms, n),
    decreases count,
{
    if n < count {
        lemma_batch_error(
            model,
            shard,
            partition,
            first_offset,
            events,
            terms,
            n,
            (count - 1) as nat,
        );
    }
}

proof fn lemma_records_rise(
    records: Seq<RecordModel>,
    added: Seq<RecordModel>,
    first_offset: LogicalOffset,
    index: PartitionIndex,
)
    requires
        index.well_formed(),
        index@.records == records,
        first_offset.0 + added.len() <= u64::MAX + 1,
        last_offset(records) matches Some(last) ==> first_offset.0 > last.0,
        forall|i: int|
            0 <= i < added.len() ==> (#[trigger] added[i]).reference.offset.0 == first_offset.0 + i,
    ensures
        offsets_rise(records + added),
{
    let all = records + added;
    assert forall|i: int, j: int| 0 <= i < j < all.len() implies (
    #[trigger] all[i]).reference.offset.0 < (#[trigger] all[j]).reference.offset.0 by {
        if j < records.len() {
            assert(all[i] == records[i] && all[j] == records[j]);
        } else if i >= records.len() {
            assert(all[i] == added[i - records.len()]);
            assert(all[j] == added[j - records.len()]);
        } else {
            assert(all[i] == records[i]);
            assert(all[j] == added[j - records.len()]);
            let last = records.len() - 1;
            if i < last {
                assert(records[i].reference.offset.0 < records[last].reference.offset.0);
            }
        }
    }
}

/// Receipt of a new record of a batch.
spec fn plain_receipt(partition: TopicPartition, first_offset: LogicalOffset, i: int) -> IndexReceipt {
    let offset = LogicalOffset((first_offset.0 + i) as u64);
    IndexReceipt {
        record_ref: RecordRef { topic_partition: partition, offset },
        indexed_through: offset,
    }
}

/// Publishing records of one message one by one is appending them all: the run of
/// equal records is indexed exactly as its records would be.
proof fn lemma_homogeneous_batch(
    model: PartitionModel,
    shard: ShardId,
    partition: TopicPartition,
    first_offset: LogicalOffset,
    events: Seq<EventModel>,
    terms: Seq<Seq<Seq<char>>>,
    records: Seq<RecordModel>,
    frames: Option<LogicalOffset>,
    count: nat,
)
    requires
        count <= events.len() == records.len() == terms.len(),
        records.len() > 0,
        model.records.len() + records.len() <= u32::MAX,
        offsets_rise(model.records + records),
        first_offset.0 + (records.len() - 1) <= u64::MAX,
        forall|i: int| 0 <= i < terms.len() ==> #[trigger] terms[i] == terms[0],
        forall|i: int|
            0 <= i < records.len() ==> #[trigger] records[i] == durable(
                events[i],
                shard,
                partition,
                LogicalOffset((first_offset.0 + i) as u64),
            ),
    ensures
        batch_published(model, shard, partition, first_offset, events, terms, count) == (
            all_appended(model, records.subrange(0, count as int), terms[0]),
            Ok::<(), LogDbError>(()),
        ),
        receipts_of(model, shard, partition, first_offset, events, terms, frames, count)
            == Seq::new(count, |i: int| plain_receipt(partition, first_offset, i)),
    decreases count,
{
    let plain = Seq::new(count, |i: int| plain_receipt(partition, first_offset, i));
    if count == 0 {
        assert(plain =~= Seq::<IndexReceipt>::empty());
        assert(records.subrange(0, 0) =~= Seq::<RecordModel>::empty());
    } else {
        let last = (count - 1) as nat;
        lemma_homogeneous_batch(
            model,
            shard,
            partition,
            first_offset,
            events,
            terms,
            records,
            frames,
            last,
        );
        let part = records.subrange(0, count as int);
        assert(part.drop_last() =~= records.subrange(0, last as int));
        assert(part.last() == records[last as int]);
        let before = all_appended(model, records.subrange(0, last as int), terms[0]);
        crate::partition_index::lemma_all_appended(
            model,
            records.subrange(0, last as int),
            terms[0],
        );
        let record = records[last as int];
        let all = model.records + records;
        let at = model.records.len() + last;
        assert(all[at as int] == record);
        assert forall|i: int| 0 <= i < before.records.len() implies (
        #[trigger] before.records[i]).reference.offset.0 < record.reference.offset.0 by {
            assert(before.records[i] == all[i]);
        }
        assert(!has_offset(before, record.reference.offset));
        assert(terms[last as int] == terms[0]);
        if before.records.len() > 0 {
            let previous = before.records[before.records.len() - 1];
            assert(before.records.last() == previous);
        }
        assert(offset_error(last_offset(before.records), record) is None);
        assert(plain =~= Seq::new(
            last,
            |i: int| plain_receipt(partition, first_offset, i),
        ).push(plain_receipt(partition, first_offset, last as int)));
    }
}

proof fn lemma_first_of_distinct(
    partitions: Seq<PartitionIndex>,
    partition: TopicPartition,
    at: int,
)
    requires
        0 <= at < partitions.len(),
        partitions[at].topic_partition == partition,
        forall|i: int, j: int|
            0 <= i < j < partitions.len() ==> (#[trigger] partitions[i]).topic_partition != (
            #[trigger] partitions[j]).topic_partition,
    ensures
        partition_place(partitions, partition, 0) == at,
{
    lemma_place_is(partitions, partition, at, 0);
}

proof fn lemma_one_partition_changed(
    before: Seq<PartitionIndex>,
    after: Seq<PartitionIndex>,
    at: int,
    partition: TopicPartition,
)
    requires
        0 <= at < before.len(),
        after.len() == before.len(),
        before[at].topic_partition == partition,
        after[at].topic_partition == partition,
        forall|i: int| 0 <= i < before.len() && i != at ==> #[trigger] after[i] == before[i],
        forall|i: int, j: int|
            0 <= i < j < before.len() ==> (#[trigger] before[i]).topic_partition != (
            #[trigger] before[j]).topic_partition,
    ensures
        partition_place(after, partition, 0) == at,
        forall|p: TopicPartition|
            #[trigger] partition_place(after, p, 0) == partition_place(before, p, 0),
        forall|i: int, j: int|
            0 <= i < j < after.len() ==> (#[trigger] after[i]).topic_partition != (
            #[trigger] after[j]).topic_partition,
{
    assert forall|i: int| 0 <= i < after.len() implies (#[trigger] after[i]).topic_partition
        == before[i].topic_partition by {}
    lemma_place_is(after, partition, at, 0);
    assert forall|p: TopicPartition|
        #[trigger] partition_place(after, p, 0) == partition_place(before, p, 0) by {
        lemma_partition_place(before, p, 0);
        lemma_place_is(after, p, partition_place(before, p, 0), 0);
    }
}

/// What keeps a record from being applied, its place in the partition left aside.
pub open spec fn durable_fault(stripe: LogStripe, record: RecordModel) -> Option<LogDbError> {
    let partition = record.reference.topic_partition;
    let model = stripe.model(partition);
    if record.shard != stripe.stream_shard_id {
        Some(
            LogDbError::WrongStripe {
                expected: stripe.stream_shard_id,
                observed: record.shard,
            },
        )
    } else if has_offset(model, record.reference.offset) {
        Some(LogDbError::DuplicateRecord { partition, offset: record.reference.offset })
    } else {
        offset_error(last_offset(model.records), record)
    }
}

impl LogStripe {
    /// Tests the stripe and the offset of a record.
    pub fn check_durable(&self, record: &DurableLogRecord) -> (result: Result<(), LogDbError>)
        requires
            self.well_formed(),
        ensures
            match result {
                Ok(_) => durable_fault(*self, record@) is None,
                Err(error) => durable_fault(*self, record@) == Some(error),
            },
    {
        if record.stream_shard_id != self.stream_shard_id {
            return Err(
                LogDbError::WrongStripe {
                    expected: self.stream_shard_id,
                    observed: record.stream_shard_id,
                },
            );
        }
        let at: usize = self.place(record.record_ref.topic_partition);
        if at == self.partitions.len() {
            return Ok(());
        }
        match self.partitions[at].record(record.record_ref.offset) {
            Some(found) => {
                proof {
                    let records = self.partitions@[at as int]@.records;
                    let k = choose|k: int| 0 <= k < records.len() && records[k] == found@;
                    assert(records[k].reference.offset == record@.reference.offset);
                }
                return Err(
                    LogDbError::DuplicateRecord {
                        partition: record.record_ref.topic_partition,
                        offset: record.record_ref.offset,
                    },
                );
            },
            None => {},
        }
        validate_offset(self.partitions[at].last_offset(), record)
    }

    /// Number of hot records of a partition.
    pub fn hot_records(&self, partition: TopicPartition) -> (count: usize)
        ensures
            count == self.model(partition).records.len(),
    {
        let at: usize = self.place(partition);
        if at == self.partitions.len() {
            0
        } else {
            self.partitions[at].records.len()
        }
    }
}

} // verus!
