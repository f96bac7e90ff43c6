//! Durable store of tenants' entries: configuration, partitions, retention and the
//! form in which entries are kept.
use vstd::prelude::*;
use vstd::utf8::encode_utf8;

use crate::active_block::StripeConfig;
use crate::analytics::{AnalyticsLogRow, RowModel};
use crate::api_error::{bad, plain_outcome, same_outcome, ApiFault, ApiStatus, LokiApiError};
use crate::codec::{decimal_string, decimal_text, same_text};
use crate::hash::{fnv_bytes, fnv_extend, FNV_OFFSET};
use crate::labels::{collect_pairs, insert_pair, LabelMap, Pairs};
use crate::log_query::{durable, DurableLogRecord, RecordModel};
use crate::loki_gate::{StoreHealth, StoreMetrics};
use crate::native_batch::WireEntry;
use crate::native_decode::{
    entry_of, event_fields, event_of, LABEL_PREFIX, METADATA_PREFIX, TENANT_FIELD,
};
use crate::native_frame::NativeAppendAck;
use crate::record::{
    EntryModel, LogicalOffset, LogicalPartitionId, LokiEntry, ShardId, TopicId, TopicPartition,
};
use crate::text::{chars_of, holds_part, part_at, text_between};

verus! {

broadcast use vstd::seq_lib::group_seq_properties;

/// Topic of all tenants' entries.
pub const LOKI_TOPIC: u128 = 1;

/// A failure of the service.
pub open spec fn internal_fault(message: Seq<char>) -> ApiFault {
    ApiFault { status: ApiStatus::Internal, message }
}

/// Configuration of a durable store; times in nanoseconds.
#[derive(Debug, PartialEq, Eq)]
pub struct DurableLokiConfig {
    /// Directory of packs, coordinator state and index journals.
    pub data_directory: String,
    /// Optional local object-store directory.
    pub object_store_directory: Option<String>,
    /// Keep a second raw-payload journal for faster recovery.
    pub recovery_journal: bool,
    /// Logical retention window; `None` keeps records indefinitely.
    pub retention_nanos: Option<u128>,
    /// Number of physical single-owner stripes.
    pub shard_count: u32,
    /// Stable tenant partitions spread across physical stripes.
    pub tenant_partitions: u32,
    /// Longest time in which adjacent appends are collected.
    pub append_linger_nanos: u128,
    /// Stripe limits.
    pub stripe: StripeConfig,
    /// Longest time a durable append waits for its index.
    pub indexed_ack_timeout_nanos: u128,
}

impl DurableLokiConfig {
    /// What is wrong with the configuration, if anything.
    pub open spec fn fault(self) -> Option<Seq<char>> {
        if self.shard_count == 0 {
            Some("shard_count must be nonzero"@)
        } else if self.tenant_partitions == 0 {
            Some("tenant_partitions must be nonzero"@)
        } else if self.indexed_ack_timeout_nanos == 0 {
            Some("indexed_ack_timeout must be nonzero"@)
        } else if self.retention_nanos == Some(0u128) {
            Some("retention must be nonzero when configured"@)
        } else if self.retention_nanos is Some && !self.recovery_journal {
            Some(
                "retention currently requires recovery_journal so the durable index checkpoint survives log truncation"@,
            )
        } else {
            None
        }
    }

    /// Tests the configuration.
    pub fn validate(&self) -> (result: Result<(), LokiApiError>)
        ensures
            match (result, self.fault()) {
                (Ok(_), None) => true,
                (Err(error), Some(message)) => error@ == internal_fault(message),
                _ => false,
            },
    {
        if self.shard_count == 0 {
            return Err(LokiApiError::internal("shard_count must be nonzero"));
        }
        if self.tenant_partitions == 0 {
            return Err(LokiApiError::internal("tenant_partitions must be nonzero"));
        }
        if self.indexed_ack_timeout_nanos == 0 {
            return Err(LokiApiError::internal("indexed_ack_timeout must be nonzero"));
        }
        match self.retention_nanos {
            Some(retention) => {
                if retention == 0 {
                    return Err(LokiApiError::internal("retention must be nonzero when configured"));
                }
                if !self.recovery_journal {
                    return Err(
                        LokiApiError::internal(
                            "retention currently requires recovery_journal so the durable index checkpoint survives log truncation",
                        ),
                    );
                }
            },
            None => {},
        }
        Ok(())
    }

    /// The partitions of a store with this configuration.
    pub fn routing(&self) -> (routing: TenantRouting)
        requires
            self.fault() is None,
        ensures
            routing.well_formed(),
            routing.tenant_partitions == self.tenant_partitions,
            routing.ingest_stripes == if self.shard_count < self.tenant_partitions {
                self.shard_count
            } else {
                self.tenant_partitions
            },
    {
        TenantRouting {
            tenant_partitions: self.tenant_partitions,
            ingest_stripes: if self.shard_count < self.tenant_partitions {
                self.shard_count
            } else {
                self.tenant_partitions
            },
        }
    }
}

/// Partitions and how many of them one tenant writes to.
#[derive(Debug, Clone, Copy, PartialEq, Eq, Structural)]
pub struct TenantRouting {
    /// Number of partitions.
    pub tenant_partitions: u32,
    /// Partitions of one tenant.
    pub ingest_stripes: u32,
}

/// What is wrong with the settings of a store that joins a running engine.
pub open spec fn attach_fault(
    tenant_partitions: u32,
    ingest_stripes: u32,
    indexed_ack_timeout_nanos: u128,
    retention_nanos: Option<u128>,
) -> Option<Seq<char>> {
    if tenant_partitions == 0 || ingest_stripes == 0 {
        Some("tenant and ingest stripe counts must be nonzero"@)
    } else if ingest_stripes > tenant_partitions {
        Some("ingest stripe count cannot exceed tenant partitions"@)
    } else if indexed_ack_timeout_nanos == 0 {
        Some("indexed_ack_timeout must be nonzero"@)
    } else if retention_nanos == Some(0u128) {
        Some("retention must be nonzero when configured"@)
    } else {
        None
    }
}

/// Partition of a number of the topic.
pub open spec fn partition_number(number: u32) -> TopicPartition {
    TopicPartition {
        topic_id: TopicId(LOKI_TOPIC),
        partition_id: LogicalPartitionId(number),
    }
}

fn partition_at(number: u32) -> (partition: TopicPartition)
    ensures
        partition == partition_number(number),
{
    TopicPartition {
        topic_id: TopicId(LOKI_TOPIC),
        partition_id: LogicalPartitionId(number),
    }
}

impl TenantRouting {
    /// A tenant has partitions, and no more than there are.
    pub open spec fn well_formed(self) -> bool {
        0 < self.ingest_stripes <= self.tenant_partitions
    }

    /// Number of groups of partitions.
    pub open spec fn groups(self) -> int {
        self.tenant_partitions as int / self.ingest_stripes as int
    }

    /// First partition of a tenant.
    pub open spec fn base(self, tenant: Seq<char>) -> int {
        (fnv_bytes(FNV_OFFSET, encode_utf8(tenant)) as int % self.groups()) * self.ingest_stripes
    }

    /// The partitions of a tenant.
    pub open spec fn partitions(self, tenant: Seq<char>) -> Seq<TopicPartition> {
        Seq::new(
            self.ingest_stripes as nat,
            |stripe: int|
                partition_number(
                    ((self.base(tenant) + stripe) % (self.tenant_partitions as int)) as u32,
                ),
        )
    }

    /// The partition that a request of a tenant is written to.
    pub open spec fn written(self, tenant: Seq<char>, request_id: u64) -> TopicPartition {
        partition_number(
            ((self.base(tenant) + request_id as int % (self.ingest_stripes as int)) % (
            self.tenant_partitions as int)) as u32,
        )
    }

    /// Joins a running engine.
    pub fn attach(
        tenant_partitions: u32,
        ingest_stripes: u32,
        indexed_ack_timeout_nanos: u128,
        retention_nanos: Option<u128>,
    ) -> (result: Result<TenantRouting, LokiApiError>)
        ensures
            match (
                result,
                attach_fault(
                    tenant_partitions,
                    ingest_stripes,
                    indexed_ack_timeout_nanos,
                    retention_nanos,
                ),
            ) {
                (Ok(routing), None) => routing.well_formed() && routing == (TenantRouting {
                    tenant_partitions,
                    ingest_stripes,
                }),
                (Err(error), Some(message)) => error@ == internal_fault(message),
                _ => false,
            },
    {
        if tenant_partitions == 0 || ingest_stripes == 0 {
            return Err(LokiApiError::internal("tenant and ingest stripe counts must be nonzero"));
        }
        if ingest_stripes > tenant_partitions {
            return Err(
                LokiApiError::internal("ingest stripe count cannot exceed tenant partitions"),
            );
        }
        if indexed_ack_timeout_nanos == 0 {
            return Err(LokiApiError::internal("indexed_ack_timeout must be nonzero"));
        }
        match retention_nanos {
            Some(retention) => {
                if retention == 0 {
                    return Err(LokiApiError::internal("retention must be nonzero when configured"));
                }
            },
            None => {},
        }
        Ok(TenantRouting { tenant_partitions, ingest_stripes })
    }

    /// First partition of a tenant.
    pub fn tenant_partition_base(&self, tenant: &str) -> (base: u32)
        requires
            self.well_formed(),
        ensures
            base == self.base(tenant@),
            base + self.ingest_stripes <= self.tenant_partitions,
    {
        let hash: u64 = fnv_extend(FNV_OFFSET, tenant.as_bytes());
        let groups: u32 = self.tenant_partitions / self.ingest_stripes;
        proof {
            lemma_groups(self.tenant_partitions as int, self.ingest_stripes as int, hash as int);
        }
        let group: u32 = (hash % groups as u64) as u32;
        group * self.ingest_stripes
    }

    /// The partition that a request of a tenant is written to.
    pub fn write_partition(&self, tenant: &str, request_id: u64) -> (partition: TopicPartition)
        requires
            self.well_formed(),
        ensures
            partition == self.written(tenant@, request_id),
    {
        let base: u32 = self.tenant_partition_base(tenant);
        let stripe: u32 = (request_id % self.ingest_stripes as u64) as u32;
        partition_at((base + stripe) % self.tenant_partitions)
    }

    /// The partitions of a tenant.
    pub fn tenant_partitions(&self, tenant: &str) -> (partitions: Vec<TopicPartition>)
        requires
            self.well_formed(),
        ensures
            partitions@ == self.partitions(tenant@),
    {
        let base: u32 = self.tenant_partition_base(tenant);
        let mut partitions: Vec<TopicPartition> = Vec::new();
        let mut stripe: u32 = 0;
        while stripe < self.ingest_stripes
            invariant
                self.well_formed(),
                stripe <= self.ingest_stripes,
                base == self.base(tenant@),
                base + self.ingest_stripes <= self.tenant_partitions,
                partitions@.len() == stripe,
                forall|i: int| 0 <= i < stripe ==> partitions@[i] == self.partitions(tenant@)[i],
            decreases self.ingest_stripes - stripe,
        {
            partitions.push(partition_at((base + stripe) % self.tenant_partitions));
            stripe = stripe + 1;
        }
        proof {
            assert(partitions@ =~= self.partitions(tenant@));
        }
        partitions
    }
}

proof fn lemma_groups(partitions: int, stripes: int, hash: int)
    by (nonlinear_arith)
    requires
        0 < stripes <= partitions,
        0 <= hash,
    ensures
        0 < partitions / stripes <= partitions,
        0 <= hash % (partitions / stripes) < partitions / stripes,
        0 <= (hash % (partitions / stripes)) * stripes,
        (hash % (partitions / stripes)) * stripes + stripes <= partitions,
{
}

/// What a tenant writes is read: every partition that a request is written to is one of
/// the tenant's partitions.
pub proof fn written_partition_is_read(
    routing: TenantRouting,
    tenant: Seq<char>,
    request_id: u64,
)
    requires
        routing.well_formed(),
    ensures
        routing.partitions(tenant).contains(routing.written(tenant, request_id)),
{
    let stripe = request_id as int % (routing.ingest_stripes as int);
    assert(routing.partitions(tenant)[stripe] == routing.written(tenant, request_id));
}

/// The partitions of a tenant are pairwise different.
pub proof fn tenant_partitions_are_distinct(routing: TenantRouting, tenant: Seq<char>)
    requires
        routing.well_formed(),
    ensures
        routing.partitions(tenant).no_duplicates(),
        routing.partitions(tenant).len() == routing.ingest_stripes,
{
    let total = routing.tenant_partitions as int;
    let base = routing.base(tenant);
    lemma_groups(
        total,
        routing.ingest_stripes as int,
        fnv_bytes(FNV_OFFSET, encode_utf8(tenant)) as int,
    );
    let list = routing.partitions(tenant);
    assert forall|i: int, j: int|
        0 <= i < list.len() && 0 <= j < list.len() && i != j implies list[i] != list[j] by {
        assert(0 <= base + i < total && 0 <= base + j < total);
        assert((base + i) % total == base + i) by (nonlinear_arith)
            requires
                0 <= base + i < total,
        ;
        assert((base + j) % total == base + j) by (nonlinear_arith)
            requires
                0 <= base + j < total,
        ;
        assert(list[i].partition_id.0 == base + i);
        assert(list[j].partition_id.0 == base + j);
    }
}

/// First timestamp that is retained at a time.
pub open spec fn cutoff_at(retention: Option<u128>, now: u128) -> Option<u64> {
    match retention {
        None => None,
        Some(window) => {
            let cutoff = if now >= window {
                now - window
            } else {
                0
            };
            Some(
                if cutoff > u64::MAX {
                    u64::MAX
                } else {
                    cutoff as u64
                },
            )
        },
    }
}

/// First timestamp that is retained at a time.
pub fn retention_cutoff(retention: Option<u128>, now: u128) -> (cutoff: Option<u64>)
    ensures
        cutoff == cutoff_at(retention, now),
{
    match retention {
        None => None,
        Some(window) => {
            let cutoff: u128 = if now >= window {
                now - window
            } else {
                0
            };
            if cutoff > u64::MAX as u128 {
                Some(u64::MAX)
            } else {
                Some(cutoff as u64)
            }
        },
    }
}

/// The later of a requested start and the cutoff.
pub open spec fn retained_start(requested: Option<u64>, cutoff: Option<u64>) -> Option<u64> {
    match (requested, cutoff) {
        (Some(requested), Some(cutoff)) => Some(
            if requested < cutoff {
                cutoff
            } else {
                requested
            },
        ),
        (None, Some(cutoff)) => Some(cutoff),
        (requested, None) => requested,
    }
}

/// The later of a requested start and the cutoff.
pub fn retained_query_start(requested: Option<u64>, cutoff: Option<u64>) -> (start: Option<u64>)
    ensures
        start == retained_start(requested, cutoff),
{
    match (requested, cutoff) {
        (Some(requested), Some(cutoff)) => if requested < cutoff {
            Some(cutoff)
        } else {
            Some(requested)
        },
        (None, Some(cutoff)) => Some(cutoff),
        (requested, None) => requested,
    }
}

/// What follows a prefix of a text.
pub open spec fn after_text(text: Seq<char>, prefix: Seq<char>) -> Option<Seq<char>> {
    if part_at(text, 0, prefix) {
        Some(text.subrange(prefix.len() as int, text.len() as int))
    } else {
        None
    }
}

fn strip_prefix(text: &str, prefix: &str) -> (rest: Option<String>)
    ensures
        match (rest, after_text(text@, prefix@)) {
            (Some(found), Some(model)) => found@ == model,
            (None, None) => true,
            _ => false,
        },
{
    let characters = chars_of(text);
    let wanted = chars_of(prefix);
    if holds_part(&characters, 0, &wanted) {
        Some(text_between(&characters, wanted.len(), characters.len()))
    } else {
        None
    }
}

/// Stream labels among indexed fields.
pub open spec fn stored_labels(fields: Pairs) -> Pairs
    decreases fields.len(),
{
    if fields.len() == 0 {
        Seq::empty()
    } else {
        let front = stored_labels(fields.drop_last());
        match after_text(fields.last().0, LABEL_PREFIX@) {
            Some(name) => insert_pair(front, name, fields.last().1),
            None => front,
        }
    }
}

/// Structured metadata among indexed fields.
pub open spec fn stored_metadata(fields: Pairs) -> Pairs
    decreases fields.len(),
{
    if fields.len() == 0 {
        Seq::empty()
    } else {
        let front = stored_metadata(fields.drop_last());
        match after_text(fields.last().0, LABEL_PREFIX@) {
            Some(_) => front,
            None => match after_text(fields.last().0, METADATA_PREFIX@) {
                Some(name) => insert_pair(front, name, fields.last().1),
                None => front,
            },
        }
    }
}

/// The entry of a record; a timestamp may be out of range.
pub open spec fn stored_entry(record: RecordModel) -> Result<EntryModel, ApiFault> {
    if record.timestamp > i64::MAX {
        Err(internal_fault("timestamp exceeds Loki i64 range"@))
    } else {
        Ok(
            EntryModel {
                timestamp: record.timestamp as i64,
                labels: stored_labels(record.fields),
                line: record.message,
                metadata: stored_metadata(record.fields),
            },
        )
    }
}

fn split_fields(record: &DurableLogRecord) -> (maps: (LabelMap, LabelMap))
    ensures
        maps.0@ == stored_labels(record@.fields),
        maps.1@ == stored_metadata(record@.fields),
{
    let ghost fields = record@.fields;
    let mut labels = LabelMap::new();
    let mut metadata = LabelMap::new();
    let mut index: usize = 0;
    proof {
        assert(fields.subrange(0, 0) =~= Pairs::empty());
    }
    while index < record.fields.len()
        invariant
            index <= record.fields@.len(),
            fields == record@.fields,
            labels@ == stored_labels(fields.subrange(0, index as int)),
            metadata@ == stored_metadata(fields.subrange(0, index as int)),
        decreases record.fields@.len() - index,
    {
        let field = &record.fields[index];
        proof {
            let part = fields.subrange(0, index + 1);
            assert(part.drop_last() =~= fields.subrange(0, index as int));
            assert(part.last() == (field.key@, field.value@));
        }
        match strip_prefix(&field.key, LABEL_PREFIX) {
            Some(name) => {
                let _ = labels.insert(name, field.value.clone());
            },
            None => match strip_prefix(&field.key, METADATA_PREFIX) {
                Some(name) => {
                    let _ = metadata.insert(name, field.value.clone());
                },
                None => {},
            },
        }
        index = index + 1;
    }
    proof {
        assert(fields.subrange(0, index as int) =~= fields);
    }
    (labels, metadata)
}

/// Turns a record into an entry.
pub fn log_match_to_entry(record: &DurableLogRecord) -> (result: Result<LokiEntry, LokiApiError>)
    ensures
        same_outcome(result, stored_entry(record@)),
{
    if record.timestamp_unix_nanos > i64::MAX as u64 {
        return Err(LokiApiError::internal("timestamp exceeds Loki i64 range"));
    }
    let (labels, structured_metadata) = split_fields(record);
    Ok(
        LokiEntry {
            timestamp_unix_nanos: record.timestamp_unix_nanos as i64,
            labels,
            line: record.message.clone(),
            structured_metadata,
        },
    )
}

/// The row and the entry of a record of a tenant.
pub open spec fn stored_row(tenant: Seq<char>, record: RecordModel) -> Result<
    (RowModel, EntryModel),
    ApiFault,
> {
    if record.timestamp > i64::MAX {
        Err(internal_fault("timestamp exceeds ClickHouse i64 range"@))
    } else {
        let entry = EntryModel {
            timestamp: record.timestamp as i64,
            labels: stored_labels(record.fields),
            line: record.message,
            metadata: stored_metadata(record.fields),
        };
        Ok(
            (
                RowModel {
                    tenant,
                    timestamp: entry.timestamp,
                    partition: record.reference.topic_partition.partition_id.0,
                    offset: record.reference.offset.0,
                    message: record.message,
                    labels: entry.labels,
                    metadata: entry.metadata,
                },
                entry,
            ),
        )
    }
}

/// Turns a record of a tenant into a row and an entry.
pub fn analytics_row_and_entry(tenant: &str, record: &DurableLogRecord) -> (result: Result<
    (AnalyticsLogRow, LokiEntry),
    LokiApiError,
>)
    ensures
        match (result, stored_row(tenant@, record@)) {
            (Ok((row, entry)), Ok((row_model, entry_model))) => row@ == row_model && entry@
                == entry_model,
            (Err(error), Err(fault)) => error@ == fault,
            _ => false,
        },
{
    if record.timestamp_unix_nanos > i64::MAX as u64 {
        return Err(LokiApiError::internal("timestamp exceeds ClickHouse i64 range"));
    }
    let timestamp: i64 = record.timestamp_unix_nanos as i64;
    let (labels, metadata) = split_fields(record);
    let entry = LokiEntry {
        timestamp_unix_nanos: timestamp,
        labels: labels.clone(),
        line: record.message.clone(),
        structured_metadata: metadata.clone(),
    };
    let row = AnalyticsLogRow {
        tenant: tenant.to_owned(),
        timestamp_unix_nanos: timestamp,
        partition: record.record_ref.topic_partition.partition_id.0,
        offset: record.record_ref.offset.0,
        message: record.message.clone(),
        labels,
        metadata,
    };
    Ok((row, entry))
}

proof fn lemma_prefixes(name: Seq<char>)
    ensures
        after_text(TENANT_FIELD@, LABEL_PREFIX@) is None,
        after_text(TENANT_FIELD@, METADATA_PREFIX@) is None,
        after_text(LABEL_PREFIX@ + name, LABEL_PREFIX@) == Some(name),
        after_text(METADATA_PREFIX@ + name, LABEL_PREFIX@) is None,
        after_text(METADATA_PREFIX@ + name, METADATA_PREFIX@) == Some(name),
{
    reveal_strlit("resource.loki.label.");
    reveal_strlit("attr.loki.metadata.");
    reveal_strlit("resource.loki.tenant");
    let label = LABEL_PREFIX@ + name;
    let meta = METADATA_PREFIX@ + name;
    assert(LABEL_PREFIX@[14] == 'l' && TENANT_FIELD@[14] == 't');
    assert(METADATA_PREFIX@[0] == 'a' && LABEL_PREFIX@[0] == 'r');
    assert(TENANT_FIELD@[0] == 'r');
    assert(meta[0] == 'a');
    if part_at(TENANT_FIELD@, 0, LABEL_PREFIX@) {
        let head = TENANT_FIELD@.subrange(0, LABEL_PREFIX@.len() as int);
        assert(head[14] == TENANT_FIELD@[14]);
    }
    if part_at(TENANT_FIELD@, 0, METADATA_PREFIX@) {
        let head = TENANT_FIELD@.subrange(0, METADATA_PREFIX@.len() as int);
        assert(head[0] == TENANT_FIELD@[0]);
    }
    if part_at(meta, 0, LABEL_PREFIX@) {
        let head = meta.subrange(0, LABEL_PREFIX@.len() as int);
        assert(head[0] == meta[0]);
    }
    assert(label.subrange(0, LABEL_PREFIX@.len() as int) =~= LABEL_PREFIX@);
    assert(label.subrange(LABEL_PREFIX@.len() as int, label.len() as int) =~= name);
    assert(meta.subrange(0, METADATA_PREFIX@.len() as int) =~= METADATA_PREFIX@);
    assert(meta.subrange(METADATA_PREFIX@.len() as int, meta.len() as int) =~= name);
}

proof fn lemma_labels_kept(tenant: Seq<char>, labels: Pairs)
    ensures
        stored_labels(event_fields(tenant, labels, Seq::empty())) == collect_pairs(labels),
        stored_metadata(event_fields(tenant, labels, Seq::empty())) == Pairs::empty(),
    decreases labels.len(),
{
    let fields = event_fields(tenant, labels, Seq::empty());
    if labels.len() == 0 {
        let one = seq![(TENANT_FIELD@, tenant)];
        assert(fields =~= one);
        assert(one.drop_last() =~= Pairs::empty());
        lemma_prefixes(Seq::empty());
        assert(stored_labels(one.drop_last()) == Pairs::empty());
        assert(stored_metadata(one.drop_last()) == Pairs::empty());
    } else {
        let front = labels.drop_last();
        lemma_labels_kept(tenant, front);
        lemma_prefixes(labels.last().0);
        assert(fields.drop_last() =~= event_fields(tenant, front, Seq::empty()));
        assert(fields.last() == (LABEL_PREFIX@ + labels.last().0, labels.last().1));
    }
}

proof fn lemma_fields_kept(tenant: Seq<char>, labels: Pairs, metadata: Pairs)
    ensures
        stored_labels(event_fields(tenant, labels, metadata)) == collect_pairs(labels),
        stored_metadata(event_fields(tenant, labels, metadata)) == collect_pairs(metadata),
    decreases metadata.len(),
{
    if metadata.len() == 0 {
        lemma_labels_kept(tenant, labels);
        assert(metadata =~= Pairs::empty());
    } else {
        let fields = event_fields(tenant, labels, metadata);
        let front = metadata.drop_last();
        lemma_fields_kept(tenant, labels, front);
        lemma_prefixes(metadata.last().0);
        assert(fields.drop_last() =~= event_fields(tenant, labels, front));
        assert(fields.last() == (METADATA_PREFIX@ + metadata.last().0, metadata.last().1));
    }
}

/// A read gives back what was written: the record that a native batch makes of an entry
/// turns into that entry again.
pub proof fn stored_entry_reads_back(
    tenant: Seq<char>,
    labels: Pairs,
    entry: WireEntry,
    shard: ShardId,
    partition: TopicPartition,
    offset: LogicalOffset,
)
    requires
        entry.timestamp <= i64::MAX,
    ensures
        stored_entry(durable(event_of(tenant, labels, entry), shard, partition, offset)) == Ok::<
            _,
            ApiFault,
        >(entry_of(labels, entry)),
{
    lemma_fields_kept(tenant, labels, entry.metadata);
}

/// Result of one physical retention pass.
#[derive(Debug, Clone, Copy, PartialEq, Eq, Structural)]
pub struct RetentionReport {
    /// Timestamp cutoff applied to every partition.
    pub cutoff_timestamp_unix_nanos: u64,
    /// Partitions whose durable log start advanced.
    pub advanced_partitions: u64,
    /// Logical records made eligible for reclamation.
    pub advanced_offsets: u64,
}

impl Default for RetentionReport {
    fn default() -> (report: Self)
        ensures
            report == (RetentionReport {
                cutoff_timestamp_unix_nanos: 0,
                advanced_partitions: 0,
                advanced_offsets: 0,
            }),
    {
        RetentionReport {
            cutoff_timestamp_unix_nanos: 0,
            advanced_partitions: 0,
            advanced_offsets: 0,
        }
    }
}

/// A report with one more advanced partition; counts stay at the largest number.
pub open spec fn with_advance(report: RetentionReport, offsets: u64) -> RetentionReport {
    RetentionReport {
        advanced_partitions: if report.advanced_partitions < u64::MAX {
            (report.advanced_partitions + 1) as u64
        } else {
            u64::MAX
        },
        advanced_offsets: if report.advanced_offsets + offsets > u64::MAX {
            u64::MAX
        } else {
            (report.advanced_offsets + offsets) as u64
        },
        ..report
    }
}

/// Counters of retention passes.
#[derive(Debug, Clone, Copy, PartialEq, Eq, Structural)]
pub struct RetentionCounters {
    /// Passes.
    pub runs: u64,
    /// Offsets made eligible for reclamation.
    pub advanced_offsets: u64,
    /// Failed passes.
    pub failures: u64,
}

impl RetentionCounters {
    /// No passes.
    pub fn new() -> (counters: Self)
        ensures
            counters == (RetentionCounters { runs: 0, advanced_offsets: 0, failures: 0 }),
    {
        RetentionCounters { runs: 0, advanced_offsets: 0, failures: 0 }
    }

    /// Counts a pass; counters wrap around.
    pub fn record(&mut self, result: &Result<RetentionReport, LokiApiError>)
        ensures
            final(self).runs == old(self).runs.wrapping_add(1),
            match *result {
                Ok(report) => {
                    &&& final(self).advanced_offsets == old(self).advanced_offsets.wrapping_add(
                        report.advanced_offsets,
                    )
                    &&& final(self).failures == old(self).failures
                },
                Err(_) => {
                    &&& final(self).failures == old(self).failures.wrapping_add(1)
                    &&& final(self).advanced_offsets == old(self).advanced_offsets
                },
            },
    {
        self.runs = self.runs.wrapping_add(1);
        match result {
            Ok(report) => {
                self.advanced_offsets = self.advanced_offsets.wrapping_add(report.advanced_offsets);
            },
            Err(_) => {
                self.failures = self.failures.wrapping_add(1);
            },
        }
    }
}

/// Scan of one partition for records that are no longer retained.
#[derive(Debug, Clone, Copy, PartialEq, Eq, Structural)]
pub struct RetentionScan {
    /// Timestamp cutoff.
    pub cutoff: u64,
    /// Log start before the scan.
    pub original_start: u64,
    /// First offset behind the last batch that is not retained.
    pub retained_start: u64,
    /// First offset that is not stable.
    pub stable_end: u64,
    /// Whether the scan is over.
    pub over: bool,
}

/// Value of a scanned batch: its last offset and the timestamps of its records.
#[verifier::ext_equal]
pub struct BatchModel {
    /// Last offset.
    pub last_offset: u64,
    /// Timestamps.
    pub timestamps: Seq<u64>,
}

/// Batch of the log: its last offset and the timestamps of its records.
#[derive(Debug, PartialEq, Eq)]
pub struct ScannedBatch {
    /// Last offset.
    pub last_offset: u64,
    /// Timestamps.
    pub timestamps: Vec<u64>,
}

impl View for ScannedBatch {
    type V = BatchModel;

    open spec fn view(&self) -> BatchModel {
        BatchModel { last_offset: self.last_offset, timestamps: self.timestamps@ }
    }
}

/// Values of batches.
pub open spec fn batches_view(batches: Seq<ScannedBatch>) -> Seq<BatchModel> {
    batches.map_values(|batch: ScannedBatch| batch@)
}

/// Whether a batch holds a record that is retained.
pub open spec fn holds_retained(batch: BatchModel, cutoff: u64) -> bool {
    exists|i: int| 0 <= i < batch.timestamps.len() && #[trigger] batch.timestamps[i] >= cutoff
}

/// A scan after batches, or the fault of an exhausted offset. An empty read ends it, and so
/// does the first batch with a retained record.
pub open spec fn scanned(scan: RetentionScan, batches: Seq<BatchModel>) -> Result<
    RetentionScan,
    ApiFault,
>
    decreases batches.len(),
{
    if batches.len() == 0 {
        Ok(scan)
    } else {
        match scanned(scan, batches.drop_last()) {
            Err(fault) => Err(fault),
            Ok(front) => if front.over {
                Ok(front)
            } else if holds_retained(batches.last(), scan.cutoff) {
                Ok(RetentionScan { over: true, ..front })
            } else if batches.last().last_offset == u64::MAX {
                Err(internal_fault("retention offset exhausted"@))
            } else {
                Ok(
                    RetentionScan {
                        retained_start: (batches.last().last_offset + 1) as u64,
                        ..front
                    },
                )
            },
        }
    }
}

proof fn lemma_scan_fixed(scan: RetentionScan, batches: Seq<BatchModel>, n: int)
    requires
        0 <= n <= batches.len(),
        match scanned(scan, batches.subrange(0, n)) {
            Err(_) => true,
            Ok(front) => front.over,
        },
    ensures
        scanned(scan, batches) == scanned(scan, batches.subrange(0, n)),
    decreases batches.len(),
{
    if n < batches.len() {
        assert(batches.drop_last().subrange(0, n) =~= batches.subrange(0, n));
        lemma_scan_fixed(scan, batches.drop_last(), n);
    } else {
        assert(batches.subrange(0, n) =~= batches);
    }
}

fn has_retained(batch: &ScannedBatch, cutoff: u64) -> (retained: bool)
    ensures
        retained == holds_retained(batch@, cutoff),
{
    let mut index: usize = 0;
    while index < batch.timestamps.len()
        invariant
            index <= batch.timestamps@.len(),
            forall|i: int| 0 <= i < index ==> #[trigger] batch@.timestamps[i] < cutoff,
        decreases batch.timestamps@.len() - index,
    {
        if batch.timestamps[index] >= cutoff {
            proof {
                assert(batch@.timestamps[index as int] >= cutoff);
            }
            return true;
        }
        index = index + 1;
    }
    false
}

impl RetentionScan {
    /// Begins the scan of a partition.
    pub fn new(cutoff: u64, log_start: u64, stable_end: u64) -> (scan: Self)
        ensures
            scan == (RetentionScan {
                cutoff,
                original_start: log_start,
                retained_start: log_start,
                stable_end,
                over: false,
            }),
    {
        RetentionScan {
            cutoff,
            original_start: log_start,
            retained_start: log_start,
            stable_end,
            over: false,
        }
    }

    /// The offset to read from, while the scan goes on.
    pub fn next_read(&self) -> (offset: Option<u64>)
        ensures
            offset == if !self.over && self.retained_start < self.stable_end {
                Some(self.retained_start)
            } else {
                None
            },
    {
        if !self.over && self.retained_start < self.stable_end {
            Some(self.retained_start)
        } else {
            None
        }
    }

    /// Takes the batches of a read; a read without batches ends the scan. A read that fails
    /// leaves the scan as it was.
    pub fn accept(&mut self, batches: &Vec<ScannedBatch>) -> (result: Result<(), LokiApiError>)
        requires
            !old(self).over,
        ensures
            match (result, scanned(*old(self), batches_view(batches@))) {
                (Ok(_), Ok(after)) => *final(self) == (if batches@.len() == 0 {
                    RetentionScan { over: true, ..after }
                } else {
                    after
                }),
                (Err(error), Err(fault)) => error@ == fault && *final(self) == *old(self),
                _ => false,
            },
    {
        let ghost models = batches_view(batches@);
        let ghost start = *self;
        if batches.len() == 0 {
            self.over = true;
            return Ok(());
        }
        let mut retained: u64 = self.retained_start;
        let mut index: usize = 0;
        proof {
            assert(models.subrange(0, 0) =~= Seq::<BatchModel>::empty());
        }
        while index < batches.len()
            invariant
                index <= batches@.len(),
                models == batches_view(batches@),
                start == *old(self),
                *self == start,
                !start.over,
                scanned(start, models.subrange(0, index as int)) == Ok::<_, ApiFault>(
                    RetentionScan { retained_start: retained, ..start },
                ),
            decreases batches@.len() - index,
        {
            proof {
                let part = models.subrange(0, index + 1);
                assert(part.drop_last() =~= models.subrange(0, index as int));
                assert(part.last() == batches@[index as int]@);
            }
            if has_retained(&batches[index], self.cutoff) {
                self.retained_start = retained;
                self.over = true;
                proof {
                    lemma_scan_fixed(start, models, index + 1);
                }
                return Ok(());
            }
            if batches[index].last_offset == u64::MAX {
                proof {
                    lemma_scan_fixed(start, models, index + 1);
                }
                return Err(LokiApiError::internal("retention offset exhausted"));
            }
            retained = batches[index].last_offset + 1;
            index = index + 1;
        }
        proof {
            assert(models.subrange(0, index as int) =~= models);
        }
        self.retained_start = retained;
        Ok(())
    }

    /// The new log start, where it advances, and the report with this partition.
    pub fn finish(&self, report: RetentionReport) -> (advance: (Option<u64>, RetentionReport))
        ensures
            self.retained_start > self.original_start ==> advance == (
                Some(self.retained_start),
                with_advance(report, (self.retained_start - self.original_start) as u64),
            ),
            self.retained_start <= self.original_start ==> advance == (None::<u64>, report),
    {
        if self.retained_start > self.original_start {
            let offsets: u64 = self.retained_start - self.original_start;
            let next = RetentionReport {
                cutoff_timestamp_unix_nanos: report.cutoff_timestamp_unix_nanos,
                advanced_partitions: if report.advanced_partitions < u64::MAX {
                    report.advanced_partitions + 1
                } else {
                    u64::MAX
                },
                advanced_offsets: report.advanced_offsets.saturating_add(offsets),
            };
            (Some(self.retained_start), next)
        } else {
            (None, report)
        }
    }
}

/// Retention reclaims whole batches of records that are all older than the cutoff: each
/// batch that a scan passes has no retained record.
pub proof fn retention_keeps_retained(scan: RetentionScan, batches: Seq<BatchModel>, i: int)
    requires
        !scan.over,
        0 <= i < batches.len(),
        scanned(scan, batches) is Ok,
        forall|a: int, b: int|
            0 <= a < b < batches.len() ==> (#[trigger] batches[a]).last_offset < (
            #[trigger] batches[b]).last_offset,
        scan.retained_start <= batches[i].last_offset,
        batches[i].last_offset < scanned(scan, batches)->Ok_0.retained_start,
    ensures
        !holds_retained(batches[i], scan.cutoff),
    decreases batches.len(),
{
    let front = batches.drop_last();
    let last = batches.len() - 1;
    if i < last {
        assert(front[i] == batches[i]);
        assert forall|a: int, b: int| 0 <= a < b < front.len() implies (
        #[trigger] front[a]).last_offset < (#[trigger] front[b]).last_offset by {
            assert(front[a] == batches[a] && front[b] == batches[b]);
        }
        lemma_scan_reaches(scan, front);
        let before = scanned(scan, front)->Ok_0;
        if before.over || holds_retained(batches.last(), scan.cutoff) {
            retention_keeps_retained(scan, front, i);
        } else {
            lemma_not_over(scan, front, i);
        }
    } else {
        lemma_scan_reaches(scan, front);
        let before = scanned(scan, front)->Ok_0;
        assert(batches.last() == batches[i]);
        if before.retained_start > scan.retained_start {
            lemma_scan_source(scan, front);
        }
    }
}

proof fn lemma_scan_reaches(scan: RetentionScan, batches: Seq<BatchModel>)
    ensures
        scanned(scan, batches) matches Ok(after) ==> after.cutoff == scan.cutoff
            && after.original_start == scan.original_start && after.stable_end == scan.stable_end,
    decreases batches.len(),
{
    if batches.len() > 0 {
        lemma_scan_reaches(scan, batches.drop_last());
    }
}

proof fn lemma_not_over(scan: RetentionScan, batches: Seq<BatchModel>, i: int)
    requires
        !scan.over,
        0 <= i < batches.len(),
        scanned(scan, batches) is Ok,
        !scanned(scan, batches)->Ok_0.over,
    ensures
        !holds_retained(batches[i], scan.cutoff),
    decreases batches.len(),
{
    let front = batches.drop_last();
    if i < batches.len() - 1 {
        assert(front[i] == batches[i]);
        lemma_not_over(scan, front, i);
    } else {
        assert(batches.last() == batches[i]);
    }
}

proof fn lemma_scan_source(scan: RetentionScan, batches: Seq<BatchModel>)
    requires
        scanned(scan, batches) is Ok,
        scanned(scan, batches)->Ok_0.retained_start != scan.retained_start,
    ensures
        exists|k: int|
            0 <= k < batches.len() && scanned(scan, batches)->Ok_0.retained_start == (
            #[trigger] batches[k]).last_offset + 1,
    decreases batches.len(),
{
    let front = batches.drop_last();
    let before = scanned(scan, front)->Ok_0;
    let after = scanned(scan, batches)->Ok_0;
    if after.retained_start == before.retained_start {
        lemma_scan_source(scan, front);
        let k = choose|k: int|
            0 <= k < front.len() && scanned(scan, front)->Ok_0.retained_start == (
            #[trigger] front[k]).last_offset + 1;
        assert(batches[k] == front[k]);
    } else {
        assert(batches[batches.len() - 1] == batches.last());
    }
}

/// What is wrong with a prepared native batch, if anything.
pub open spec fn batch_fault(
    tenant: Seq<char>,
    record_count: u32,
    expected_tenant: Option<Seq<char>>,
) -> Option<ApiFault> {
    if expected_tenant is Some && expected_tenant->0 != tenant {
        Some(
            ApiFault {
                status: ApiStatus::Forbidden,
                message: "native batch tenant does not match the authenticated tenant"@,
            },
        )
    } else if record_count == 0 {
        Some(bad("native append batch must contain at least one record"@))
    } else {
        None
    }
}

/// Tests a prepared native batch; its tenant must be the expected one, if there is one.
pub fn check_native_batch(tenant: &str, record_count: u32, expected_tenant: Option<&str>) -> (result:
    Result<(), LokiApiError>)
    ensures
        match (
            result,
            batch_fault(
                tenant@,
                record_count,
                match expected_tenant {
                    Some(expected) => Some(expected@),
                    None => None,
                },
            ),
        ) {
            (Ok(_), None) => true,
            (Err(error), Some(fault)) => error@ == fault,
            _ => false,
        },
{
    match expected_tenant {
        Some(expected) => {
            if !same_text(expected, tenant) {
                return Err(
                    LokiApiError::new(
                        ApiStatus::Forbidden,
                        "native batch tenant does not match the authenticated tenant",
                    ),
                );
            }
        },
        None => {},
    }
    if record_count == 0 {
        return Err(
            LokiApiError::bad_request("native append batch must contain at least one record"),
        );
    }
    Ok(())
}

/// Place in the log of a durable append.
#[derive(Debug, Clone, Copy, PartialEq, Eq, Structural)]
pub struct AppendPlace {
    /// Sequence of the placement.
    pub placement_sequence: u64,
    /// First offset.
    pub first_offset: u64,
    /// Last offset.
    pub last_offset: u64,
}

/// State of the index of a partition: what it has applied.
#[derive(Debug, Clone, Copy, PartialEq, Eq, Structural)]
pub struct SinkCheckpoint {
    /// Partition.
    pub topic_partition: TopicPartition,
    /// Sequence of the next placement.
    pub next_placement_sequence: u64,
    /// Next offset.
    pub next_offset: u64,
}

/// The checkpoint at which an append is indexed.
pub open spec fn checkpoint_of(partition: TopicPartition, appended: AppendPlace) -> Result<
    SinkCheckpoint,
    ApiFault,
> {
    if appended.placement_sequence == u64::MAX {
        Err(internal_fault("placement sequence exhausted"@))
    } else if appended.last_offset == u64::MAX {
        Err(internal_fault("logical offset exhausted"@))
    } else {
        Ok(
            SinkCheckpoint {
                topic_partition: partition,
                next_placement_sequence: (appended.placement_sequence + 1) as u64,
                next_offset: (appended.last_offset + 1) as u64,
            },
        )
    }
}

/// The checkpoint at which an append is indexed.
pub fn append_checkpoint(partition: TopicPartition, appended: AppendPlace) -> (result: Result<
    SinkCheckpoint,
    LokiApiError,
>)
    ensures
        plain_outcome(result, checkpoint_of(partition, appended)),
{
    if appended.placement_sequence == u64::MAX {
        return Err(LokiApiError::internal("placement sequence exhausted"));
    }
    if appended.last_offset == u64::MAX {
        return Err(LokiApiError::internal("logical offset exhausted"));
    }
    Ok(
        SinkCheckpoint {
            topic_partition: partition,
            next_placement_sequence: appended.placement_sequence + 1,
            next_offset: appended.last_offset + 1,
        },
    )
}

/// The acknowledgement of an append.
pub fn append_acknowledgement(partition: TopicPartition, appended: AppendPlace) -> (ack:
    NativeAppendAck)
    ensures
        ack.partition_id == partition.partition_id.0,
        ack.first_offset == appended.first_offset,
        ack.last_offset == appended.last_offset,
{
    NativeAppendAck {
        partition_id: partition.partition_id.0,
        first_offset: appended.first_offset,
        last_offset: appended.last_offset,
    }
}

/// The message of an append whose index did not follow in time.
pub open spec fn unindexed_message(
    partition: TopicPartition,
    appended: AppendPlace,
    reason: Seq<char>,
    checkpoint: u64,
    stats: StoreMetrics,
) -> Seq<char> {
    "failed waiting for indexed partition "@ + decimal_text(partition.partition_id.0 as nat)
        + " through offset "@ + decimal_text(appended.last_offset as nat) + ": "@ + reason
        + "; checkpoint is "@ + decimal_text(checkpoint as nat) + ", pending items "@
        + decimal_text(stats.pending_items as nat) + ", pending bytes "@ + decimal_text(
        stats.pending_bytes as nat,
    ) + ", applied "@ + decimal_text(stats.applied_appends as nat) + ", retries "@ + decimal_text(
        stats.retry_attempts as nat,
    ) + ", failures "@ + decimal_text(stats.failed_attempts as nat) + ", dirty partitions "@
        + decimal_text(stats.dirty_partitions as nat)
}

/// The failure of an append whose index did not follow in time, given the checkpoint that
/// was reached, if there is one.
pub fn unindexed_append(
    partition: TopicPartition,
    appended: AppendPlace,
    reason: &str,
    checkpoint: Option<u64>,
    stats: &StoreMetrics,
) -> (error: LokiApiError)
    ensures
        error@ == internal_fault(
            match checkpoint {
                Some(next_offset) => unindexed_message(
                    partition,
                    appended,
                    reason@,
                    next_offset,
                    *stats,
                ),
                None => "durable sink has no checkpoint"@,
            },
        ),
{
    let next_offset: u64 = match checkpoint {
        Some(next_offset) => next_offset,
        None => return LokiApiError::internal("durable sink has no checkpoint"),
    };
    let message = "failed waiting for indexed partition ".to_owned().concat(
        &decimal_string(partition.partition_id.0 as u128),
    ).concat(" through offset ").concat(&decimal_string(appended.last_offset as u128)).concat(
        ": ",
    ).concat(reason).concat("; checkpoint is ").concat(&decimal_string(next_offset as u128)).concat(
        ", pending items ",
    ).concat(&decimal_string(stats.pending_items as u128)).concat(", pending bytes ").concat(
        &decimal_string(stats.pending_bytes as u128),
    ).concat(", applied ").concat(&decimal_string(stats.applied_appends as u128)).concat(
        ", retries ",
    ).concat(&decimal_string(stats.retry_attempts as u128)).concat(", failures ").concat(
        &decimal_string(stats.failed_attempts as u128),
    ).concat(", dirty partitions ").concat(&decimal_string(stats.dirty_partitions as u128));
    LokiApiError::internal(&message)
}

/// Health by the counters of the sink.
pub open spec fn health_of(stats: StoreMetrics, timeout_nanos: u128) -> (bool, Seq<char>) {
    let longest = timeout_nanos / 1_000_000;
    if stats.dirty_partitions > 0 {
        (
            false,
            decimal_text(stats.dirty_partitions as nat)
                + " durable sink partitions require recovery"@,
        )
    } else if stats.pending_items > 0 && stats.checkpoint_age_ms > longest {
        (
            false,
            "oldest pending index checkpoint is "@ + decimal_text(stats.checkpoint_age_ms as nat)
                + " ms old"@,
        )
    } else {
        (true, "ready"@)
    }
}

/// Health by the counters of the sink.
pub fn sink_health(stats: &StoreMetrics, indexed_ack_timeout_nanos: u128) -> (health: StoreHealth)
    ensures
        (health.ready, health.detail@) == health_of(*stats, indexed_ack_timeout_nanos),
{
    if stats.dirty_partitions > 0 {
        return StoreHealth {
            ready: false,
            detail: decimal_string(stats.dirty_partitions as u128).concat(
                " durable sink partitions require recovery",
            ),
        };
    }
    let longest: u128 = indexed_ack_timeout_nanos / 1_000_000;
    if stats.pending_items > 0 && stats.checkpoint_age_ms as u128 > longest {
        return StoreHealth {
            ready: false,
            detail: "oldest pending index checkpoint is ".to_owned().concat(
                &decimal_string(stats.checkpoint_age_ms as u128),
            ).concat(" ms old"),
        };
    }
    StoreHealth::default()
}

/// What a flush does next.
#[derive(Debug)]
pub enum FlushStep {
    /// All work is indexed.
    Done,
    /// Work is pending; wait and look again.
    Wait,
    /// The flush failed.
    Failed(LokiApiError),
}

/// Decides what a flush does next, by the counters of the sink and whether its deadline
/// is over.
pub fn flush_step(stats: &StoreMetrics, expired: bool) -> (step: FlushStep)
    ensures
        match step {
            FlushStep::Done => stats.dirty_partitions == 0 && stats.pending_items == 0
                && stats.pending_bytes == 0,
            FlushStep::Wait => stats.dirty_partitions == 0 && (stats.pending_items != 0
                || stats.pending_bytes != 0) && !expired,
            FlushStep::Failed(error) => if stats.dirty_partitions > 0 {
                error@ == internal_fault(
                    "flush stopped with "@ + decimal_text(stats.dirty_partitions as nat)
                        + " dirty partitions"@,
                )
            } else {
                &&& stats.pending_items != 0 || stats.pending_bytes != 0
                &&& expired
                &&& error@ == (ApiFault {
                    status: ApiStatus::Unavailable,
                    message: "flush timed out with "@ + decimal_text(stats.pending_items as nat)
                        + " pending items and "@ + decimal_text(stats.pending_bytes as nat)
                        + " pending bytes"@,
                })
            },
        },
{
    if stats.dirty_partitions > 0 {
        let message = "flush stopped with ".to_owned().concat(
            &decimal_string(stats.dirty_partitions as u128),
        ).concat(" dirty partitions");
        return FlushStep::Failed(LokiApiError::internal(&message));
    }
    if stats.pending_items == 0 && stats.pending_bytes == 0 {
        return FlushStep::Done;
    }
    if expired {
        let message = "flush timed out with ".to_owned().concat(
            &decimal_string(stats.pending_items as u128),
        ).concat(" pending items and ").concat(&decimal_string(stats.pending_bytes as u128)).concat(
            " pending bytes",
        );
        return FlushStep::Failed(LokiApiError::new(ApiStatus::Unavailable, &message));
    }
    FlushStep::Wait
}

} // verus!
