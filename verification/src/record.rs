//! Identifiers, log entries and indexing events.
use vstd::prelude::*;

use crate::labels::{clone_fields, fields_view, LabelMap, MetadataField, Pairs};

verus! {

/// Physical stream shard.
#[derive(Debug, Clone, Copy, PartialEq, Eq, PartialOrd, Ord, Hash, Structural)]
pub struct ShardId(pub u32);

/// Stream topic.
#[derive(Debug, Clone, Copy, PartialEq, Eq, PartialOrd, Ord, Hash, Structural)]
pub struct TopicId(pub u128);

/// Logical partition of a topic.
#[derive(Debug, Clone, Copy, PartialEq, Eq, PartialOrd, Ord, Hash, Structural)]
pub struct LogicalPartitionId(pub u32);

/// Position of a record in its partition.
#[derive(Debug, Clone, Copy, PartialEq, Eq, PartialOrd, Ord, Hash, Structural)]
pub struct LogicalOffset(pub u64);

/// Source group whose records are compressed together.
#[derive(Debug, Clone, Copy, PartialEq, Eq, PartialOrd, Ord, Hash, Structural)]
pub struct CompressionCohortId(pub u64);

/// One partition of one topic.
#[derive(Debug, Clone, Copy, PartialEq, Eq, PartialOrd, Ord, Hash, Structural)]
pub struct TopicPartition {
    /// Topic.
    pub topic_id: TopicId,
    /// Partition in the topic.
    pub partition_id: LogicalPartitionId,
}

/// Durable coordinates of a record.
#[derive(Debug, Clone, Copy, PartialEq, Eq, PartialOrd, Ord, Hash, Structural)]
pub struct RecordRef {
    /// Partition that holds the record.
    pub topic_partition: TopicPartition,
    /// Offset in the partition.
    pub offset: LogicalOffset,
}

/// Value of a log entry.
#[verifier::ext_equal]
pub struct EntryModel {
    /// Nanosecond Unix timestamp.
    pub timestamp: i64,
    /// Stream labels in ascending key order.
    pub labels: Pairs,
    /// Log line.
    pub line: Seq<char>,
    /// Structured metadata in ascending key order.
    pub metadata: Pairs,
}

/// One normalized Loki entry accepted by the compatibility boundary.
#[derive(Debug, PartialEq, Eq)]
pub struct LokiEntry {
    /// Nanosecond Unix timestamp.
    pub timestamp_unix_nanos: i64,
    /// Stream labels used by LogQL selectors.
    pub labels: LabelMap,
    /// Original log line.
    pub line: String,
    /// Structured metadata attached to the entry.
    pub structured_metadata: LabelMap,
}

impl View for LokiEntry {
    type V = EntryModel;

    open spec fn view(&self) -> EntryModel {
        EntryModel {
            timestamp: self.timestamp_unix_nanos,
            labels: self.labels@,
            line: self.line@,
            metadata: self.structured_metadata@,
        }
    }
}

impl Clone for LokiEntry {
    fn clone(&self) -> (copy: Self)
        ensures
            copy@ == self@,
    {
        LokiEntry {
            timestamp_unix_nanos: self.timestamp_unix_nanos,
            labels: self.labels.clone(),
            line: self.line.clone(),
            structured_metadata: self.structured_metadata.clone(),
        }
    }
}

/// Values of a list of entries.
pub open spec fn entries_view(entries: Seq<LokiEntry>) -> Seq<EntryModel> {
    entries.map_values(|entry: LokiEntry| entry@)
}

/// Value of an indexing event.
#[verifier::ext_equal]
pub struct EventModel {
    /// Nanosecond Unix timestamp.
    pub timestamp: u64,
    /// Log message.
    pub message: Seq<char>,
    /// Indexed fields in order.
    pub fields: Pairs,
    /// Compression cohort.
    pub cohort: u64,
}

/// Normalized log event ready for durable indexing.
#[derive(Debug, PartialEq, Eq)]
pub struct OtlpLogEvent {
    /// Nanosecond Unix timestamp.
    pub timestamp_unix_nanos: u64,
    /// Log message.
    pub message: String,
    /// Indexed fields.
    pub fields: Vec<MetadataField>,
    /// Source compression cohort.
    pub compression_cohort: CompressionCohortId,
}

impl View for OtlpLogEvent {
    type V = EventModel;

    open spec fn view(&self) -> EventModel {
        EventModel {
            timestamp: self.timestamp_unix_nanos,
            message: self.message@,
            fields: fields_view(self.fields@),
            cohort: self.compression_cohort.0,
        }
    }
}

impl Clone for OtlpLogEvent {
    fn clone(&self) -> (copy: Self)
        ensures
            copy@ == self@,
    {
        OtlpLogEvent {
            timestamp_unix_nanos: self.timestamp_unix_nanos,
            message: self.message.clone(),
            fields: clone_fields(&self.fields),
            compression_cohort: self.compression_cohort,
        }
    }
}

/// Values of a list of events.
pub open spec fn events_view(events: Seq<OtlpLogEvent>) -> Seq<EventModel> {
    events.map_values(|event: OtlpLogEvent| event@)
}

} // verus!
