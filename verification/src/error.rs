//! Errors of the native protocol and of the log index.
use vstd::prelude::*;

use crate::codec::{decimal_string, decimal_text};
use crate::record::{LogicalOffset, ShardId, TopicPartition};

verus! {

/// Named part of a native payload.
#[derive(Debug, Clone, Copy, PartialEq, Eq, Structural)]
pub enum NativeField {
    /// Number of labels of a stream.
    LabelCount,
    /// Reserved bytes of a stream header.
    StreamReserved,
    /// Number of entries of a stream.
    EntryCount,
    /// Label key.
    LabelKey,
    /// Label value.
    LabelValue,
    /// Entry timestamp.
    Timestamp,
    /// Length of a log line.
    LineLength,
    /// Number of metadata pairs of an entry.
    MetadataCount,
    /// Reserved bytes of an entry header.
    EntryReserved,
    /// Log line.
    LogLine,
    /// Metadata key.
    MetadataKey,
    /// Metadata value.
    MetadataValue,
    /// Batch tenant.
    Tenant,
    /// Number of streams.
    StreamCount,
    /// Query tenant.
    QueryTenant,
    /// Number of query labels.
    QueryLabelCount,
    /// Number of query terms.
    QueryTermCount,
    /// Query label key.
    QueryLabelKey,
    /// Query label value.
    QueryLabelValue,
    /// Query term.
    QueryTerm,
}

impl NativeField {
    /// Words naming the field.
    pub open spec fn text(self) -> Seq<char> {
        match self {
            NativeField::LabelCount => "label count"@,
            NativeField::StreamReserved => "stream reserved bytes"@,
            NativeField::EntryCount => "entry count"@,
            NativeField::LabelKey => "label key"@,
            NativeField::LabelValue => "label value"@,
            NativeField::Timestamp => "timestamp"@,
            NativeField::LineLength => "line length"@,
            NativeField::MetadataCount => "metadata count"@,
            NativeField::EntryReserved => "entry reserved bytes"@,
            NativeField::LogLine => "log line"@,
            NativeField::MetadataKey => "metadata key"@,
            NativeField::MetadataValue => "metadata value"@,
            NativeField::Tenant => "tenant"@,
            NativeField::StreamCount => "stream count"@,
            NativeField::QueryTenant => "query tenant"@,
            NativeField::QueryLabelCount => "query label count"@,
            NativeField::QueryTermCount => "query term count"@,
            NativeField::QueryLabelKey => "query label key"@,
            NativeField::QueryLabelValue => "query label value"@,
            NativeField::QueryTerm => "query term"@,
        }
    }

    /// Words naming the field.
    pub fn name(self) -> (name: &'static str)
        ensures
            name@ == self.text(),
    {
        match self {
            NativeField::LabelCount => "label count",
            NativeField::StreamReserved => "stream reserved bytes",
            NativeField::EntryCount => "entry count",
            NativeField::LabelKey => "label key",
            NativeField::LabelValue => "label value",
            NativeField::Timestamp => "timestamp",
            NativeField::LineLength => "line length",
            NativeField::MetadataCount => "metadata count",
            NativeField::EntryReserved => "entry reserved bytes",
            NativeField::LogLine => "log line",
            NativeField::MetadataKey => "metadata key",
            NativeField::MetadataValue => "metadata value",
            NativeField::Tenant => "tenant",
            NativeField::StreamCount => "stream count",
            NativeField::QueryTenant => "query tenant",
            NativeField::QueryLabelCount => "query label count",
            NativeField::QueryTermCount => "query term count",
            NativeField::QueryLabelKey => "query label key",
            NativeField::QueryLabelValue => "query label value",
            NativeField::QueryTerm => "query term",
        }
    }
}

/// Protocol validation error suitable for a native bad-request response.
#[derive(Debug, Clone, Copy, PartialEq, Eq, Structural)]
pub enum NativeProtocolError {
    /// Opcode byte without a meaning.
    UnsupportedOpcode(u8),
    /// Status byte without a meaning.
    UnsupportedStatus(u8),
    /// Frame payload of this many bytes is over the frame limit.
    FrameTooLarge(u64),
    /// Frame does not start with its magic.
    InvalidFrameMagic,
    /// Frame version without a meaning.
    UnsupportedVersion(u8),
    /// Frame flags that are not defined.
    UnknownFlags,
    /// Payload length differs from the header's.
    PayloadLengthMismatch,
    /// Payload checksum differs from the header's.
    ChecksumMismatch,
    /// Append acknowledgement has the wrong length or magic.
    InvalidAcknowledgement,
    /// Batch is shorter than its header.
    ShortBatch,
    /// Batch does not start with its magic.
    InvalidBatchMagic,
    /// Reserved batch bytes are not zero.
    BatchReserved,
    /// Batch tenant is over its limit.
    BatchTenantTooLong,
    /// Batch ends inside its tenant.
    BatchTenantTruncated,
    /// Batch tenant is not UTF-8.
    BatchTenantNotUtf8,
    /// Batch tenant is empty.
    BatchTenantEmpty,
    /// More records are declared than the payload can hold.
    CountExceedsPayload,
    /// A stream has too many labels.
    TooManyLabels,
    /// Reserved stream bytes are not zero.
    StreamReservedNotZero,
    /// Streams hold more entries than the batch declares.
    CountExceedsDeclared,
    /// A stream has an empty or repeated label key.
    BadLabel,
    /// Timestamp is outside the signed range.
    TimestampOutOfRange,
    /// An entry has too many metadata pairs.
    TooMuchMetadata,
    /// Reserved entry bytes are not zero.
    EntryReservedNotZero,
    /// The only metadata key of an entry is empty.
    EmptyMetadata,
    /// An entry has an empty or repeated metadata key.
    BadMetadata,
    /// Decoded and declared record counts differ.
    RecordCountMismatch(u64, u32),
    /// Bytes follow the end of the payload.
    TrailingBytes,
    /// Payload ends inside this field.
    Truncated(NativeField),
    /// Field is not UTF-8.
    NotUtf8(NativeField),
    /// Field is over the 16-bit range.
    ExceedsU16(NativeField),
    /// Field is over the 32-bit range.
    ExceedsU32(NativeField),
    /// Batch has more records than its counter can hold.
    TooManyRecords,
    /// Timestamp is negative.
    NegativeTimestamp,
    /// Batch has too many streams.
    TooManyStreams,
    /// Encoded batch of this many bytes is over the frame limit.
    BatchTooLarge(u64),
    /// Tenant is empty.
    TenantEmpty,
    /// Tenant is over its length limit.
    TenantTooLong,
    /// Query has the wrong length or magic.
    InvalidQueryHeader,
    /// Query direction byte without a meaning.
    UnsupportedDirection(u8),
    /// Reserved query byte is not zero.
    QueryReserved,
    /// Query has an empty or repeated label key.
    BadQueryLabel,
    /// Query has an empty term.
    EmptyQueryTerm,
    /// Query has too many labels.
    TooManyQueryLabels,
    /// Query has too many terms.
    TooManyQueryTerms,
    /// Query limit is out of range.
    QueryLimit,
    /// Query time range is empty.
    EmptyTimeRange,
    /// Query label key is empty.
    EmptyQueryLabelKey,
}

impl NativeProtocolError {
    /// Message for the peer.
    pub open spec fn text(self) -> Seq<char> {
        match self {
            NativeProtocolError::UnsupportedOpcode(value) => "unsupported native opcode "@
                + decimal_text(value as nat),
            NativeProtocolError::UnsupportedStatus(value) => "unsupported native status "@
                + decimal_text(value as nat),
            NativeProtocolError::FrameTooLarge(len) => "native frame payload is "@ + decimal_text(
                len as nat,
            ) + " bytes, exceeding 16777216"@,
            NativeProtocolError::InvalidFrameMagic => "invalid native frame magic"@,
            NativeProtocolError::UnsupportedVersion(value) => "unsupported native frame version "@
                + decimal_text(value as nat),
            NativeProtocolError::UnknownFlags => "native frame contains unknown flags"@,
            NativeProtocolError::PayloadLengthMismatch =>
                "native frame payload length disagrees with its header"@,
            NativeProtocolError::ChecksumMismatch => "native frame payload checksum mismatch"@,
            NativeProtocolError::InvalidAcknowledgement => "invalid native append acknowledgement"@,
            NativeProtocolError::ShortBatch => "native log batch is shorter than its header"@,
            NativeProtocolError::InvalidBatchMagic => "invalid native log batch magic"@,
            NativeProtocolError::BatchReserved => "native log batch reserved bytes must be zero"@,
            NativeProtocolError::BatchTenantTooLong => "native log batch tenant exceeds its limit"@,
            NativeProtocolError::BatchTenantTruncated => "native log batch tenant is truncated"@,
            NativeProtocolError::BatchTenantNotUtf8 => "native log batch tenant is not UTF-8"@,
            NativeProtocolError::BatchTenantEmpty => "native log batch tenant must not be empty"@,
            NativeProtocolError::CountExceedsPayload =>
                "native batch record count exceeds its bounded payload"@,
            NativeProtocolError::TooManyLabels => "native stream contains too many labels"@,
            NativeProtocolError::StreamReservedNotZero =>
                "native stream reserved bytes must be zero"@,
            NativeProtocolError::CountExceedsDeclared =>
                "native stream counts exceed declared record count"@,
            NativeProtocolError::BadLabel => "native stream contains an empty or duplicate label"@,
            NativeProtocolError::TimestampOutOfRange =>
                "native log timestamp exceeds the signed i64 range"@,
            NativeProtocolError::TooMuchMetadata =>
                "native entry contains too much structured metadata"@,
            NativeProtocolError::EntryReservedNotZero => "native entry reserved bytes must be zero"@,
            NativeProtocolError::EmptyMetadata => "native entry contains empty metadata"@,
            NativeProtocolError::BadMetadata => "native entry contains empty or duplicate metadata"@,
            NativeProtocolError::RecordCountMismatch(decoded, expected) => "native batch decoded "@
                + decimal_text(decoded as nat) + " records, expected "@ + decimal_text(
                expected as nat,
            ),
            NativeProtocolError::TrailingBytes => "native payload contains trailing bytes"@,
            NativeProtocolError::Truncated(field) => "native "@ + field.text() + " is truncated"@,
            NativeProtocolError::NotUtf8(field) => "native "@ + field.text() + " is not UTF-8"@,
            NativeProtocolError::ExceedsU16(field) => field.text() + " exceeds u16"@,
            NativeProtocolError::ExceedsU32(field) => field.text() + " exceeds u32"@,
            NativeProtocolError::TooManyRecords => "native batch contains more than u32 records"@,
            NativeProtocolError::NegativeTimestamp =>
                "negative native log timestamps are unsupported"@,
            NativeProtocolError::TooManyStreams => "native batch contains too many streams"@,
            NativeProtocolError::BatchTooLarge(len) => "native batch is "@ + decimal_text(
                len as nat,
            ) + " bytes, exceeding 16777216"@,
            NativeProtocolError::TenantEmpty => "native tenant must not be empty"@,
            NativeProtocolError::TenantTooLong => "native tenant exceeds its length limit"@,
            NativeProtocolError::InvalidQueryHeader => "invalid native query header"@,
            NativeProtocolError::UnsupportedDirection(value) =>
                "unsupported native query direction "@ + decimal_text(value as nat),
            NativeProtocolError::QueryReserved => "native query reserved byte must be zero"@,
            NativeProtocolError::BadQueryLabel =>
                "native query contains an empty or duplicate label"@,
            NativeProtocolError::EmptyQueryTerm => "native query terms must not be empty"@,
            NativeProtocolError::TooManyQueryLabels => "native query contains too many labels"@,
            NativeProtocolError::TooManyQueryTerms => "native query contains too many terms"@,
            NativeProtocolError::QueryLimit => "native query limit must be in 1..=1000000"@,
            NativeProtocolError::EmptyTimeRange =>
                "native query timestamp range must be nonempty"@,
            NativeProtocolError::EmptyQueryLabelKey => "native query label keys must not be empty"@,
        }
    }

    /// Message for the peer.
    pub fn message(self) -> (message: String)
        ensures
            message@ == self.text(),
    {
        match self {
            NativeProtocolError::UnsupportedOpcode(value) => "unsupported native opcode ".to_owned().concat(
                &decimal_string(value as u128)),
            NativeProtocolError::UnsupportedStatus(value) => "unsupported native status ".to_owned().concat(
                &decimal_string(value as u128)),
            NativeProtocolError::FrameTooLarge(len) => "native frame payload is ".to_owned().concat(
                &decimal_string(len as u128),
            ).concat(" bytes, exceeding 16777216"),
            NativeProtocolError::InvalidFrameMagic => "invalid native frame magic".to_owned(),
            NativeProtocolError::UnsupportedVersion(value) => "unsupported native frame version ".to_owned().concat(
                &decimal_string(value as u128)),
            NativeProtocolError::UnknownFlags => "native frame contains unknown flags".to_owned(),
            NativeProtocolError::PayloadLengthMismatch =>
                "native frame payload length disagrees with its header".to_owned(),
            NativeProtocolError::ChecksumMismatch => "native frame payload checksum mismatch".to_owned(),
            NativeProtocolError::InvalidAcknowledgement => "invalid native append acknowledgement".to_owned(),
            NativeProtocolError::ShortBatch => "native log batch is shorter than its header".to_owned(),
            NativeProtocolError::InvalidBatchMagic => "invalid native log batch magic".to_owned(),
            NativeProtocolError::BatchReserved => "native log batch reserved bytes must be zero".to_owned(),
            NativeProtocolError::BatchTenantTooLong => "native log batch tenant exceeds its limit".to_owned(),
            NativeProtocolError::BatchTenantTruncated => "native log batch tenant is truncated".to_owned(),
            NativeProtocolError::BatchTenantNotUtf8 => "native log batch tenant is not UTF-8".to_owned(),
            NativeProtocolError::BatchTenantEmpty => "native log batch tenant must not be empty".to_owned(),
            NativeProtocolError::CountExceedsPayload =>
                "native batch record count exceeds its bounded payload".to_owned(),
            NativeProtocolError::TooManyLabels => "native stream contains too many labels".to_owned(),
            NativeProtocolError::StreamReservedNotZero =>
                "native stream reserved bytes must be zero".to_owned(),
            NativeProtocolError::CountExceedsDeclared =>
                "native stream counts exceed declared record count".to_owned(),
            NativeProtocolError::BadLabel => "native stream contains an empty or duplicate label".to_owned(),
            NativeProtocolError::TimestampOutOfRange =>
                "native log timestamp exceeds the signed i64 range".to_owned(),
            NativeProtocolError::TooMuchMetadata =>
                "native entry contains too much structured metadata".to_owned(),
            NativeProtocolError::EntryReservedNotZero => "native entry reserved bytes must be zero".to_owned(),
            NativeProtocolError::EmptyMetadata => "native entry contains empty metadata".to_owned(),
            NativeProtocolError::BadMetadata => "native entry contains empty or duplicate metadata".to_owned(),
            NativeProtocolError::RecordCountMismatch(decoded, expected) => "native batch decoded ".to_owned().concat(
                &decimal_string(decoded as u128),
            ).concat(" records, expected ").concat(&decimal_string(expected as u128)),
            NativeProtocolError::TrailingBytes => "native payload contains trailing bytes".to_owned(),
            NativeProtocolError::Truncated(field) => "native ".to_owned().concat(field.name()).concat(
                " is truncated",
            ),
            NativeProtocolError::NotUtf8(field) => "native ".to_owned().concat(field.name()).concat(
                " is not UTF-8",
            ),
            NativeProtocolError::ExceedsU16(field) => field.name().to_owned().concat(" exceeds u16"),
            NativeProtocolError::ExceedsU32(field) => field.name().to_owned().concat(" exceeds u32"),
            NativeProtocolError::TooManyRecords => "native batch contains more than u32 records".to_owned(),
            NativeProtocolError::NegativeTimestamp =>
                "negative native log timestamps are unsupported".to_owned(),
            NativeProtocolError::TooManyStreams => "native batch contains too many streams".to_owned(),
            NativeProtocolError::BatchTooLarge(len) => "native batch is ".to_owned().concat(
                &decimal_string(len as u128),
            ).concat(" bytes, exceeding 16777216"),
            NativeProtocolError::TenantEmpty => "native tenant must not be empty".to_owned(),
            NativeProtocolError::TenantTooLong => "native tenant exceeds its length limit".to_owned(),
            NativeProtocolError::InvalidQueryHeader => "invalid native query header".to_owned(),
            NativeProtocolError::UnsupportedDirection(value) =>
                "unsupported native query direction ".to_owned().concat(&decimal_string(value as u128)),
            NativeProtocolError::QueryReserved => "native query reserved byte must be zero".to_owned(),
            NativeProtocolError::BadQueryLabel =>
                "native query contains an empty or duplicate label".to_owned(),
            NativeProtocolError::EmptyQueryTerm => "native query terms must not be empty".to_owned(),
            NativeProtocolError::TooManyQueryLabels => "native query contains too many labels".to_owned(),
            NativeProtocolError::TooManyQueryTerms => "native query contains too many terms".to_owned(),
            NativeProtocolError::QueryLimit => "native query limit must be in 1..=1000000".to_owned(),
            NativeProtocolError::EmptyTimeRange =>
                "native query timestamp range must be nonempty".to_owned(),
            NativeProtocolError::EmptyQueryLabelKey => "native query label keys must not be empty".to_owned(),
        }
    }
}

/// What is wrong with a stored block or pack.
#[derive(Debug, Clone, Copy, PartialEq, Eq, Structural)]
pub enum BlockFault {
    /// Record number past the end of a batch.
    RecordIndex,
    /// Record without a stream cohort.
    MissingCohort,
    /// Header of a compressed ingest pack.
    PackHeader,
    /// Bytes end inside the pack header.
    PackHeaderTruncated,
    /// Pack declares another number of records.
    PackRecordCount,
    /// Bytes end inside a group header.
    GroupHeaderTruncated,
    /// Bytes end inside a group payload.
    GroupPayloadTruncated,
    /// Group totals disagree with the pack.
    PackTotals,
    /// Group header or checksum is wrong.
    InvalidGroup,
    /// Decompressed block has another length.
    StructuralLength,
    /// Group holds another number of records.
    GroupRecordCount,
    /// Ordinal past the declared records.
    OrdinalRange,
    /// Ordinals repeat or are missing.
    OrdinalsNotContiguous,
    /// Transient group differs from the durable one.
    TransientDisagrees,
    /// Frame index covers another number of records.
    FrameIndexCount,
    /// Header of a transient pack.
    TransientHeader,
    /// Transient pack has another number of groups.
    TransientGroupCount,
    /// Bytes end inside a transient group header.
    TransientHeaderTruncated,
    /// Bytes end inside a transient index.
    TransientIndexTruncated,
    /// Transient groups do not fill the pack.
    TransientTotals,
    /// Record ordinal past its frame.
    RecordOrdinal,
}

impl BlockFault {
    /// Message for operators.
    pub open spec fn text(self) -> Seq<char> {
        match self {
            BlockFault::RecordIndex =>
                "validated native record index is out of range"@,
            BlockFault::MissingCohort =>
                "validated native record has no stream cohort"@,
            BlockFault::PackHeader =>
                "invalid compressed ingest pack header"@,
            BlockFault::PackHeaderTruncated =>
                "compressed ingest pack header is truncated"@,
            BlockFault::PackRecordCount =>
                "compressed ingest record count mismatch"@,
            BlockFault::GroupHeaderTruncated =>
                "compressed ingest group header is truncated"@,
            BlockFault::GroupPayloadTruncated =>
                "compressed ingest group payload is truncated"@,
            BlockFault::PackTotals =>
                "compressed ingest pack totals are invalid"@,
            BlockFault::InvalidGroup =>
                "invalid compressed ingest group"@,
            BlockFault::StructuralLength =>
                "compressed ingest structural length mismatch"@,
            BlockFault::GroupRecordCount =>
                "compressed ingest group record count mismatch"@,
            BlockFault::OrdinalRange =>
                "compressed ingest ordinal is out of range"@,
            BlockFault::OrdinalsNotContiguous =>
                "compressed ingest ordinals are not contiguous"@,
            BlockFault::TransientDisagrees =>
                "transient ingest group disagrees with durable group"@,
            BlockFault::FrameIndexCount =>
                "compressed ingest frame index record count mismatch"@,
            BlockFault::TransientHeader =>
                "invalid transient ingest pack header"@,
            BlockFault::TransientGroupCount =>
                "transient ingest group count mismatch"@,
            BlockFault::TransientHeaderTruncated =>
                "transient ingest group header is truncated"@,
            BlockFault::TransientIndexTruncated =>
                "transient ingest index payload is truncated"@,
            BlockFault::TransientTotals =>
                "transient ingest pack totals are invalid"@,
            BlockFault::RecordOrdinal =>
                "compressed ingest record ordinal is out of range"@,
        }
    }

    /// Message for operators.
    pub fn message(self) -> (message: &'static str)
        ensures
            message@ == self.text(),
    {
        match self {
            BlockFault::RecordIndex => "validated native record index is out of range",
            BlockFault::MissingCohort => "validated native record has no stream cohort",
            BlockFault::PackHeader => "invalid compressed ingest pack header",
            BlockFault::PackHeaderTruncated => "compressed ingest pack header is truncated",
            BlockFault::PackRecordCount => "compressed ingest record count mismatch",
            BlockFault::GroupHeaderTruncated => "compressed ingest group header is truncated",
            BlockFault::GroupPayloadTruncated => "compressed ingest group payload is truncated",
            BlockFault::PackTotals => "compressed ingest pack totals are invalid",
            BlockFault::InvalidGroup => "invalid compressed ingest group",
            BlockFault::StructuralLength => "compressed ingest structural length mismatch",
            BlockFault::GroupRecordCount => "compressed ingest group record count mismatch",
            BlockFault::OrdinalRange => "compressed ingest ordinal is out of range",
            BlockFault::OrdinalsNotContiguous => "compressed ingest ordinals are not contiguous",
            BlockFault::TransientDisagrees => "transient ingest group disagrees with durable group",
            BlockFault::FrameIndexCount => "compressed ingest frame index record count mismatch",
            BlockFault::TransientHeader => "invalid transient ingest pack header",
            BlockFault::TransientGroupCount => "transient ingest group count mismatch",
            BlockFault::TransientHeaderTruncated => "transient ingest group header is truncated",
            BlockFault::TransientIndexTruncated => "transient ingest index payload is truncated",
            BlockFault::TransientTotals => "transient ingest pack totals are invalid",
            BlockFault::RecordOrdinal => "compressed ingest record ordinal is out of range",
        }
    }
}

/// What is wrong with a configuration or an append.
#[derive(Debug, Clone, Copy, PartialEq, Eq, Structural)]
pub enum ConfigFault {
    /// Sink queue without slots.
    QueueSlots,
    /// Journal limit below its header.
    JournalBytes,
    /// Sink without shards.
    NoShards,
    /// Batch of more records than a count can state.
    TooManyRecords,
    /// Append of another number of records.
    AppendRecordCount,
    /// Block target of zero bytes.
    TargetBlockBytes,
    /// Dictionary cache of zero bytes.
    DictionaryCacheBytes,
    /// Compression level that zstd does not have.
    CompressionLevel,
    /// Compressed append without records.
    EmptyIngestAppend,
    /// Database without stripes.
    NoStripes,
}

impl ConfigFault {
    /// Message for operators.
    pub open spec fn text(self) -> Seq<char> {
        match self {
            ConfigFault::QueueSlots =>
                "log sink queue_slots must be nonzero"@,
            ConfigFault::JournalBytes =>
                "log sink max_journal_bytes must fit its header"@,
            ConfigFault::NoShards =>
                "log sink requires at least one shard"@,
            ConfigFault::TooManyRecords =>
                "log batch contains more than u32 records"@,
            ConfigFault::AppendRecordCount =>
                "durable log append record count disagrees with its decoded batch"@,
            ConfigFault::TargetBlockBytes =>
                "target_block_bytes must be nonzero"@,
            ConfigFault::DictionaryCacheBytes =>
                "dictionary_cache_bytes must be nonzero"@,
            ConfigFault::CompressionLevel =>
                "compression_level is outside zstd's supported range"@,
            ConfigFault::EmptyIngestAppend =>
                "compressed ingest append must contain records"@,
            ConfigFault::NoStripes =>
                "at least one stripe is required"@,
        }
    }

    /// Message for operators.
    pub fn message(self) -> (message: &'static str)
        ensures
            message@ == self.text(),
    {
        match self {
            ConfigFault::QueueSlots => "log sink queue_slots must be nonzero",
            ConfigFault::JournalBytes => "log sink max_journal_bytes must fit its header",
            ConfigFault::NoShards => "log sink requires at least one shard",
            ConfigFault::TooManyRecords => "log batch contains more than u32 records",
            ConfigFault::AppendRecordCount => "durable log append record count disagrees with its decoded batch",
            ConfigFault::TargetBlockBytes => "target_block_bytes must be nonzero",
            ConfigFault::DictionaryCacheBytes => "dictionary_cache_bytes must be nonzero",
            ConfigFault::CompressionLevel => "compression_level is outside zstd's supported range",
            ConfigFault::EmptyIngestAppend => "compressed ingest append must contain records",
            ConfigFault::NoStripes => "at least one stripe is required",
        }
    }
}

/// Failure of the log index.
#[derive(Debug, Clone, PartialEq, Eq)]
pub enum LogDbError {
    /// A record or count is over its limit.
    RecordTooLarge,
    /// Stored block or pack is not in its format.
    InvalidBlockEncoding(BlockFault),
    /// Compression or decompression failed, with the text of the compressor's error.
    CompressionFailed(String),
    /// Native payload was refused.
    InvalidNativePayload(NativeProtocolError),
    /// OTLP payload was refused, with the text of the decoder's error.
    InvalidOtlpPayload(String),
    /// Offsets of a partition are used up.
    OffsetExhausted(TopicPartition),
    /// Configuration value is out of range.
    InvalidConfig(ConfigFault),
    /// Record belongs to another stripe.
    WrongStripe {
        /// Shard of the stripe.
        expected: ShardId,
        /// Shard of the record.
        observed: ShardId,
    },
    /// Offset was indexed before.
    DuplicateRecord {
        /// Partition of the record.
        partition: TopicPartition,
        /// Offset of the record.
        offset: LogicalOffset,
    },
    /// Offset is below the next expected one.
    OffsetOutOfOrder {
        /// Partition of the record.
        partition: TopicPartition,
        /// Lowest acceptable offset.
        expected: LogicalOffset,
        /// Offset of the record.
        observed: LogicalOffset,
    },
    /// Offset was indexed before with other contents.
    ConflictingRecord {
        /// Partition of the record.
        partition: TopicPartition,
        /// Offset of the record.
        offset: LogicalOffset,
    },
    /// Dictionary is not in the cache.
    MissingDictionary(u64),
    /// Dictionary does not fit the cache.
    DictionaryTooLarge {
        /// Bytes of the dictionary.
        dictionary_bytes: usize,
        /// Bytes the cache may hold.
        cache_bytes: usize,
    },
    /// Stripe is not part of the database.
    UnknownStripe(ShardId),
    /// Stripe was given twice.
    DuplicateStripe(ShardId),
    /// Recovered journals contradict each other.
    CorruptSinkJournal,
}

/// Value of a failure to which text may belong.
#[verifier::ext_equal]
pub enum LogDbFault {
    /// Compression or decompression failed, with the text of the compressor's error.
    CompressionFailed(Seq<char>),
    /// OTLP payload was refused, with the text of the decoder's error.
    InvalidOtlpPayload(Seq<char>),
    /// Another failure.
    Other(LogDbError),
}

impl View for LogDbError {
    type V = LogDbFault;

    open spec fn view(&self) -> LogDbFault {
        match self {
            LogDbError::CompressionFailed(text) => LogDbFault::CompressionFailed(text@),
            LogDbError::InvalidOtlpPayload(text) => LogDbFault::InvalidOtlpPayload(text@),
            _ => LogDbFault::Other(*self),
        }
    }
}

/// Shorthand for a block fault.
pub open spec fn block_fault(fault: BlockFault) -> LogDbError {
    LogDbError::InvalidBlockEncoding(fault)
}

} // verus!
