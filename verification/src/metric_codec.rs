//! Lanes of signal-native metric chunks.
use vstd::prelude::*;

use crate::codec::{
    le_bytes, le_value, lemma_le_bytes_len, lemma_le_round_trip, lemma_pow256_values, put_bytes,
    put_le, read_u32,
};
use crate::native_wire::{holds_at, lemma_holds_split};
use crate::varint::{
    parse_varint, read_varint, unzigzag, unzigzag_i64, varint_bytes, varint_round_trip,
    write_varint, zigzag, zigzag_i64, zigzag_round_trip, VarintFault,
};

verus! {

broadcast use vstd::seq_lib::group_seq_properties;

/// Why stored metric bytes or points are not in their format.
#[derive(Debug, Clone, Copy, PartialEq, Eq, Structural)]
pub enum MetricFault {
    /// Chunk without points.
    EmptyChunk,
    /// Points of different series, partitions or owners.
    MixedChunk,
    /// Bytes do not start with a chunk header.
    MissingHeader,
    /// Version or flags without a meaning.
    UnsupportedVersion,
    /// Trailer differs from the digest of the chunk.
    ChecksumMismatch,
    /// Chunk that declares no points.
    NoPoints,
    /// Bytes behind the last section.
    TrailingSections,
    /// Sidecars do not decompress.
    InvalidSidecarCompression,
    /// Sidecars of another series, or not one per point.
    SidecarMismatch,
    /// Value tag without a meaning.
    InvalidValueTag,
    /// Bytes behind the last value.
    TrailingValues,
    /// Number tag without a meaning.
    InvalidNumberTag,
    /// Timestamps that decrease.
    UnsortedTimestamps,
    /// Timestamp lane without its first timestamp.
    InvalidTimestampLane,
    /// Bytes behind the last timestamp.
    TrailingTimestamps,
    /// Timestamp over the 64-bit range.
    TimestampOverflow,
    /// Timestamp step outside the 64-bit range.
    DeltaOverflow,
    /// Offset lane does not decompress.
    InvalidOffsetLane,
    /// Offset lane has another number of offsets.
    OffsetCountMismatch,
    /// Bytes end inside a section length.
    TruncatedSectionLength,
    /// Bytes end inside a section.
    TruncatedSection,
    /// Bytes end inside a value.
    TruncatedValue,
    /// Integer with too many groups.
    VarintOverflow,
    /// Wide integer with too many groups.
    WideVarintOverflow,
    /// Record of another signal.
    WrongSignal,
    /// Series of another identity or partition under one fingerprint.
    FingerprintCollision,
    /// Recovered accumulator of another partition.
    AccumulatorPartition,
    /// Accumulator checkpoint of another signal.
    CheckpointTopic,
    /// Accumulator checkpoint of a series that moved.
    CheckpointPartition,
    /// Two accumulator checkpoints of one series.
    DuplicateCheckpoint,
}

impl MetricFault {
    /// Message for operators.
    pub open spec fn text(self) -> Seq<char> {
        match self {
            MetricFault::EmptyChunk => "metric chunk must contain at least one point"@,
            MetricFault::MixedChunk =>
                "metric chunk points do not share a series, partition, and owner"@,
            MetricFault::MissingHeader => "missing metric chunk header"@,
            MetricFault::UnsupportedVersion => "unsupported metric chunk version or flags"@,
            MetricFault::ChecksumMismatch => "metric chunk checksum mismatch"@,
            MetricFault::NoPoints => "metric chunk has no points"@,
            MetricFault::TrailingSections => "trailing metric chunk sections"@,
            MetricFault::InvalidSidecarCompression => "invalid metric sidecar compression"@,
            MetricFault::SidecarMismatch => "metric sidecar identity or count mismatch"@,
            MetricFault::InvalidValueTag => "invalid metric value tag"@,
            MetricFault::TrailingValues => "trailing metric value bytes"@,
            MetricFault::InvalidNumberTag => "invalid metric number tag"@,
            MetricFault::UnsortedTimestamps => "metric timestamps are not sorted"@,
            MetricFault::InvalidTimestampLane => "invalid metric timestamp lane"@,
            MetricFault::TrailingTimestamps => "trailing metric timestamp bytes"@,
            MetricFault::TimestampOverflow => "metric timestamp overflow"@,
            MetricFault::DeltaOverflow => "metric timestamp delta overflow"@,
            MetricFault::InvalidOffsetLane => "invalid metric Pco lane"@,
            MetricFault::OffsetCountMismatch => "metric Pco lane count mismatch"@,
            MetricFault::TruncatedSectionLength => "truncated metric section length"@,
            MetricFault::TruncatedSection => "truncated metric section"@,
            MetricFault::TruncatedValue => "truncated metric value"@,
            MetricFault::VarintOverflow => "metric varint overflow"@,
            MetricFault::WideVarintOverflow => "metric wide varint overflow"@,
            MetricFault::WrongSignal => "non-metric record applied to metric stripe"@,
            MetricFault::FingerprintCollision => "series fingerprint collision"@,
            MetricFault::AccumulatorPartition =>
                "recovered metric accumulator belongs to another partition"@,
            MetricFault::CheckpointTopic =>
                "metric accumulator checkpoint uses the wrong signal topic"@,
            MetricFault::CheckpointPartition => "metric accumulator checkpoint changed partitions"@,
            MetricFault::DuplicateCheckpoint => "duplicate metric accumulator checkpoint"@,
        }
    }

    /// Message for operators.
    pub fn message(self) -> (message: &'static str)
        ensures
            message@ == self.text(),
    {
        match self {
            MetricFault::EmptyChunk => "metric chunk must contain at least one point",
            MetricFault::MixedChunk =>
                "metric chunk points do not share a series, partition, and owner",
            MetricFault::MissingHeader => "missing metric chunk header",
            MetricFault::UnsupportedVersion => "unsupported metric chunk version or flags",
            MetricFault::ChecksumMismatch => "metric chunk checksum mismatch",
            MetricFault::NoPoints => "metric chunk has no points",
            MetricFault::TrailingSections => "trailing metric chunk sections",
            MetricFault::InvalidSidecarCompression => "invalid metric sidecar compression",
            MetricFault::SidecarMismatch => "metric sidecar identity or count mismatch",
            MetricFault::InvalidValueTag => "invalid metric value tag",
            MetricFault::TrailingValues => "trailing metric value bytes",
            MetricFault::InvalidNumberTag => "invalid metric number tag",
            MetricFault::UnsortedTimestamps => "metric timestamps are not sorted",
            MetricFault::InvalidTimestampLane => "invalid metric timestamp lane",
            MetricFault::TrailingTimestamps => "trailing metric timestamp bytes",
            MetricFault::TimestampOverflow => "metric timestamp overflow",
            MetricFault::DeltaOverflow => "metric timestamp delta overflow",
            MetricFault::InvalidOffsetLane => "invalid metric Pco lane",
            MetricFault::OffsetCountMismatch => "metric Pco lane count mismatch",
            MetricFault::TruncatedSectionLength => "truncated metric section length",
            MetricFault::TruncatedSection => "truncated metric section",
            MetricFault::TruncatedValue => "truncated metric value",
            MetricFault::VarintOverflow => "metric varint overflow",
            MetricFault::WideVarintOverflow => "metric wide varint overflow",
            MetricFault::WrongSignal => "non-metric record applied to metric stripe",
            MetricFault::FingerprintCollision => "series fingerprint collision",
            MetricFault::AccumulatorPartition =>
                "recovered metric accumulator belongs to another partition",
            MetricFault::CheckpointTopic =>
                "metric accumulator checkpoint uses the wrong signal topic",
            MetricFault::CheckpointPartition => "metric accumulator checkpoint changed partitions",
            MetricFault::DuplicateCheckpoint => "duplicate metric accumulator checkpoint",
        }
    }
}

/// Failure of the metric store.
#[derive(Debug, Clone, PartialEq, Eq)]
pub enum TelemetryError {
    /// Bytes or points are not in their format.
    InvalidBlockEncoding(MetricFault),
    /// Compression failed, with the text of the compressor's error.
    CompressionFailed(String),
    /// A record or section is over its limit.
    RecordTooLarge,
    /// Envelope byte names no ingestion protocol.
    UnknownProtocol,
    /// Head budget of zero bytes.
    ZeroHeadBudget,
    /// Head budget is used up.
    HeadBudgetExhausted,
    /// Sample is older than the out-of-order window.
    OutsideWindow,
    /// Same-timestamp sample with another value.
    MetricSampleConflict {
        /// Series fingerprint.
        series: u128,
        /// Sample timestamp.
        timestamp_unix_nanos: u64,
    },
}

/// Shorthand for a format fault.
pub open spec fn fault(fault: MetricFault) -> TelemetryError {
    TelemetryError::InvalidBlockEncoding(fault)
}

/// Exact scalar number used by gauges, sums, and exemplars.
#[derive(Debug, Clone, Copy, PartialEq, Eq, Structural)]
pub enum NumberValue {
    /// Signed integer sample.
    Integer(i64),
    /// Exact IEEE-754 double bits.
    DoubleBits(u64),
}

/// A value and the position behind it.
pub type Lane<T> = Result<(T, int), TelemetryError>;

/// Error of a 64-bit variable-length integer.
pub open spec fn varint_error(cause: VarintFault) -> TelemetryError {
    match cause {
        VarintFault::Truncated => fault(MetricFault::TruncatedValue),
        VarintFault::TooLong => fault(MetricFault::VarintOverflow),
    }
}

/// Error of a 128-bit variable-length integer.
pub open spec fn wide_varint_error(cause: VarintFault) -> TelemetryError {
    match cause {
        VarintFault::Truncated => fault(MetricFault::TruncatedValue),
        VarintFault::TooLong => fault(MetricFault::WideVarintOverflow),
    }
}

fn varint_failure(cause: VarintFault) -> (error: TelemetryError)
    ensures
        error == varint_error(cause),
{
    match cause {
        VarintFault::Truncated => TelemetryError::InvalidBlockEncoding(MetricFault::TruncatedValue),
        VarintFault::TooLong => TelemetryError::InvalidBlockEncoding(MetricFault::VarintOverflow),
    }
}

/// Double bits that the next double is stored against.
pub open spec fn next_float(value: NumberValue, previous: u64) -> u64 {
    match value {
        NumberValue::Integer(_) => previous,
        NumberValue::DoubleBits(bits) => bits,
    }
}

/// Wire form of a number: doubles as the difference to the previous double.
pub open spec fn wire_number(value: NumberValue, previous: u64) -> Seq<u8> {
    match value {
        NumberValue::Integer(integer) => seq![0u8] + varint_bytes(zigzag(integer as int)),
        NumberValue::DoubleBits(bits) => seq![1u8] + varint_bytes((bits ^ previous) as nat),
    }
}

/// The number at `at`.
pub open spec fn parse_lane_number(bytes: Seq<u8>, at: int, previous: u64) -> Lane<NumberValue> {
    if at >= bytes.len() {
        Err(fault(MetricFault::TruncatedValue))
    } else if bytes[at] == 0 {
        match parse_varint(bytes, at + 1) {
            Ok((value, end)) => Ok((NumberValue::Integer(unzigzag(value as nat) as i64), end)),
            Err(cause) => Err(varint_error(cause)),
        }
    } else if bytes[at] == 1 {
        match parse_varint(bytes, at + 1) {
            Ok((value, end)) => Ok((NumberValue::DoubleBits(value ^ previous), end)),
            Err(cause) => Err(varint_error(cause)),
        }
    } else {
        Err(fault(MetricFault::InvalidNumberTag))
    }
}

/// Appends a number.
pub fn encode_number(value: NumberValue, previous_float: &mut u64, encoded: &mut Vec<u8>)
    ensures
        *final(previous_float) == next_float(value, *old(previous_float)),
        final(encoded)@ == old(encoded)@ + wire_number(value, *old(previous_float)),
{
    let ghost before = encoded@;
    match value {
        NumberValue::Integer(integer) => {
            encoded.push(0);
            write_varint(zigzag_i64(integer), encoded);
        },
        NumberValue::DoubleBits(bits) => {
            encoded.push(1);
            write_varint(bits ^ *previous_float, encoded);
            *previous_float = bits;
        },
    }
    proof {
        assert(encoded@ =~= before + wire_number(value, *old(previous_float)));
    }
}

/// Reads one byte and the position behind it.
pub fn read_byte(encoded: &[u8], cursor: usize) -> (result: Result<u8, TelemetryError>)
    ensures
        result == if cursor < encoded@.len() {
            Ok::<u8, TelemetryError>(encoded@[cursor as int])
        } else {
            Err(fault(MetricFault::TruncatedValue))
        },
{
    if cursor < encoded.len() {
        Ok(encoded[cursor])
    } else {
        Err(TelemetryError::InvalidBlockEncoding(MetricFault::TruncatedValue))
    }
}

/// Reads a number and the position behind it.
pub fn decode_number(encoded: &[u8], cursor: usize, previous_float: u64) -> (result: Result<
    (NumberValue, usize),
    TelemetryError,
>)
    requires
        cursor <= encoded@.len(),
    ensures
        match result {
            Ok((value, end)) => parse_lane_number(encoded@, cursor as int, previous_float) == Ok::<
                _,
                TelemetryError,
            >((value, end as int)) && end <= encoded@.len(),
            Err(error) => parse_lane_number(encoded@, cursor as int, previous_float) == Err::<
                (NumberValue, int),
                _,
            >(error),
        },
{
    let total: usize = encoded.len();
    let tag: u8 = match read_byte(encoded, cursor) {
        Ok(tag) => tag,
        Err(error) => return Err(error),
    };
    assert(cursor < total);
    if tag == 0 {
        match read_varint(encoded, cursor + 1) {
            Ok((value, end)) => Ok((NumberValue::Integer(unzigzag_i64(value)), end)),
            Err(cause) => Err(varint_failure(cause)),
        }
    } else if tag == 1 {
        match read_varint(encoded, cursor + 1) {
            Ok((value, end)) => Ok((NumberValue::DoubleBits(value ^ previous_float), end)),
            Err(cause) => Err(varint_failure(cause)),
        }
    } else {
        Err(TelemetryError::InvalidBlockEncoding(MetricFault::InvalidNumberTag))
    }
}

/// A number reads back from its wire form.
pub proof fn number_round_trip(bytes: Seq<u8>, at: int, value: NumberValue, previous: u64)
    requires
        holds_at(bytes, at, wire_number(value, previous)),
    ensures
        parse_lane_number(bytes, at, previous) == Ok::<_, TelemetryError>(
            (value, at + wire_number(value, previous).len()),
        ),
{
    match value {
        NumberValue::Integer(integer) => {
            let rest = varint_bytes(zigzag(integer as int));
            lemma_holds_split(bytes, at, seq![0u8], rest);
            assert(bytes.subrange(at, at + 1)[0] == bytes[at]);
            let raw = zigzag(integer as int) as u64;
            varint_round_trip(bytes, at + 1, raw);
            zigzag_round_trip(integer as int, 0);
        },
        NumberValue::DoubleBits(bits) => {
            let mixed = bits ^ previous;
            lemma_holds_split(bytes, at, seq![1u8], varint_bytes(mixed as nat));
            assert(bytes.subrange(at, at + 1)[0] == bytes[at]);
            varint_round_trip(bytes, at + 1, mixed);
            assert((bits ^ previous) ^ previous == bits) by (bit_vector);
        },
    }
}

/// A section: its 32-bit length and its bytes.
pub open spec fn wire_section(section: Seq<u8>) -> Seq<u8> {
    le_bytes(section.len(), 4) + section
}

/// The section at `at` of a payload that ends at `payload_end`.
pub open spec fn parse_section(bytes: Seq<u8>, at: int, payload_end: int) -> Lane<Seq<u8>> {
    let len = le_value(bytes.subrange(at, at + 4));
    if payload_end - at < 4 {
        Err(fault(MetricFault::TruncatedSectionLength))
    } else if at + 4 + len > payload_end {
        Err(fault(MetricFault::TruncatedSection))
    } else {
        Ok((bytes.subrange(at + 4, at + 4 + len), at + 4 + len))
    }
}

/// Appends a section, where its length fits.
pub fn append_section(encoded: &mut Vec<u8>, section: &[u8]) -> (result: Result<(), TelemetryError>)
    ensures
        match result {
            Ok(_) => section@.len() <= u32::MAX && final(encoded)@ == old(encoded)@ + wire_section(
                section@,
            ),
            Err(error) => section@.len() > u32::MAX && error == TelemetryError::RecordTooLarge
                && final(encoded)@ == old(encoded)@,
        },
{
    if section.len() as u128 > u32::MAX as u128 {
        return Err(TelemetryError::RecordTooLarge);
    }
    let ghost before = encoded@;
    put_le(encoded, section.len() as u128, 4);
    put_bytes(encoded, section);
    proof {
        assert(encoded@ =~= before + wire_section(section@));
    }
    Ok(())
}

/// Finds the section at `cursor`: where its bytes start and end.
pub fn read_section(encoded: &[u8], cursor: usize, payload_end: usize) -> (result: Result<
    (usize, usize),
    TelemetryError,
>)
    requires
        payload_end <= encoded@.len(),
    ensures
        match result {
            Ok((start, end)) => start <= end <= payload_end && parse_section(
                encoded@,
                cursor as int,
                payload_end as int,
            ) == Ok::<_, TelemetryError>(
                (encoded@.subrange(start as int, end as int), end as int),
            ),
            Err(error) => parse_section(encoded@, cursor as int, payload_end as int) == Err::<
                (Seq<u8>, int),
                _,
            >(error),
        },
{
    if cursor > payload_end || payload_end - cursor < 4 {
        return Err(TelemetryError::InvalidBlockEncoding(MetricFault::TruncatedSectionLength));
    }
    let len: usize = read_u32(encoded, cursor) as usize;
    let start: usize = cursor + 4;
    if len > payload_end - start {
        return Err(TelemetryError::InvalidBlockEncoding(MetricFault::TruncatedSection));
    }
    Ok((start, start + len))
}

/// A section reads back from its wire form.
pub proof fn section_round_trip(bytes: Seq<u8>, at: int, section: Seq<u8>, payload_end: int)
    requires
        section.len() <= u32::MAX,
        holds_at(bytes, at, wire_section(section)),
        at + wire_section(section).len() <= payload_end <= bytes.len(),
    ensures
        parse_section(bytes, at, payload_end) == Ok::<_, TelemetryError>(
            (section, at + wire_section(section).len()),
        ),
{
    lemma_pow256_values();
    lemma_le_bytes_len(section.len(), 4);
    lemma_le_round_trip(section.len(), 4);
    lemma_holds_split(bytes, at, le_bytes(section.len(), 4), section);
}

/// Value of one point in a chunk. Histograms and summaries are carried as the
/// bytes of their serialized form.
#[derive(Debug, PartialEq, Eq)]
pub enum ChunkValue {
    /// Gauge sample.
    Gauge(NumberValue),
    /// Sum sample.
    Sum(NumberValue),
    /// Serialized explicit histogram.
    ExplicitHistogram(Vec<u8>),
    /// Serialized exponential histogram.
    ExponentialHistogram(Vec<u8>),
    /// Serialized summary.
    Summary(Vec<u8>),
}

/// Value of a chunk value.
#[verifier::ext_equal]
pub enum ChunkValueModel {
    /// Number under a tag.
    Number(u8, NumberValue),
    /// Serialized value under a tag.
    Bytes(u8, Seq<u8>),
}

impl View for ChunkValue {
    type V = ChunkValueModel;

    open spec fn view(&self) -> ChunkValueModel {
        match self {
            ChunkValue::Gauge(value) => ChunkValueModel::Number(0, *value),
            ChunkValue::Sum(value) => ChunkValueModel::Number(1, *value),
            ChunkValue::ExplicitHistogram(bytes) => ChunkValueModel::Bytes(2, bytes@),
            ChunkValue::ExponentialHistogram(bytes) => ChunkValueModel::Bytes(3, bytes@),
            ChunkValue::Summary(bytes) => ChunkValueModel::Bytes(4, bytes@),
        }
    }
}

/// Values of a list of chunk values.
pub open spec fn values_view(values: Seq<ChunkValue>) -> Seq<ChunkValueModel> {
    values.map_values(|value: ChunkValue| value@)
}

/// Double bits behind a list of values.
pub open spec fn float_after(values: Seq<ChunkValueModel>) -> u64
    decreases values.len(),
{
    if values.len() == 0 {
        0
    } else {
        match values.last() {
            ChunkValueModel::Number(_, value) => next_float(
                value,
                float_after(values.drop_last()),
            ),
            ChunkValueModel::Bytes(_, _) => float_after(values.drop_last()),
        }
    }
}

/// Wire form of a value.
pub open spec fn wire_value(value: ChunkValueModel, previous: u64) -> Seq<u8> {
    match value {
        ChunkValueModel::Number(tag, number) => seq![tag] + wire_number(number, previous),
        ChunkValueModel::Bytes(tag, bytes) => seq![tag] + wire_section(bytes),
    }
}

/// Wire form of values.
pub open spec fn wire_values(values: Seq<ChunkValueModel>) -> Seq<u8>
    decreases values.len(),
{
    if values.len() == 0 {
        Seq::empty()
    } else {
        wire_values(values.drop_last()) + wire_value(
            values.last(),
            float_after(values.drop_last()),
        )
    }
}

/// Whether every serialized value fits a section.
pub open spec fn values_fit(values: Seq<ChunkValueModel>) -> bool {
    forall|i: int|
        0 <= i < values.len() ==> ((#[trigger] values[i]) matches ChunkValueModel::Bytes(_, bytes)
            ==> bytes.len() <= u32::MAX)
}

/// The value at `at`.
pub open spec fn parse_value(bytes: Seq<u8>, at: int, previous: u64) -> Lane<ChunkValueModel> {
    if at >= bytes.len() {
        Err(fault(MetricFault::TruncatedValue))
    } else if bytes[at] <= 1 {
        match parse_lane_number(bytes, at + 1, previous) {
            Ok((number, end)) => Ok((ChunkValueModel::Number(bytes[at], number), end)),
            Err(error) => Err(error),
        }
    } else if bytes[at] <= 4 {
        match parse_section(bytes, at + 1, bytes.len() as int) {
            Ok((section, end)) => Ok((ChunkValueModel::Bytes(bytes[at], section), end)),
            Err(error) => Err(error),
        }
    } else {
        Err(fault(MetricFault::InvalidValueTag))
    }
}

/// The first `count` values.
pub open spec fn parse_values(bytes: Seq<u8>, count: nat) -> Lane<Seq<ChunkValueModel>>
    decreases count,
{
    if count == 0 {
        Ok((Seq::empty(), 0))
    } else {
        match parse_values(bytes, (count - 1) as nat) {
            Err(error) => Err(error),
            Ok((values, next)) => match parse_value(bytes, next, float_after(values)) {
                Err(error) => Err(error),
                Ok((value, end)) => Ok((values.push(value), end)),
            },
        }
    }
}

/// The values of a lane.
pub open spec fn parse_value_lane(bytes: Seq<u8>, count: nat) -> Result<
    Seq<ChunkValueModel>,
    TelemetryError,
> {
    match parse_values(bytes, count) {
        Err(error) => Err(error),
        Ok((values, end)) => if end != bytes.len() {
            Err(fault(MetricFault::TrailingValues))
        } else {
            Ok(values)
        },
    }
}

/// Appends serialized bytes under a tag.
fn append_bytes_value(encoded: &mut Vec<u8>, tag: u8, bytes: &Vec<u8>) -> (result: Result<
    (),
    TelemetryError,
>)
    ensures
        match result {
            Ok(_) => bytes@.len() <= u32::MAX && final(encoded)@ == old(encoded)@ + (seq![tag]
                + wire_section(bytes@)),
            Err(error) => bytes@.len() > u32::MAX && error == TelemetryError::RecordTooLarge,
        },
{
    let ghost before = encoded@;
    encoded.push(tag);
    match append_section(encoded, bytes) {
        Ok(_) => {
            proof {
                assert(encoded@ =~= before + (seq![tag] + wire_section(bytes@)));
            }
            Ok(())
        },
        Err(error) => Err(error),
    }
}

/// Appends one value.
pub(crate) fn append_value(encoded: &mut Vec<u8>, value: &ChunkValue, previous_float: &mut u64) -> (result:
    Result<(), TelemetryError>)
    ensures
        match result {
            Ok(_) => (value@ matches ChunkValueModel::Bytes(_, bytes) ==> bytes.len() <= u32::MAX)
                && final(encoded)@ == old(encoded)@ + wire_value(
                value@,
                *old(previous_float),
            ) && *final(previous_float) == (match value@ {
                ChunkValueModel::Number(_, number) => next_float(
                    number,
                    *old(previous_float),
                ),
                ChunkValueModel::Bytes(_, _) => *old(previous_float),
            }),
            Err(error) => !(value@ matches ChunkValueModel::Bytes(_, bytes) ==> bytes.len()
                <= u32::MAX) && error == TelemetryError::RecordTooLarge,
        },
{
    let ghost before = encoded@;
    match value {
        ChunkValue::Gauge(number) => {
            encoded.push(0);
            encode_number(*number, previous_float, encoded);
            proof {
                assert(encoded@ =~= before + wire_value(
                    value@,
                    *old(previous_float),
                ));
            }
            Ok(())
        },
        ChunkValue::Sum(number) => {
            encoded.push(1);
            encode_number(*number, previous_float, encoded);
            proof {
                assert(encoded@ =~= before + wire_value(
                    value@,
                    *old(previous_float),
                ));
            }
            Ok(())
        },
        ChunkValue::ExplicitHistogram(bytes) => append_bytes_value(
            encoded,
            2,
            bytes,
        ),
        ChunkValue::ExponentialHistogram(bytes) => append_bytes_value(
            encoded,
            3,
            bytes,
        ),
        ChunkValue::Summary(bytes) => append_bytes_value(encoded, 4, bytes),
    }
}

/// Encodes the values of a chunk.
pub fn encode_metric_values(values: &Vec<ChunkValue>) -> (result: Result<Vec<u8>, TelemetryError>)
    ensures
        match result {
            Ok(encoded) => values_fit(values_view(values@)) && encoded@ == wire_values(
                values_view(values@),
            ),
            Err(error) => !values_fit(values_view(values@)) && error
                == TelemetryError::RecordTooLarge,
        },
{
    let ghost all = values_view(values@);
    let mut encoded: Vec<u8> = Vec::new();
    let mut previous_float: u64 = 0;
    let mut index: usize = 0;
    proof {
        assert(all.subrange(0, 0) =~= Seq::<ChunkValueModel>::empty());
    }
    while index < values.len()
        invariant
            index <= values@.len(),
            all == values_view(values@),
            values_fit(all.subrange(0, index as int)),
            previous_float == float_after(all.subrange(0, index as int)),
            encoded@ == wire_values(all.subrange(0, index as int)),
        decreases values@.len() - index,
    {
        let ghost part = all.subrange(0, index + 1);
        let ghost before = encoded@;
        let ghost last = all[index as int];
        proof {
            assert(part.drop_last() =~= all.subrange(0, index as int));
            assert(part.last() == last);
            assert(last == values@[index as int]@);
        }
        match append_value(&mut encoded, &values[index], &mut previous_float) {
            Ok(_) => {},
            Err(error) => {
                assert(!values_fit(all));
                return Err(error);
            },
        }
        proof {
            assert(encoded@ =~= wire_values(part));
            assert(values_fit(part)) by {
                assert forall|i: int| 0 <= i < part.len() implies ((
                #[trigger] part[i]) matches ChunkValueModel::Bytes(_, bytes) ==> bytes.len()
                    <= u32::MAX) by {
                    if i < index {
                        assert(part[i] == all.subrange(0, index as int)[i]);
                    }
                }
            }
        }
        index = index + 1;
    }
    proof {
        assert(all.subrange(0, index as int) =~= all);
    }
    Ok(encoded)
}

proof fn lemma_parse_values_error(bytes: Seq<u8>, few: nat, count: nat)
    requires
        few <= count,
        parse_values(bytes, few) is Err,
    ensures
        parse_values(bytes, count) == parse_values(bytes, few),
    decreases count,
{
    if few < count {
        lemma_parse_values_error(bytes, few, (count - 1) as nat);
    }
}

/// Decodes the values of a chunk.
pub fn decode_metric_values(encoded: &[u8], count: usize) -> (result: Result<
    Vec<ChunkValue>,
    TelemetryError,
>)
    ensures
        match result {
            Ok(values) => parse_value_lane(encoded@, count as nat) == Ok::<_, TelemetryError>(
                values_view(values@),
            ),
            Err(error) => parse_value_lane(encoded@, count as nat) == Err::<
                Seq<ChunkValueModel>,
                _,
            >(error),
        },
{
    let total: usize = encoded.len();
    let mut cursor: usize = 0;
    let mut previous_float: u64 = 0;
    let mut values: Vec<ChunkValue> = Vec::new();
    let mut index: usize = 0;
    proof {
        assert(values_view(values@) =~= Seq::<ChunkValueModel>::empty());
    }
    while index < count
        invariant
            index <= count,
            cursor <= total,
            total == encoded@.len(),
            previous_float == float_after(values_view(values@)),
            parse_values(encoded@, index as nat) == Ok::<_, TelemetryError>(
                (values_view(values@), cursor as int),
            ),
        decreases count - index,
    {
        proof {
            if parse_values(encoded@, (index + 1) as nat) is Err {
                lemma_parse_values_error(encoded@, (index + 1) as nat, count as nat);
            }
        }
        let tag: u8 = match read_byte(encoded, cursor) {
            Ok(tag) => tag,
            Err(error) => return Err(error),
        };
        let ghost done = values_view(values@);
        let value;
        if tag <= 1 {
            let (number, end) = match decode_number(encoded, cursor + 1, previous_float) {
                Ok(read) => read,
                Err(error) => return Err(error),
            };
            cursor = end;
            match number {
                NumberValue::Integer(_) => {},
                NumberValue::DoubleBits(bits) => {
                    previous_float = bits;
                },
            }
            value = if tag == 0 {
                ChunkValue::Gauge(number)
            } else {
                ChunkValue::Sum(number)
            };
        } else if tag <= 4 {
            let (start, end) = match read_section(encoded, cursor + 1, encoded.len()) {
                Ok(section) => section,
                Err(error) => return Err(error),
            };
            cursor = end;
            let bytes = crate::codec::copy_range(encoded, start, end);
            value = if tag == 2 {
                ChunkValue::ExplicitHistogram(bytes)
            } else if tag == 3 {
                ChunkValue::ExponentialHistogram(bytes)
            } else {
                ChunkValue::Summary(bytes)
            };
        } else {
            return Err(TelemetryError::InvalidBlockEncoding(MetricFault::InvalidValueTag));
        }
        proof {
            assert(values_view(values@.push(value)) =~= done.push(value@));
            assert(done.push(value@).drop_last() =~= done);
        }
        values.push(value);
        index = index + 1;
    }
    if cursor != encoded.len() {
        return Err(TelemetryError::InvalidBlockEncoding(MetricFault::TrailingValues));
    }
    Ok(values)
}

/// Whether every value has a tag of its kind.
pub open spec fn values_tagged(values: Seq<ChunkValueModel>) -> bool {
    forall|i: int|
        0 <= i < values.len() ==> match #[trigger] values[i] {
            ChunkValueModel::Number(tag, _) => tag <= 1,
            ChunkValueModel::Bytes(tag, _) => 2 <= tag <= 4,
        }
}

proof fn lemma_parse_values(bytes: Seq<u8>, values: Seq<ChunkValueModel>)
    requires
        values_fit(values),
        values_tagged(values),
        holds_at(bytes, 0, wire_values(values)),
    ensures
        parse_values(bytes, values.len()) == Ok::<_, TelemetryError>(
            (values, wire_values(values).len() as int),
        ),
    decreases values.len(),
{
    if values.len() > 0 {
        let front = values.drop_last();
        let last = values.last();
        let previous = float_after(front);
        assert(values_fit(front) && values_tagged(front)) by {
            assert forall|i: int| 0 <= i < front.len() implies front[i] == values[i] by {}
        }
        assert(values[values.len() - 1] == last);
        lemma_holds_split(bytes, 0, wire_values(front), wire_value(last, previous));
        lemma_parse_values(bytes, front);
        let at = wire_values(front).len() as int;
        match last {
            ChunkValueModel::Number(tag, number) => {
                lemma_holds_split(bytes, at, seq![tag], wire_number(number, previous));
                assert(bytes.subrange(at, at + 1)[0] == bytes[at]);
                number_round_trip(bytes, at + 1, number, previous);
            },
            ChunkValueModel::Bytes(tag, section) => {
                lemma_holds_split(bytes, at, seq![tag], wire_section(section));
                assert(bytes.subrange(at, at + 1)[0] == bytes[at]);
                section_round_trip(bytes, at + 1, section, bytes.len() as int);
            },
        }
        assert(front.push(last) =~= values);
    } else {
        assert(values =~= Seq::empty());
    }
}

/// The values of a chunk read back bit-exactly from their lane.
pub proof fn value_lane_round_trip(values: Seq<ChunkValueModel>)
    requires
        values_fit(values),
        values_tagged(values),
    ensures
        parse_value_lane(wire_values(values), values.len()) == Ok::<_, TelemetryError>(values),
{
    let bytes = wire_values(values);
    assert(bytes.subrange(0, bytes.len() as int) =~= bytes);
    lemma_parse_values(bytes, values);
}

} // verus!
