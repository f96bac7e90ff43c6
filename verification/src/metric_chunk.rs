//! Immutable metric chunks.
use vstd::prelude::*;

use crate::codec::{
    bytes_at, le_bytes, le_value, lemma_le_bytes_len, lemma_le_round_trip, lemma_pow256_values,
    put_bytes, put_le, read_u128, read_u32, same_bytes,
};
use crate::compress::{
    pco_compress, pco_decompress, pco_decompressed, zstd_compress, zstd_compressed,
    zstd_decompress, zstd_decompressed,
};
use crate::metric_codec::{
    append_section, append_value, decode_metric_values, fault, parse_section, parse_value_lane,
    read_section, section_round_trip, value_lane_round_trip, values_fit, values_tagged, values_view,
    wire_section, wire_values, ChunkValue, ChunkValueModel, MetricFault, TelemetryError,
};
use crate::metric_timestamps::{
    decode_timestamp_delta_of_delta, encode_timestamp_delta_of_delta, never_decreasing,
    parse_timestamp_lane, timestamp_lane_round_trip, wire_timestamps,
};
use crate::native_frame::{blake3_digest, blake3_hash};
use crate::native_wire::{holds_at, lemma_holds_split};
use crate::order::{
    arranged, comes_before, is_order, lemma_order_exists, order_of, stable_order,
};
use crate::record::{LogicalPartitionId, ShardId, TopicId, TopicPartition};

verus! {

broadcast use vstd::seq_lib::group_seq_properties;

/// Bytes of a chunk before its first section.
pub const CHUNK_HEADER_BYTES: usize = 52;

/// Bytes of the digest behind the last section.
pub const CHUNK_TRAILER_BYTES: usize = 32;

/// Compression level of the offset lane.
pub const METRIC_PCO_LEVEL: usize = 8;

/// Compression level of the sidecars.
pub const METRIC_SIDECAR_ZSTD_LEVEL: i32 = 1;

/// Most bytes of decompressed sidecars.
pub const MAX_SIDECAR_BYTES: usize = 67_108_864;

/// First bytes of a chunk: `STMP`, version 1 and three zero flag bytes.
pub open spec fn chunk_magic() -> Seq<u8> {
    seq![0x53, 0x54, 0x4d, 0x50]
}

/// Telemetry signal of a record.
#[derive(Debug, Clone, Copy, PartialEq, Eq, Structural)]
pub enum TelemetrySignal {
    /// Log records.
    Logs,
    /// Metric points.
    Metrics,
    /// Trace spans.
    Traces,
}

/// Owner of a chunk: shard, partition and series of all its points.
#[derive(Debug, Clone, Copy, PartialEq, Eq, Structural)]
pub struct ChunkOwner {
    /// Physical owner stripe.
    pub stream_shard_id: ShardId,
    /// Partition of the points.
    pub topic_partition: TopicPartition,
    /// Series fingerprint.
    pub series: u128,
}

/// The part of a metric point that the lanes of a chunk hold.
#[derive(Debug, PartialEq, Eq)]
pub struct ChunkPoint {
    /// Signal of the record.
    pub signal: TelemetrySignal,
    /// Shard, partition and series.
    pub owner: ChunkOwner,
    /// Offset in the partition.
    pub offset: u64,
    /// Sample timestamp.
    pub timestamp_unix_nanos: u64,
    /// Sample value.
    pub value: ChunkValue,
}

/// Sort keys of points: by timestamp, then by offset.
pub open spec fn point_keys(points: Seq<ChunkPoint>) -> Seq<u128> {
    points.map_values(|point: ChunkPoint| point_key(point.timestamp_unix_nanos, point.offset))
}

/// Sort key of a timestamp and an offset.
pub open spec fn point_key(timestamp: u64, offset: u64) -> u128 {
    (timestamp as nat * 0x1_0000_0000_0000_0000 + offset as nat) as u128
}

/// Sort key of a timestamp and an offset.
pub fn sort_key(timestamp: u64, offset: u64) -> (key: u128)
    ensures
        key == point_key(timestamp, offset),
        key == timestamp as nat * 0x1_0000_0000_0000_0000 + offset as nat,
{
    timestamp as u128 * 0x1_0000_0000_0000_0000 + offset as u128
}

/// Lanes of a chunk.
#[verifier::ext_equal]
pub struct ChunkLanes {
    /// Offsets in chunk order.
    pub offsets: Seq<u64>,
    /// Timestamps in chunk order.
    pub timestamps: Seq<u64>,
    /// Values in chunk order.
    pub values: Seq<ChunkValueModel>,
}

/// The lanes of points in chunk order.
pub open spec fn chunk_lanes(points: Seq<ChunkPoint>) -> ChunkLanes {
    let sorted = arranged(points, order_of(point_keys(points)));
    ChunkLanes {
        offsets: sorted.map_values(|point: ChunkPoint| point.offset),
        timestamps: sorted.map_values(|point: ChunkPoint| point.timestamp_unix_nanos),
        values: sorted.map_values(|point: ChunkPoint| point.value@),
    }
}

/// Header of a chunk.
pub open spec fn wire_chunk_header(owner: ChunkOwner, count: nat) -> Seq<u8> {
    chunk_magic() + seq![1u8, 0u8, 0u8, 0u8] + le_bytes(owner.stream_shard_id.0 as nat, 4)
        + le_bytes(owner.topic_partition.topic_id.0 as nat, 16) + le_bytes(
        owner.topic_partition.partition_id.0 as nat,
        4,
    ) + le_bytes(count, 4) + le_bytes(owner.series as nat, 16)
}

/// Chunk before its digest.
pub open spec fn wire_chunk_body(
    owner: ChunkOwner,
    count: nat,
    offset_lane: Seq<u8>,
    timestamp_lane: Seq<u8>,
    value_lane: Seq<u8>,
    sidecar_lane: Seq<u8>,
) -> Seq<u8> {
    wire_chunk_header(owner, count) + wire_section(offset_lane) + wire_section(timestamp_lane)
        + wire_section(value_lane) + wire_section(sidecar_lane)
}

/// Whether some point does not belong to `owner`.
pub open spec fn mixed(points: Seq<ChunkPoint>, owner: ChunkOwner) -> bool {
    exists|i: int|
        0 <= i < points.len() && ((#[trigger] points[i]).signal != TelemetrySignal::Metrics
            || points[i].owner != owner)
}

/// Whether the bytes are a chunk of these points and sidecars.
pub open spec fn is_chunk_of(encoded: Seq<u8>, points: Seq<ChunkPoint>, sidecars: Seq<u8>) -> bool {
    let lanes = chunk_lanes(points);
    exists|offset_lane: Seq<u8>, sidecar_lane: Seq<u8>|
        {
            let body = #[trigger] wire_chunk_body(
                points[0].owner,
                points.len(),
                offset_lane,
                wire_timestamps(lanes.timestamps),
                wire_values(lanes.values),
                sidecar_lane,
            );
            &&& encoded == body + blake3_digest(body)
            &&& blake3_digest(body).len() == CHUNK_TRAILER_BYTES
            &&& pco_decompressed(offset_lane, points.len() as usize) == Some(
                (lanes.offsets, points.len() as usize, true),
            )
            &&& zstd_compressed(sidecars, METRIC_SIDECAR_ZSTD_LEVEL) == Ok::<_, Seq<char>>(
                sidecar_lane,
            )
            &&& offset_lane.len() <= u32::MAX
            &&& sidecar_lane.len() <= u32::MAX
            &&& forall|capacity: usize|
                sidecars.len() <= capacity <= isize::MAX ==> #[trigger] zstd_decompressed(
                    sidecar_lane,
                    capacity,
                ) == Ok::<_, Seq<char>>(sidecars)
        }
}

/// What is wrong with the points of a chunk, if anything.
pub open spec fn points_fault(points: Seq<ChunkPoint>) -> Option<TelemetryError> {
    if points.len() == 0 {
        Some(fault(MetricFault::EmptyChunk))
    } else if mixed(points, points[0].owner) {
        Some(fault(MetricFault::MixedChunk))
    } else if !values_fit(chunk_lanes(points).values) {
        Some(TelemetryError::RecordTooLarge)
    } else {
        None
    }
}

/// Whether the number of points or a lane that the points fix is too long for a chunk.
pub open spec fn lanes_too_long(points: Seq<ChunkPoint>) -> bool {
    ||| points.len() > u32::MAX
    ||| wire_timestamps(chunk_lanes(points).timestamps).len() > u32::MAX
    ||| wire_values(chunk_lanes(points).values).len() > u32::MAX
}

/// The chunk of points with a compressed offset lane and compressed sidecars, or why there
/// is none.
pub open spec fn assembled(
    points: Seq<ChunkPoint>,
    offset_lane: Seq<u8>,
    sidecar_lane: Seq<u8>,
) -> Result<Seq<u8>, TelemetryError> {
    match points_fault(points) {
        Some(error) => Err(error),
        None => if lanes_too_long(points) || offset_lane.len() > u32::MAX || sidecar_lane.len()
            > u32::MAX {
            Err(TelemetryError::RecordTooLarge)
        } else {
            let lanes = chunk_lanes(points);
            let body = wire_chunk_body(
                points[0].owner,
                points.len(),
                offset_lane,
                wire_timestamps(lanes.timestamps),
                wire_values(lanes.values),
                sidecar_lane,
            );
            Ok(body + blake3_digest(body))
        },
    }
}

/// Whether the compressed sidecars, or a lane that the points fix, are too long for a chunk.
pub open spec fn chunk_too_long(points: Seq<ChunkPoint>, sidecar_lane: Seq<u8>) -> bool {
    lanes_too_long(points) || sidecar_lane.len() > u32::MAX
}

/// The lanes of a chunk, the values of which are encoded.
struct ChunkParts {
    offsets: Vec<u64>,
    timestamps: Vec<u64>,
    values: Vec<u8>,
}

/// Puts points into chunk order.
fn chunk_parts(points: &Vec<ChunkPoint>) -> (result: Result<ChunkParts, TelemetryError>)
    ensures
        match result {
            Ok(parts) => {
                &&& points_fault(points@) is None
                &&& parts.offsets@ == chunk_lanes(points@).offsets
                &&& parts.timestamps@ == chunk_lanes(points@).timestamps
                &&& parts.values@ == wire_values(chunk_lanes(points@).values)
                &&& parts.offsets@.len() == points@.len()
                &&& never_decreasing(parts.timestamps@)
            },
            Err(error) => points_fault(points@) == Some(error),
        },
{
    if points.len() == 0 {
        return Err(TelemetryError::InvalidBlockEncoding(MetricFault::EmptyChunk));
    }
    let owner = points[0].owner;
    let mut keys: Vec<u128> = Vec::new();
    let mut index: usize = 0;
    while index < points.len()
        invariant
            index <= points@.len(),
            points@.len() > 0,
            owner == points@[0].owner,
            keys@.len() == index,
            forall|i: int| 0 <= i < index ==> keys@[i] == point_keys(points@)[i],
            forall|i: int|
                0 <= i < index ==> (#[trigger] points@[i]).signal == TelemetrySignal::Metrics
                    && points@[i].owner == owner,
        decreases points@.len() - index,
    {
        let point = &points[index];
        if point.signal != TelemetrySignal::Metrics || point.owner != owner {
            assert(mixed(points@, owner));
            return Err(TelemetryError::InvalidBlockEncoding(MetricFault::MixedChunk));
        }
        keys.push(sort_key(point.timestamp_unix_nanos, point.offset));
        index = index + 1;
    }
    proof {
        assert(keys@ =~= point_keys(points@));
        assert(!mixed(points@, owner));
    }
    let order = stable_order(&keys);
    let ghost lanes = chunk_lanes(points@);
    let ghost sorted = arranged(points@, order@);
    let mut offsets: Vec<u64> = Vec::new();
    let mut timestamps: Vec<u64> = Vec::new();
    let mut values: Vec<u8> = Vec::new();
    let mut previous_float: u64 = 0;
    let mut place: usize = 0;
    proof {
        assert(lanes.values.subrange(0, 0) =~= Seq::<ChunkValueModel>::empty());
    }
    while place < order.len()
        invariant
            place <= order@.len(),
            order@.len() == points@.len(),
            is_order(keys@, order@),
            keys@.len() == points@.len(),
            sorted == arranged(points@, order@),
            lanes == chunk_lanes(points@),
            order@ == order_of(point_keys(points@)),
            points@.len() > 0,
            !mixed(points@, points@[0].owner),
            offsets@ == lanes.offsets.subrange(0, place as int),
            timestamps@ == lanes.timestamps.subrange(0, place as int),
            values_fit(lanes.values.subrange(0, place as int)),
            previous_float == crate::metric_codec::float_after(
                lanes.values.subrange(0, place as int),
            ),
            values@ == wire_values(lanes.values.subrange(0, place as int)),
        decreases order@.len() - place,
    {
        let point = &points[order[place]];
        let ghost part = lanes.values.subrange(0, place + 1);
        proof {
            assert(sorted[place as int] == *point);
            assert(lanes.offsets[place as int] == point.offset);
            assert(lanes.timestamps[place as int] == point.timestamp_unix_nanos);
            assert(lanes.values[place as int] == point.value@);
            assert(lanes.offsets.subrange(0, place + 1) =~= offsets@.push(point.offset));
            assert(lanes.timestamps.subrange(0, place + 1) =~= timestamps@.push(
                point.timestamp_unix_nanos,
            ));
            assert(part.drop_last() =~= lanes.values.subrange(0, place as int));
            assert(part.last() == point.value@);
        }
        offsets.push(point.offset);
        timestamps.push(point.timestamp_unix_nanos);
        match append_value(&mut values, &point.value, &mut previous_float) {
            Ok(_) => {},
            Err(error) => {
                assert(!values_fit(lanes.values));
                return Err(error);
            },
        }
        proof {
            assert(values@ =~= wire_values(part));
            assert(values_fit(part)) by {
                assert forall|i: int| 0 <= i < part.len() implies ((
                #[trigger] part[i]) matches ChunkValueModel::Bytes(_, bytes) ==> bytes.len()
                    <= u32::MAX) by {
                    if i < place {
                        assert(part[i] == lanes.values.subrange(0, place as int)[i]);
                    }
                }
            }
        }
        place = place + 1;
    }
    proof {
        assert(lanes.offsets.subrange(0, place as int) =~= lanes.offsets);
        assert(lanes.timestamps.subrange(0, place as int) =~= lanes.timestamps);
        assert(lanes.values.subrange(0, place as int) =~= lanes.values);
        lemma_sorted_timestamps(points@);
    }
    Ok(ChunkParts { offsets, timestamps, values })
}

/// Writes the sections of a chunk and its digest.
fn assemble_parts(
    points: &Vec<ChunkPoint>,
    parts: &ChunkParts,
    offset_lane: &[u8],
    sidecar_lane: &[u8],
) -> (result: Result<Vec<u8>, TelemetryError>)
    requires
        points_fault(points@) is None,
        parts.timestamps@ == chunk_lanes(points@).timestamps,
        parts.values@ == wire_values(chunk_lanes(points@).values),
        never_decreasing(parts.timestamps@),
    ensures
        match (result, assembled(points@, offset_lane@, sidecar_lane@)) {
            (Ok(encoded), Ok(wanted)) => encoded@ == wanted && encoded@.len() >= CHUNK_TRAILER_BYTES,
            (Err(error), Err(wanted)) => error == wanted,
            _ => false,
        },
        result is Ok ==> exists|body: Seq<u8>| #[trigger] blake3_digest(body).len()
            == CHUNK_TRAILER_BYTES && body == wire_chunk_body(
            points@[0].owner,
            points@.len(),
            offset_lane@,
            wire_timestamps(chunk_lanes(points@).timestamps),
            wire_values(chunk_lanes(points@).values),
            sidecar_lane@,
        ),
{
    if points.len() as u128 > u32::MAX as u128 {
        return Err(TelemetryError::RecordTooLarge);
    }
    let owner = points[0].owner;
    let timestamp_lane = match encode_timestamp_delta_of_delta(&parts.timestamps) {
        Ok(lane) => lane,
        Err(error) => return Err(error),
    };
    let mut encoded = encode_chunk_header(owner, points.len());
    match append_section(&mut encoded, offset_lane) {
        Ok(_) => {},
        Err(error) => return Err(error),
    }
    match append_section(&mut encoded, &timestamp_lane) {
        Ok(_) => {},
        Err(error) => return Err(error),
    }
    match append_section(&mut encoded, &parts.values) {
        Ok(_) => {},
        Err(error) => return Err(error),
    }
    match append_section(&mut encoded, sidecar_lane) {
        Ok(_) => {},
        Err(error) => return Err(error),
    }
    let digest = blake3_hash(&encoded);
    let ghost body = encoded@;
    put_bytes(&mut encoded, &digest);
    proof {
        assert(body == wire_chunk_body(
            owner,
            points@.len(),
            offset_lane@,
            wire_timestamps(chunk_lanes(points@).timestamps),
            wire_values(chunk_lanes(points@).values),
            sidecar_lane@,
        ));
        assert(blake3_digest(body).len() == CHUNK_TRAILER_BYTES);
    }
    Ok(encoded)
}

/// Assembles the chunk of points from its compressed offset lane and its compressed
/// sidecars.
pub fn assemble_chunk(points: &Vec<ChunkPoint>, offset_lane: &[u8], sidecar_lane: &[u8]) -> (result:
    Result<Vec<u8>, TelemetryError>)
    ensures
        match (result, assembled(points@, offset_lane@, sidecar_lane@)) {
            (Ok(encoded), Ok(wanted)) => encoded@ == wanted,
            (Err(error), Err(wanted)) => error == wanted,
            _ => false,
        },
{
    match chunk_parts(points) {
        Ok(parts) => assemble_parts(points, &parts, offset_lane, sidecar_lane),
        Err(error) => Err(error),
    }
}

/// Encodes one series' points into a signal-native metric chunk. The sidecars are
/// the serialized identity and per-point details in chunk order. Where neither the points
/// nor the sidecars are at fault, it fails only for points so many that their compressed
/// offsets may be too long.
pub fn encode_metric_chunk(points: &Vec<ChunkPoint>, sidecars: &[u8]) -> (result: Result<
    Vec<u8>,
    TelemetryError,
>)
    ensures
        match (points_fault(points@), zstd_compressed(sidecars@, METRIC_SIDECAR_ZSTD_LEVEL)) {
            (Some(error), _) => result == Err::<Vec<u8>, _>(error),
            (None, Err(text)) => result matches Err(TelemetryError::CompressionFailed(reported))
                && reported@ == text,
            (None, Ok(lane)) => match result {
                Ok(encoded) => !chunk_too_long(points@, lane) && is_chunk_of(
                    encoded@,
                    points@,
                    sidecars@,
                ),
                Err(error) => error == TelemetryError::RecordTooLarge && (chunk_too_long(
                    points@,
                    lane,
                ) || 16 * points@.len() + 4096 > u32::MAX),
            },
        },
{
    let parts = match chunk_parts(points) {
        Ok(parts) => parts,
        Err(error) => return Err(error),
    };
    let sidecar_lane = match zstd_compress(sidecars, METRIC_SIDECAR_ZSTD_LEVEL) {
        Ok(lane) => lane,
        Err(text) => return Err(TelemetryError::CompressionFailed(text)),
    };
    let offset_lane = match pco_compress(&parts.offsets, METRIC_PCO_LEVEL) {
        Ok(lane) => lane,
        Err(text) => return Err(TelemetryError::CompressionFailed(text)),
    };
    let result = assemble_parts(points, &parts, &offset_lane, &sidecar_lane);
    proof {
        if result is Ok {
            let body = wire_chunk_body(
                points@[0].owner,
                points@.len(),
                offset_lane@,
                wire_timestamps(chunk_lanes(points@).timestamps),
                wire_values(chunk_lanes(points@).values),
                sidecar_lane@,
            );
            assert(result->Ok_0@ == body + blake3_digest(body));
            assert(is_chunk_of(result->Ok_0@, points@, sidecars@));
        }
    }
    result
}

/// Timestamps of a chunk never decrease.
pub proof fn lemma_sorted_timestamps(points: Seq<ChunkPoint>)
    requires
        is_order(point_keys(points), order_of(point_keys(points))),
    ensures
        never_decreasing(chunk_lanes(points).timestamps),
        chunk_lanes(points).timestamps.len() == points.len(),
        chunk_lanes(points).offsets.len() == points.len(),
        chunk_lanes(points).values.len() == points.len(),
{
    let keys = point_keys(points);
    let order = order_of(keys);
    let timestamps = chunk_lanes(points).timestamps;
    assert forall|i: int| 0 < i < timestamps.len() implies timestamps[i - 1]
        <= #[trigger] timestamps[i] by {
        let a = order[i - 1] as int;
        let b = order[i] as int;
        assert(comes_before(keys, a, b));
        assert(keys[a] == point_key(points[a].timestamp_unix_nanos, points[a].offset));
        assert(keys[b] == point_key(points[b].timestamp_unix_nanos, points[b].offset));
        assert(timestamps[i - 1] == points[a].timestamp_unix_nanos);
        assert(timestamps[i] == points[b].timestamp_unix_nanos);
    }
}

/// Writes the header of a chunk.
fn encode_chunk_header(owner: ChunkOwner, count: usize) -> (encoded: Vec<u8>)
    requires
        count <= u32::MAX,
    ensures
        encoded@ == wire_chunk_header(owner, count as nat),
{
    let mut encoded: Vec<u8> = Vec::new();
    encoded.push(0x53);
    encoded.push(0x54);
    encoded.push(0x4d);
    encoded.push(0x50);
    encoded.push(1);
    encoded.push(0);
    encoded.push(0);
    encoded.push(0);
    proof {
        assert(encoded@ =~= chunk_magic() + seq![1u8, 0u8, 0u8, 0u8]);
    }
    put_le(&mut encoded, owner.stream_shard_id.0 as u128, 4);
    put_le(&mut encoded, owner.topic_partition.topic_id.0, 16);
    put_le(&mut encoded, owner.topic_partition.partition_id.0 as u128, 4);
    put_le(&mut encoded, count as u128, 4);
    put_le(&mut encoded, owner.series, 16);
    encoded
}

/// Decoded chunk whose sidecars are still serialized.
#[derive(Debug, PartialEq, Eq)]
pub struct DecodedChunk {
    /// Shard, partition and series of all points.
    pub owner: ChunkOwner,
    /// Offsets in chunk order.
    pub offsets: Vec<u64>,
    /// Timestamps in chunk order.
    pub timestamps: Vec<u64>,
    /// Values in chunk order.
    pub values: Vec<ChunkValue>,
    /// Serialized identity and per-point details.
    pub sidecars: Vec<u8>,
}

/// Sections of a chunk.
#[verifier::ext_equal]
pub struct ChunkSections {
    /// Offset lane.
    pub offsets: Seq<u8>,
    /// Timestamp lane.
    pub timestamps: Seq<u8>,
    /// Value lane.
    pub values: Seq<u8>,
    /// Compressed sidecars.
    pub sidecars: Seq<u8>,
}

/// The owner in a chunk header.
pub open spec fn chunk_owner(bytes: Seq<u8>) -> ChunkOwner {
    ChunkOwner {
        stream_shard_id: ShardId(le_value(bytes.subrange(8, 12)) as u32),
        topic_partition: TopicPartition {
            topic_id: TopicId(le_value(bytes.subrange(12, 28)) as u128),
            partition_id: LogicalPartitionId(le_value(bytes.subrange(28, 32)) as u32),
        },
        series: le_value(bytes.subrange(36, 52)) as u128,
    }
}

/// The point count in a chunk header.
pub open spec fn chunk_count(bytes: Seq<u8>) -> nat {
    le_value(bytes.subrange(32, 36))
}

/// Why the frame of a chunk is invalid, if it is.
pub open spec fn chunk_frame_error(bytes: Seq<u8>) -> Option<TelemetryError> {
    let end = bytes.len() - CHUNK_TRAILER_BYTES;
    if bytes.len() < CHUNK_HEADER_BYTES + CHUNK_TRAILER_BYTES || bytes.subrange(0, 4)
        != chunk_magic() {
        Some(fault(MetricFault::MissingHeader))
    } else if bytes.subrange(4, 8) != seq![1u8, 0u8, 0u8, 0u8] {
        Some(fault(MetricFault::UnsupportedVersion))
    } else if blake3_digest(bytes.subrange(0, end)) != bytes.subrange(end, bytes.len() as int) {
        Some(fault(MetricFault::ChecksumMismatch))
    } else if chunk_count(bytes) == 0 {
        Some(fault(MetricFault::NoPoints))
    } else {
        None
    }
}

/// The offsets of an offset lane.
pub open spec fn parse_offset_lane(lane: Seq<u8>, count: nat) -> Result<Seq<u64>, TelemetryError> {
    match pco_decompressed(lane, count as usize) {
        None => Err(fault(MetricFault::InvalidOffsetLane)),
        Some((values, processed, finished)) => if processed != count || !finished {
            Err(fault(MetricFault::OffsetCountMismatch))
        } else {
            Ok(values)
        },
    }
}

/// The lanes of the sections that start at `at`, and where they end.
pub open spec fn parse_chunk_lanes(bytes: Seq<u8>, count: nat) -> Result<
    (ChunkLanes, Seq<u8>),
    TelemetryError,
> {
    let end = bytes.len() - CHUNK_TRAILER_BYTES;
    match parse_section(bytes, CHUNK_HEADER_BYTES as int, end) {
        Err(error) => Err(error),
        Ok((offset_lane, at1)) => match parse_offset_lane(offset_lane, count) {
            Err(error) => Err(error),
            Ok(offsets) => match parse_section(bytes, at1, end) {
                Err(error) => Err(error),
                Ok((timestamp_lane, at2)) => match parse_timestamp_lane(timestamp_lane, count) {
                    Err(error) => Err(error),
                    Ok(timestamps) => parse_chunk_tail(
                        bytes,
                        at2,
                        count,
                        offsets,
                        timestamps,
                    ),
                },
            },
        },
    }
}

/// The value lane and the compressed sidecars that start at `at`.
pub open spec fn parse_chunk_tail(
    bytes: Seq<u8>,
    at: int,
    count: nat,
    offsets: Seq<u64>,
    timestamps: Seq<u64>,
) -> Result<(ChunkLanes, Seq<u8>), TelemetryError> {
    let end = bytes.len() - CHUNK_TRAILER_BYTES;
    match parse_section(bytes, at, end) {
        Err(error) => Err(error),
        Ok((value_lane, at3)) => match parse_value_lane(value_lane, count) {
            Err(error) => Err(error),
            Ok(values) => match parse_section(bytes, at3, end) {
                Err(error) => Err(error),
                Ok((sidecar_lane, at4)) => if at4 != end {
                    Err(fault(MetricFault::TrailingSections))
                } else {
                    Ok((ChunkLanes { offsets, timestamps, values }, sidecar_lane))
                },
            },
        },
    }
}

/// What a chunk holds: its owner, its lanes and its sidecars.
pub open spec fn parse_chunk(bytes: Seq<u8>) -> Result<
    (ChunkOwner, ChunkLanes, Seq<u8>),
    TelemetryError,
> {
    match chunk_frame_error(bytes) {
        Some(error) => Err(error),
        None => match parse_chunk_lanes(bytes, chunk_count(bytes)) {
            Err(error) => Err(error),
            Ok((lanes, sidecar_lane)) => match zstd_decompressed(sidecar_lane, MAX_SIDECAR_BYTES) {
                Err(_) => Err(fault(MetricFault::InvalidSidecarCompression)),
                Ok(sidecars) => Ok((chunk_owner(bytes), lanes, sidecars)),
            },
        },
    }
}

/// Decompresses an offset lane.
fn decompress_u64(lane: &[u8], count: usize) -> (result: Result<Vec<u64>, TelemetryError>)
    requires
        8 * count <= isize::MAX,
    ensures
        match result {
            Ok(values) => parse_offset_lane(lane@, count as nat) == Ok::<_, TelemetryError>(
                values@,
            ),
            Err(error) => parse_offset_lane(lane@, count as nat) == Err::<Seq<u64>, _>(error),
        },
{
    match pco_decompress(lane, count) {
        None => Err(TelemetryError::InvalidBlockEncoding(MetricFault::InvalidOffsetLane)),
        Some((values, processed, finished)) => {
            if processed != count || !finished {
                Err(TelemetryError::InvalidBlockEncoding(MetricFault::OffsetCountMismatch))
            } else {
                Ok(values)
            }
        },
    }
}

/// Decodes and verifies one signal-native metric chunk. The offsets that it announces must
/// be as many as a vector can have.
pub fn decode_metric_chunk(encoded: &[u8]) -> (result: Result<DecodedChunk, TelemetryError>)
    requires
        encoded@.len() >= CHUNK_HEADER_BYTES ==> 8 * chunk_count(encoded@) <= isize::MAX,
    ensures
        match result {
            Ok(chunk) => parse_chunk(encoded@) == Ok::<_, TelemetryError>(
                (
                    chunk.owner,
                    ChunkLanes {
                        offsets: chunk.offsets@,
                        timestamps: chunk.timestamps@,
                        values: values_view(chunk.values@),
                    },
                    chunk.sidecars@,
                ),
            ),
            Err(error) => parse_chunk(encoded@) == Err::<(ChunkOwner, ChunkLanes, Seq<u8>), _>(
                error,
            ),
        },
{
    let magic: [u8; 4] = [0x53, 0x54, 0x4d, 0x50];
    let version: [u8; 4] = [1, 0, 0, 0];
    proof {
        assert(magic@ =~= chunk_magic());
        assert(version@ =~= seq![1u8, 0u8, 0u8, 0u8]);
    }
    if encoded.len() < CHUNK_HEADER_BYTES + CHUNK_TRAILER_BYTES || !bytes_at(encoded, 0, &magic) {
        return Err(TelemetryError::InvalidBlockEncoding(MetricFault::MissingHeader));
    }
    if !bytes_at(encoded, 4, &version) {
        return Err(TelemetryError::InvalidBlockEncoding(MetricFault::UnsupportedVersion));
    }
    let total: usize = encoded.len();
    let payload_end: usize = total - CHUNK_TRAILER_BYTES;
    let digest = blake3_hash(&encoded[0..payload_end]);
    if !same_bytes(&digest, &encoded[payload_end..total]) {
        return Err(TelemetryError::InvalidBlockEncoding(MetricFault::ChecksumMismatch));
    }
    let owner = ChunkOwner {
        stream_shard_id: ShardId(read_u32(encoded, 8)),
        topic_partition: TopicPartition {
            topic_id: TopicId(read_u128(encoded, 12)),
            partition_id: LogicalPartitionId(read_u32(encoded, 28)),
        },
        series: read_u128(encoded, 36),
    };
    let count: usize = read_u32(encoded, 32) as usize;
    if count == 0 {
        return Err(TelemetryError::InvalidBlockEncoding(MetricFault::NoPoints));
    }
    let (start1, end1) = match read_section(encoded, CHUNK_HEADER_BYTES, payload_end) {
        Ok(section) => section,
        Err(error) => return Err(error),
    };
    let offsets = match decompress_u64(&encoded[start1..end1], count) {
        Ok(offsets) => offsets,
        Err(error) => return Err(error),
    };
    let (start2, end2) = match read_section(encoded, end1, payload_end) {
        Ok(section) => section,
        Err(error) => return Err(error),
    };
    let timestamps = match decode_timestamp_delta_of_delta(&encoded[start2..end2], count) {
        Ok(timestamps) => timestamps,
        Err(error) => return Err(error),
    };
    let (start3, end3) = match read_section(encoded, end2, payload_end) {
        Ok(section) => section,
        Err(error) => return Err(error),
    };
    let values = match decode_metric_values(&encoded[start3..end3], count) {
        Ok(values) => values,
        Err(error) => return Err(error),
    };
    let (start4, end4) = match read_section(encoded, end3, payload_end) {
        Ok(section) => section,
        Err(error) => return Err(error),
    };
    if end4 != payload_end {
        return Err(TelemetryError::InvalidBlockEncoding(MetricFault::TrailingSections));
    }
    match zstd_decompress(&encoded[start4..end4], MAX_SIDECAR_BYTES) {
        Err(_) => Err(TelemetryError::InvalidBlockEncoding(MetricFault::InvalidSidecarCompression)),
        Ok(sidecars) => Ok(DecodedChunk { owner, offsets, timestamps, values, sidecars }),
    }
}

/// Checks deserialized sidecars against their chunk: their number and the
/// fingerprint of their identity.
pub fn check_sidecars(chunk: &DecodedChunk, points: usize, series: u128) -> (result: Result<
    (),
    TelemetryError,
>)
    ensures
        result == if points != chunk.offsets@.len() || series != chunk.owner.series {
            Err::<(), _>(fault(MetricFault::SidecarMismatch))
        } else {
            Ok(())
        },
{
    if points != chunk.offsets.len() || series != chunk.owner.series {
        Err(TelemetryError::InvalidBlockEncoding(MetricFault::SidecarMismatch))
    } else {
        Ok(())
    }
}

proof fn lemma_chunk_header(owner: ChunkOwner, count: nat, bytes: Seq<u8>)
    requires
        count <= u32::MAX,
        holds_at(bytes, 0, wire_chunk_header(owner, count)),
    ensures
        wire_chunk_header(owner, count).len() == CHUNK_HEADER_BYTES,
        bytes.subrange(0, 4) == chunk_magic(),
        bytes.subrange(4, 8) == seq![1u8, 0u8, 0u8, 0u8],
        chunk_owner(bytes) == owner,
        chunk_count(bytes) == count,
{
    let m = chunk_magic();
    let v = seq![1u8, 0u8, 0u8, 0u8];
    let a = le_bytes(owner.stream_shard_id.0 as nat, 4);
    let b = le_bytes(owner.topic_partition.topic_id.0 as nat, 16);
    let c = le_bytes(owner.topic_partition.partition_id.0 as nat, 4);
    let d = le_bytes(count, 4);
    let e = le_bytes(owner.series as nat, 16);
    lemma_pow256_values();
    lemma_le_bytes_len(owner.stream_shard_id.0 as nat, 4);
    lemma_le_bytes_len(owner.topic_partition.topic_id.0 as nat, 16);
    lemma_le_bytes_len(owner.topic_partition.partition_id.0 as nat, 4);
    lemma_le_bytes_len(count, 4);
    lemma_le_bytes_len(owner.series as nat, 16);
    lemma_holds_split(bytes, 0, m + v + a + b + c + d, e);
    lemma_holds_split(bytes, 0, m + v + a + b + c, d);
    lemma_holds_split(bytes, 0, m + v + a + b, c);
    lemma_holds_split(bytes, 0, m + v + a, b);
    lemma_holds_split(bytes, 0, m + v, a);
    lemma_holds_split(bytes, 0, m, v);
    lemma_le_round_trip(owner.stream_shard_id.0 as nat, 4);
    lemma_le_round_trip(owner.topic_partition.topic_id.0 as nat, 16);
    lemma_le_round_trip(owner.topic_partition.partition_id.0 as nat, 4);
    lemma_le_round_trip(count, 4);
    lemma_le_round_trip(owner.series as nat, 16);
}

/// The sections of a chunk follow each other.
proof fn lemma_chunk_sections(
    encoded: Seq<u8>,
    owner: ChunkOwner,
    count: nat,
    offset_lane: Seq<u8>,
    timestamp_lane: Seq<u8>,
    value_lane: Seq<u8>,
    sidecar_lane: Seq<u8>,
    digest: Seq<u8>,
)
    requires
        count <= u32::MAX,
        offset_lane.len() <= u32::MAX,
        timestamp_lane.len() <= u32::MAX,
        value_lane.len() <= u32::MAX,
        sidecar_lane.len() <= u32::MAX,
        digest.len() == CHUNK_TRAILER_BYTES,
        encoded == wire_chunk_body(
            owner,
            count,
            offset_lane,
            timestamp_lane,
            value_lane,
            sidecar_lane,
        ) + digest,
    ensures
        ({
            let end = encoded.len() - CHUNK_TRAILER_BYTES;
            let at0 = CHUNK_HEADER_BYTES as int;
            let at1 = at0 + wire_section(offset_lane).len();
            let at2 = at1 + wire_section(timestamp_lane).len();
            let at3 = at2 + wire_section(value_lane).len();
            &&& encoded.len() >= CHUNK_HEADER_BYTES + CHUNK_TRAILER_BYTES
            &&& holds_at(encoded, 0, wire_chunk_header(owner, count))
            &&& encoded.subrange(0, end) == wire_chunk_body(
                owner,
                count,
                offset_lane,
                timestamp_lane,
                value_lane,
                sidecar_lane,
            )
            &&& encoded.subrange(end, encoded.len() as int) == digest
            &&& parse_section(encoded, at0, end) == Ok::<_, TelemetryError>((offset_lane, at1))
            &&& parse_section(encoded, at1, end) == Ok::<_, TelemetryError>((timestamp_lane, at2))
            &&& parse_section(encoded, at2, end) == Ok::<_, TelemetryError>((value_lane, at3))
            &&& parse_section(encoded, at3, end) == Ok::<_, TelemetryError>((sidecar_lane, end))
        }),
{
    let body = wire_chunk_body(
        owner,
        count,
        offset_lane,
        timestamp_lane,
        value_lane,
        sidecar_lane,
    );
    let header = wire_chunk_header(owner, count);
    let a = wire_section(offset_lane);
    let b = wire_section(timestamp_lane);
    let c = wire_section(value_lane);
    let d = wire_section(sidecar_lane);
    assert(encoded.subrange(0, encoded.len() as int) =~= encoded);
    lemma_holds_split(encoded, 0, body, digest);
    lemma_holds_split(encoded, 0, header + a + b + c, d);
    lemma_holds_split(encoded, 0, header + a + b, c);
    lemma_holds_split(encoded, 0, header + a, b);
    lemma_holds_split(encoded, 0, header, a);
    lemma_chunk_header(owner, count, encoded);
    let end = encoded.len() - CHUNK_TRAILER_BYTES;
    let at0 = CHUNK_HEADER_BYTES as int;
    let at1 = at0 + a.len();
    let at2 = at1 + b.len();
    let at3 = at2 + c.len();
    section_round_trip(encoded, at0, offset_lane, end);
    section_round_trip(encoded, at1, timestamp_lane, end);
    section_round_trip(encoded, at2, value_lane, end);
    section_round_trip(encoded, at3, sidecar_lane, end);
}

/// A chunk reads back: its owner, its lanes in chunk order and its sidecars, as
/// long as these fit the decompression limit.
#[verifier::spinoff_prover]
#[verifier::rlimit(60)]
pub proof fn chunk_round_trip(encoded: Seq<u8>, points: Seq<ChunkPoint>, sidecars: Seq<u8>)
    requires
        0 < points.len() <= u32::MAX,
        values_fit(chunk_lanes(points).values),
        wire_timestamps(chunk_lanes(points).timestamps).len() <= u32::MAX,
        wire_values(chunk_lanes(points).values).len() <= u32::MAX,
        sidecars.len() <= MAX_SIDECAR_BYTES,
        is_chunk_of(encoded, points, sidecars),
    ensures
        parse_chunk(encoded) == Ok::<_, TelemetryError>(
            (points[0].owner, chunk_lanes(points), sidecars),
        ),
{
    let lanes = chunk_lanes(points);
    let owner = points[0].owner;
    let count = points.len();
    let timestamp_lane = wire_timestamps(lanes.timestamps);
    let value_lane = wire_values(lanes.values);
    let (offset_lane, sidecar_lane) = choose|offset_lane: Seq<u8>, sidecar_lane: Seq<u8>|
        {
            let body = #[trigger] wire_chunk_body(
                owner,
                count,
                offset_lane,
                timestamp_lane,
                value_lane,
                sidecar_lane,
            );
            &&& encoded == body + blake3_digest(body)
            &&& blake3_digest(body).len() == CHUNK_TRAILER_BYTES
            &&& pco_decompressed(offset_lane, count as usize) == Some(
                (lanes.offsets, count as usize, true),
            )
            &&& zstd_compressed(sidecars, METRIC_SIDECAR_ZSTD_LEVEL) == Ok::<_, Seq<char>>(
                sidecar_lane,
            )
            &&& offset_lane.len() <= u32::MAX
            &&& sidecar_lane.len() <= u32::MAX
            &&& forall|capacity: usize|
                sidecars.len() <= capacity <= isize::MAX ==> #[trigger] zstd_decompressed(
                    sidecar_lane,
                    capacity,
                ) == Ok::<_, Seq<char>>(sidecars)
        };
    let body = wire_chunk_body(
        owner,
        count,
        offset_lane,
        timestamp_lane,
        value_lane,
        sidecar_lane,
    );
    lemma_chunk_sections(
        encoded,
        owner,
        count,
        offset_lane,
        timestamp_lane,
        value_lane,
        sidecar_lane,
        blake3_digest(body),
    );
    lemma_chunk_header(owner, count, encoded);
    lemma_order_exists(point_keys(points));
    lemma_sorted_timestamps(points);
    timestamp_lane_round_trip(lanes.timestamps);
    lemma_lane_tags(points);
    value_lane_round_trip(lanes.values);
    assert(zstd_decompressed(sidecar_lane, MAX_SIDECAR_BYTES) == Ok::<_, Seq<char>>(sidecars));
    let end = encoded.len() - CHUNK_TRAILER_BYTES;
    let at1 = CHUNK_HEADER_BYTES + wire_section(offset_lane).len();
    let at2 = at1 + wire_section(timestamp_lane).len();
    assert(parse_chunk_tail(encoded, at2, count, lanes.offsets, lanes.timestamps) == Ok::<
        _,
        TelemetryError,
    >((lanes, sidecar_lane)));
    assert(parse_offset_lane(offset_lane, count) == Ok::<_, TelemetryError>(lanes.offsets));
    assert(parse_chunk_lanes(encoded, count) == Ok::<_, TelemetryError>((lanes, sidecar_lane)));
    assert(chunk_frame_error(encoded) is None);
}

proof fn lemma_lane_tags(points: Seq<ChunkPoint>)
    ensures
        values_tagged(chunk_lanes(points).values),
{
    let values = chunk_lanes(points).values;
    let sorted = arranged(points, order_of(point_keys(points)));
    assert forall|i: int| 0 <= i < values.len() implies match #[trigger] values[i] {
        ChunkValueModel::Number(tag, _) => tag <= 1,
        ChunkValueModel::Bytes(tag, _) => 2 <= tag <= 4,
    } by {
        assert(values[i] == sorted[i].value@);
    }
}

} // verus!
