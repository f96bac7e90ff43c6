//! Bounded metric heads, conflict rules and sealed chunks.
use vstd::prelude::*;

use crate::codec::same_bytes;
use crate::metric_chunk::TelemetrySignal;
use crate::metric_codec::{fault, MetricFault, NumberValue, TelemetryError};
use crate::metric_point::{
    is_repeat, repeats, DurableMetricPoint, MetricKind, MetricValue,
};
use crate::metric_query::{all_points, checkpoints_of, query_result, MetricQuery};
use crate::metric_sound::{
    not_stored, points_stay_sound, sound, unstored_points_keep_checkpoints,
    unstored_points_leave_no_trace,
};
use crate::record::TopicPartition;

verus! {

broadcast use vstd::seq_lib::group_seq_properties;

/// Accepted delay of a sample behind the latest one of its series.
pub const DEFAULT_OUT_OF_ORDER_NANOS: u64 = 600_000_000_000;

/// Serialized head bytes at which a series is sealed.
pub const DEFAULT_CHUNK_BYTES: usize = 65_536;

/// Points at which a series is sealed.
pub const DEFAULT_CHUNK_POINTS: usize = 4_096;

/// Time span at which a series is sealed.
pub const DEFAULT_CHUNK_NANOS: u64 = 7_200_000_000_000;

/// Ingestion semantics used for same-timestamp sample conflicts.
#[derive(Debug, Clone, Copy, PartialEq, Eq, Structural)]
pub enum MetricIngestProtocol {
    /// OTLP overlaps use highest durable offset with diagnostics.
    Otlp,
    /// Prometheus Remote Write rejects conflicting same-timestamp values.
    RemoteWrite,
}

impl MetricIngestProtocol {
    /// Envelope byte.
    pub open spec fn wire(self) -> u8 {
        match self {
            MetricIngestProtocol::Otlp => 1,
            MetricIngestProtocol::RemoteWrite => 2,
        }
    }

    /// Envelope byte of the protocol.
    pub fn to_wire(self) -> (byte: u8)
        ensures
            byte == self.wire(),
    {
        match self {
            MetricIngestProtocol::Otlp => 1,
            MetricIngestProtocol::RemoteWrite => 2,
        }
    }

    /// Protocol of an envelope byte.
    pub fn from_wire(value: u8) -> (result: Result<Self, TelemetryError>)
        ensures
            match result {
                Ok(protocol) => protocol.wire() == value,
                Err(error) => value != 1 && value != 2 && error == TelemetryError::UnknownProtocol,
            },
    {
        match value {
            1 => Ok(MetricIngestProtocol::Otlp),
            2 => Ok(MetricIngestProtocol::RemoteWrite),
            _ => Err(TelemetryError::UnknownProtocol),
        }
    }
}

/// Result of applying one raw metric point.
#[derive(Debug, Clone, Copy, PartialEq, Eq, Structural)]
pub enum MetricApplyOutcome {
    /// New point inserted.
    Inserted,
    /// Byte-identical retry ignored.
    Duplicate,
    /// OTLP conflict replaced by a higher durable offset.
    Replaced,
    /// Older OTLP conflict ignored.
    Obsolete,
    /// Accepted into the out-of-order delta region.
    OutOfOrder,
}

/// Checkpointed delta-to-cumulative state for PromQL views.
#[derive(Debug, Clone, Copy, PartialEq, Eq, Structural)]
pub struct SeriesAccumulatorCheckpoint {
    /// Canonical series fingerprint.
    pub series: u128,
    /// Logical partition that owns the complete series.
    pub topic_partition: TopicPartition,
    /// Reset generation.
    pub reset_generation: u64,
    /// Latest raw timestamp.
    pub latest_timestamp_unix_nanos: u64,
    /// Exact cumulative value when the series is numeric.
    pub cumulative: Option<NumberValue>,
}

/// Limits at which series are sealed and samples refused.
#[derive(Debug, Clone, Copy, PartialEq, Eq, Structural)]
pub struct MetricLimits {
    /// Accepted delay of a sample.
    pub out_of_order_nanos: u64,
    /// Head bytes at which a series is sealed.
    pub chunk_bytes: usize,
    /// Points at which a series is sealed.
    pub chunk_points: usize,
    /// Time span at which a series is sealed.
    pub chunk_nanos: u64,
}

/// Mutable points of one series.
#[derive(Debug)]
pub struct SeriesHead {
    /// Canonical series fingerprint.
    pub series: u128,
    /// Partition of the series.
    pub topic_partition: TopicPartition,
    /// Canonical identity bytes.
    pub identity: Vec<u8>,
    /// Points in ascending order of timestamp and offset.
    pub points: Vec<DurableMetricPoint>,
    /// Latest timestamp seen.
    pub latest_timestamp: u64,
    /// Serialized bytes of the points.
    pub bytes: usize,
    /// Reset generation of the accumulator.
    pub reset_generation: u64,
    /// Accumulated total.
    pub cumulative: Option<NumberValue>,
    /// Conflicts seen.
    pub conflicts: u64,
}

/// Sealed points of one series.
#[derive(Debug)]
pub struct SealedMetricChunk {
    /// Number of the chunk.
    pub resident_id: u64,
    /// Canonical series fingerprint.
    pub series: u128,
    /// Partition of the series.
    pub topic_partition: TopicPartition,
    /// Points in ascending order of timestamp and offset.
    pub points: Vec<DurableMetricPoint>,
    /// Whether the chunk still awaits publication.
    pub pending: bool,
}

/// Value of a series head.
#[verifier::ext_equal]
pub struct HeadModel {
    /// Canonical series fingerprint.
    pub series: u128,
    /// Partition of the series.
    pub topic_partition: TopicPartition,
    /// Canonical identity bytes.
    pub identity: Seq<u8>,
    /// Points in ascending order.
    pub points: Seq<DurableMetricPoint>,
    /// Latest timestamp seen.
    pub latest: u64,
    /// Reset generation of the accumulator.
    pub reset_generation: u64,
    /// Accumulated total.
    pub cumulative: Option<NumberValue>,
    /// Conflicts seen.
    pub conflicts: u64,
}

/// Value of a sealed chunk.
#[verifier::ext_equal]
pub struct SealedModel {
    /// Number of the chunk.
    pub resident_id: u64,
    /// Canonical series fingerprint.
    pub series: u128,
    /// Partition of the series.
    pub topic_partition: TopicPartition,
    /// Points in ascending order.
    pub points: Seq<DurableMetricPoint>,
    /// Whether the chunk still awaits publication.
    pub pending: bool,
}

impl View for SeriesHead {
    type V = HeadModel;

    open spec fn view(&self) -> HeadModel {
        HeadModel {
            series: self.series,
            topic_partition: self.topic_partition,
            identity: self.identity@,
            points: self.points@,
            latest: self.latest_timestamp,
            reset_generation: self.reset_generation,
            cumulative: self.cumulative,
            conflicts: self.conflicts,
        }
    }
}

impl View for SealedMetricChunk {
    type V = SealedModel;

    open spec fn view(&self) -> SealedModel {
        SealedModel {
            resident_id: self.resident_id,
            series: self.series,
            topic_partition: self.topic_partition,
            points: self.points@,
            pending: self.pending,
        }
    }
}

/// Bounded single-writer metric head and immutable raw chunk collection.
#[derive(Debug)]
pub struct MetricStripe {
    /// Most serialized bytes of all heads.
    pub head_budget_bytes: usize,
    /// Serialized bytes of all heads.
    pub head_bytes: usize,
    /// Sealing and delay limits.
    pub limits: MetricLimits,
    /// One head per series, oldest series first.
    pub series: Vec<SeriesHead>,
    /// Sealed chunks, oldest first.
    pub chunks: Vec<SealedMetricChunk>,
    /// Number of the next chunk.
    pub next_chunk_id: u64,
    /// Accumulators of series that have no head yet.
    pub recovered_accumulators: Vec<SeriesAccumulatorCheckpoint>,
}

/// Value of a metric stripe.
#[verifier::ext_equal]
pub struct StripeModel {
    /// Most serialized bytes of all heads.
    pub budget: nat,
    /// Sealing and delay limits.
    pub limits: MetricLimits,
    /// One head per series.
    pub heads: Seq<HeadModel>,
    /// Sealed chunks.
    pub chunks: Seq<SealedModel>,
    /// Number of the next chunk.
    pub next_chunk_id: u64,
    /// Accumulators of series that have no head yet.
    pub recovered: Seq<SeriesAccumulatorCheckpoint>,
}

/// Values of heads.
pub open spec fn heads_view(heads: Seq<SeriesHead>) -> Seq<HeadModel> {
    heads.map_values(|head: SeriesHead| head@)
}

/// Values of chunks.
pub open spec fn chunks_view(chunks: Seq<SealedMetricChunk>) -> Seq<SealedModel> {
    chunks.map_values(|chunk: SealedMetricChunk| chunk@)
}

impl View for MetricStripe {
    type V = StripeModel;

    open spec fn view(&self) -> StripeModel {
        StripeModel {
            budget: self.head_budget_bytes as nat,
            limits: self.limits,
            heads: heads_view(self.series@),
            chunks: chunks_view(self.chunks@),
            next_chunk_id: self.next_chunk_id,
            recovered: self.recovered_accumulators@,
        }
    }
}

/// Serialized bytes of points.
pub open spec fn bytes_of(points: Seq<DurableMetricPoint>) -> nat
    decreases points.len(),
{
    if points.len() == 0 {
        0
    } else {
        bytes_of(points.drop_last()) + points.last().estimated_head_bytes as nat
    }
}

/// Serialized bytes of all heads.
pub open spec fn total_bytes(heads: Seq<HeadModel>) -> nat
    decreases heads.len(),
{
    if heads.len() == 0 {
        0
    } else {
        total_bytes(heads.drop_last()) + bytes_of(heads.last().points)
    }
}

impl MetricStripe {
    /// The byte counters agree with the points, and stay within the budget.
    pub open spec fn counted(self) -> bool {
        &&& forall|i: int|
            0 <= i < self.series@.len() ==> (#[trigger] self.series@[i]).bytes == bytes_of(
                self.series@[i].points@,
            )
        &&& self.head_bytes == total_bytes(self@.heads)
        &&& self.head_bytes <= self.head_budget_bytes
    }
}

/// Place of the head of a series from `from` on, or the number of heads.
pub open spec fn head_from(heads: Seq<HeadModel>, series: u128, from: int) -> int
    decreases heads.len() - from,
{
    if from >= heads.len() {
        heads.len() as int
    } else if heads[from].series == series {
        from
    } else {
        head_from(heads, series, from + 1)
    }
}

/// Place of a recovered accumulator from `from` on, or their number.
pub open spec fn recovered_from(
    recovered: Seq<SeriesAccumulatorCheckpoint>,
    series: u128,
    from: int,
) -> int
    decreases recovered.len() - from,
{
    if from >= recovered.len() {
        recovered.len() as int
    } else if recovered[from].series == series {
        from
    } else {
        recovered_from(recovered, series, from + 1)
    }
}

/// Place of the head with most bytes among the first `count`; the last such one.
pub open spec fn largest_head(heads: Seq<HeadModel>, count: nat) -> int
    decreases count,
{
    if count <= 1 {
        0
    } else {
        let best = largest_head(heads, (count - 1) as nat);
        if bytes_of(heads[count - 1].points) >= bytes_of(heads[best].points) {
            count - 1
        } else {
            best
        }
    }
}

/// The stripe with the points of one head sealed into a chunk.
pub open spec fn seal_head(stripe: StripeModel, at: int) -> StripeModel {
    let head = stripe.heads[at];
    if at >= stripe.heads.len() || head.points.len() == 0 {
        stripe
    } else {
        StripeModel {
            heads: stripe.heads.update(at, HeadModel { points: Seq::empty(), ..head }),
            chunks: stripe.chunks.push(
                SealedModel {
                    resident_id: stripe.next_chunk_id,
                    series: head.series,
                    topic_partition: head.topic_partition,
                    points: head.points,
                    pending: true,
                },
            ),
            next_chunk_id: stripe.next_chunk_id.saturating_add(1),
            ..stripe
        }
    }
}

/// The points with this timestamp.
pub open spec fn points_at(points: Seq<DurableMetricPoint>, timestamp: u64) -> Seq<
    DurableMetricPoint,
>
    decreases points.len(),
{
    if points.len() == 0 {
        Seq::empty()
    } else if points.last().timestamp_unix_nanos == timestamp {
        points_at(points.drop_last(), timestamp).push(points.last())
    } else {
        points_at(points.drop_last(), timestamp)
    }
}

/// The points without this timestamp.
pub open spec fn points_without(points: Seq<DurableMetricPoint>, timestamp: u64) -> Seq<
    DurableMetricPoint,
>
    decreases points.len(),
{
    if points.len() == 0 {
        Seq::empty()
    } else if points.last().timestamp_unix_nanos == timestamp {
        points_without(points.drop_last(), timestamp)
    } else {
        points_without(points.drop_last(), timestamp).push(points.last())
    }
}

/// The sealed points of a series with this timestamp.
pub open spec fn sealed_at(chunks: Seq<SealedModel>, series: u128, timestamp: u64) -> Seq<
    DurableMetricPoint,
>
    decreases chunks.len(),
{
    if chunks.len() == 0 {
        Seq::empty()
    } else {
        let front = sealed_at(chunks.drop_last(), series, timestamp);
        if chunks.last().series == series {
            front + points_at(chunks.last().points, timestamp)
        } else {
            front
        }
    }
}

/// Order of points: by timestamp, then by offset.
pub open spec fn point_before(a: DurableMetricPoint, b: DurableMetricPoint) -> bool {
    a.timestamp_unix_nanos < b.timestamp_unix_nanos || (a.timestamp_unix_nanos
        == b.timestamp_unix_nanos && a.offset < b.offset)
}

/// Points in ascending order with one more.
pub open spec fn insert_point(points: Seq<DurableMetricPoint>, point: DurableMetricPoint) -> Seq<
    DurableMetricPoint,
>
    decreases points.len(),
{
    if points.len() == 0 || point_before(points.last(), point) {
        points.push(point)
    } else {
        insert_point(points.drop_last(), point).push(points.last())
    }
}

/// Accumulated total and reset generation after a point. `double_sum` holds the
/// bits of the sum of two doubles, where both the total and the point are doubles.
pub open spec fn accumulated(
    cumulative: Option<NumberValue>,
    reset_generation: u64,
    kind: MetricKind,
    value: MetricValue,
    double_sum: u64,
) -> (Option<NumberValue>, u64) {
    match (kind, value) {
        (MetricKind::Sum { temporality, .. }, MetricValue::Sum(number)) => if temporality != 1 {
            (Some(number), reset_generation)
        } else {
            match (cumulative, number) {
                (Some(NumberValue::Integer(left)), NumberValue::Integer(right)) => if i64::MIN
                    <= left + right <= i64::MAX {
                    (Some(NumberValue::Integer((left + right) as i64)), reset_generation)
                } else {
                    (None, reset_generation)
                },
                (Some(NumberValue::DoubleBits(_)), NumberValue::DoubleBits(_)) => (
                    Some(NumberValue::DoubleBits(double_sum)),
                    reset_generation,
                ),
                (None, number) => (Some(number), reset_generation),
                (Some(_), number) => (Some(number), reset_generation.saturating_add(1)),
            }
        },
        _ => (cumulative, reset_generation),
    }
}

/// A head that takes in a point.
pub open spec fn head_with(head: HeadModel, point: DurableMetricPoint, double_sum: u64) -> HeadModel {
    let (cumulative, reset_generation) = accumulated(
        head.cumulative,
        head.reset_generation,
        point.identity.kind,
        point.value,
        double_sum,
    );
    HeadModel {
        points: insert_point(head.points, point),
        latest: if head.latest < point.timestamp_unix_nanos {
            point.timestamp_unix_nanos
        } else {
            head.latest
        },
        cumulative,
        reset_generation,
        ..head
    }
}

/// What a head makes of a point, given the sealed points with its timestamp.
pub open spec fn head_apply(
    head: HeadModel,
    point: DurableMetricPoint,
    sealed: Seq<DurableMetricPoint>,
    protocol: MetricIngestProtocol,
    window: u64,
    double_sum: u64,
) -> (HeadModel, Result<MetricApplyOutcome, TelemetryError>) {
    let same = points_at(head.points, point.timestamp_unix_nanos) + sealed;
    if point.timestamp_unix_nanos.saturating_add(window) < head.latest {
        (head, Err(TelemetryError::OutsideWindow))
    } else if exists|i: int| 0 <= i < same.len() && repeats(#[trigger] same[i], point) {
        (head, Ok(MetricApplyOutcome::Duplicate))
    } else if same.len() == 0 {
        (
            head_with(head, point, double_sum),
            Ok(
                if point.timestamp_unix_nanos < head.latest {
                    MetricApplyOutcome::OutOfOrder
                } else {
                    MetricApplyOutcome::Inserted
                },
            ),
        )
    } else if protocol == MetricIngestProtocol::RemoteWrite {
        (
            head,
            Err(
                TelemetryError::MetricSampleConflict {
                    series: point.series,
                    timestamp_unix_nanos: point.timestamp_unix_nanos,
                },
            ),
        )
    } else {
        let noted = HeadModel { conflicts: head.conflicts.saturating_add(1), ..head };
        if exists|i: int| 0 <= i < same.len() && (#[trigger] same[i]).offset >= point.offset {
            (noted, Ok(MetricApplyOutcome::Obsolete))
        } else {
            let cleared = HeadModel {
                points: points_without(head.points, point.timestamp_unix_nanos),
                ..noted
            };
            (head_with(cleared, point, double_sum), Ok(MetricApplyOutcome::Replaced))
        }
    }
}

/// A head for the first point of a series, which goes on from a recovered
/// accumulator where there is one.
pub open spec fn new_head(
    point: DurableMetricPoint,
    recovered: Option<SeriesAccumulatorCheckpoint>,
) -> HeadModel {
    HeadModel {
        series: point.series,
        topic_partition: point.topic_partition,
        identity: point.identity.canonical(),
        points: Seq::empty(),
        latest: match recovered {
            Some(checkpoint) => checkpoint.latest_timestamp_unix_nanos,
            None => point.timestamp_unix_nanos,
        },
        reset_generation: match recovered {
            Some(checkpoint) => checkpoint.reset_generation,
            None => 0,
        },
        cumulative: match recovered {
            Some(checkpoint) => checkpoint.cumulative,
            None => None,
        },
        conflicts: 0,
    }
}

/// Whether a head has reached a sealing limit.
pub open spec fn head_is_full(head: HeadModel, limits: MetricLimits) -> bool {
    ||| head.points.len() >= limits.chunk_points
    ||| bytes_of(head.points) >= limits.chunk_bytes
    ||| head.points.len() > 0 && head.latest.saturating_sub(head.points[0].timestamp_unix_nanos)
        >= limits.chunk_nanos
}

/// What a stripe makes of a point once there is room for it.
pub open spec fn accept_point(
    stripe: StripeModel,
    point: DurableMetricPoint,
    protocol: MetricIngestProtocol,
    double_sum: u64,
) -> (StripeModel, Result<MetricApplyOutcome, TelemetryError>) {
    let r = recovered_from(stripe.recovered, point.series, 0);
    let found = r < stripe.recovered.len();
    if found && stripe.recovered[r].topic_partition != point.topic_partition {
        (stripe, Err(fault(MetricFault::AccumulatorPartition)))
    } else {
        let recovered = if found {
            Some(stripe.recovered[r])
        } else {
            None
        };
        let left = if found {
            stripe.recovered.remove(r)
        } else {
            stripe.recovered
        };
        let at = head_from(stripe.heads, point.series, 0);
        let heads = if at < stripe.heads.len() {
            stripe.heads
        } else {
            stripe.heads.push(new_head(point, recovered))
        };
        let (head, result) = head_apply(
            heads[at],
            point,
            sealed_at(stripe.chunks, point.series, point.timestamp_unix_nanos),
            protocol,
            stripe.limits.out_of_order_nanos,
            double_sum,
        );
        let next = StripeModel { heads: heads.update(at, head), recovered: left, ..stripe };
        let stored = match result {
            Ok(MetricApplyOutcome::Inserted) => true,
            Ok(MetricApplyOutcome::OutOfOrder) => true,
            Ok(MetricApplyOutcome::Replaced) => true,
            _ => false,
        };
        if stored && head_is_full(head, stripe.limits) {
            (seal_head(next, at), result)
        } else {
            (next, result)
        }
    }
}

/// The stripe with its largest head sealed where a point would not fit.
pub open spec fn make_room(stripe: StripeModel, bytes: nat) -> StripeModel {
    if total_bytes(stripe.heads) + bytes > stripe.budget && stripe.heads.len() > 0 {
        seal_head(stripe, largest_head(stripe.heads, stripe.heads.len()))
    } else {
        stripe
    }
}

/// What a stripe makes of a point.
pub open spec fn apply_point(
    stripe: StripeModel,
    point: DurableMetricPoint,
    protocol: MetricIngestProtocol,
    double_sum: u64,
) -> (StripeModel, Result<MetricApplyOutcome, TelemetryError>) {
    let at = head_from(stripe.heads, point.series, 0);
    if point.signal != TelemetrySignal::Metrics {
        (stripe, Err(fault(MetricFault::WrongSignal)))
    } else if at < stripe.heads.len() && (stripe.heads[at].identity != point.identity.canonical()
        || stripe.heads[at].topic_partition != point.topic_partition) {
        (stripe, Err(fault(MetricFault::FingerprintCollision)))
    } else if point.estimated_head_bytes > stripe.budget {
        (stripe, Err(TelemetryError::RecordTooLarge))
    } else {
        let room = make_room(stripe, point.estimated_head_bytes as nat);
        if total_bytes(room.heads) + point.estimated_head_bytes > stripe.budget {
            (room, Err(TelemetryError::HeadBudgetExhausted))
        } else {
            accept_point(room, point, protocol, double_sum)
        }
    }
}

pub proof fn lemma_head_from(heads: Seq<HeadModel>, series: u128, from: int)
    requires
        0 <= from,
    ensures
        head_from(heads, series, from) <= heads.len(),
        from <= heads.len() ==> head_from(heads, series, from) >= from,
        head_from(heads, series, from) < heads.len() ==> heads[head_from(
            heads,
            series,
            from,
        )].series == series,
        forall|i: int|
            from <= i < head_from(heads, series, from) ==> (#[trigger] heads[i]).series != series,
    decreases heads.len() - from,
{
    if from < heads.len() && heads[from].series != series {
        lemma_head_from(heads, series, from + 1);
    }
}

pub proof fn lemma_recovered_from(recovered: Seq<SeriesAccumulatorCheckpoint>, series: u128, from: int)
    requires
        0 <= from,
    ensures
        recovered_from(recovered, series, from) <= recovered.len(),
        from <= recovered.len() ==> recovered_from(recovered, series, from) >= from,
        recovered_from(recovered, series, from) < recovered.len() ==> recovered[recovered_from(
            recovered,
            series,
            from,
        )].series == series,
        forall|i: int|
            from <= i < recovered_from(recovered, series, from) ==> (
            #[trigger] recovered[i]).series != series,
    decreases recovered.len() - from,
{
    if from < recovered.len() && recovered[from].series != series {
        lemma_recovered_from(recovered, series, from + 1);
    }
}

pub proof fn lemma_largest_head(heads: Seq<HeadModel>, count: nat)
    requires
        0 < count <= heads.len(),
    ensures
        0 <= largest_head(heads, count) < count,
        forall|i: int|
            0 <= i < count ==> bytes_of((#[trigger] heads[i]).points) <= bytes_of(
                heads[largest_head(heads, count)].points,
            ),
    decreases count,
{
    if count > 1 {
        lemma_largest_head(heads, (count - 1) as nat);
    }
}

pub proof fn lemma_total_update(heads: Seq<HeadModel>, at: int, head: HeadModel)
    requires
        0 <= at < heads.len(),
    ensures
        total_bytes(heads.update(at, head)) == total_bytes(heads) - bytes_of(heads[at].points)
            + bytes_of(head.points),
    decreases heads.len(),
{
    let front = heads.drop_last();
    let updated = heads.update(at, head);
    if at == heads.len() - 1 {
        assert(updated.drop_last() =~= front);
    } else {
        lemma_total_update(front, at, head);
        assert(updated.drop_last() =~= front.update(at, head));
    }
}

proof fn lemma_total_part(heads: Seq<HeadModel>, at: int)
    requires
        0 <= at < heads.len(),
    ensures
        bytes_of(heads[at].points) <= total_bytes(heads),
    decreases heads.len(),
{
    if at < heads.len() - 1 {
        lemma_total_part(heads.drop_last(), at);
    }
}

proof fn lemma_insert_point_bytes(points: Seq<DurableMetricPoint>, point: DurableMetricPoint)
    ensures
        bytes_of(insert_point(points, point)) == bytes_of(points) + point.estimated_head_bytes,
        insert_point(points, point).len() == points.len() + 1,
    decreases points.len(),
{
    let result = insert_point(points, point);
    if points.len() == 0 || point_before(points.last(), point) {
        assert(result.drop_last() =~= points);
    } else {
        lemma_insert_point_bytes(points.drop_last(), point);
        assert(result.drop_last() =~= insert_point(points.drop_last(), point));
    }
}

proof fn lemma_without_bytes(points: Seq<DurableMetricPoint>, timestamp: u64)
    ensures
        bytes_of(points_without(points, timestamp)) <= bytes_of(points),
    decreases points.len(),
{
    if points.len() > 0 {
        let front = points.drop_last();
        lemma_without_bytes(front, timestamp);
        if points.last().timestamp_unix_nanos != timestamp {
            let kept = points_without(front, timestamp);
            assert(kept.push(points.last()).drop_last() =~= kept);
        }
    }
}

proof fn lemma_bytes_remove(points: Seq<DurableMetricPoint>, at: int)
    requires
        0 <= at < points.len(),
    ensures
        bytes_of(points.remove(at)) + points[at].estimated_head_bytes == bytes_of(points),
    decreases points.len(),
{
    let front = points.drop_last();
    if at == points.len() - 1 {
        assert(points.remove(at) =~= front);
    } else {
        lemma_bytes_remove(front, at);
        assert(points.remove(at).drop_last() =~= front.remove(at));
    }
}

proof fn lemma_without_remove(points: Seq<DurableMetricPoint>, timestamp: u64, at: int)
    requires
        0 <= at < points.len(),
        points[at].timestamp_unix_nanos == timestamp,
    ensures
        points_without(points.remove(at), timestamp) == points_without(points, timestamp),
    decreases points.len(),
{
    let front = points.drop_last();
    if at == points.len() - 1 {
        assert(points.remove(at) =~= front);
    } else {
        lemma_without_remove(front, timestamp, at);
        assert(points.remove(at).drop_last() =~= front.remove(at));
        assert(points.remove(at).last() == points.last());
    }
}

proof fn lemma_without_none(points: Seq<DurableMetricPoint>, timestamp: u64)
    requires
        forall|i: int|
            0 <= i < points.len() ==> (#[trigger] points[i]).timestamp_unix_nanos != timestamp,
    ensures
        points_without(points, timestamp) == points,
    decreases points.len(),
{
    if points.len() > 0 {
        let front = points.drop_last();
        assert forall|i: int| 0 <= i < front.len() implies (
        #[trigger] front[i]).timestamp_unix_nanos != timestamp by {
            assert(front[i] == points[i]);
        }
        lemma_without_none(front, timestamp);
        assert(points[points.len() - 1].timestamp_unix_nanos != timestamp);
        assert(front.push(points.last()) =~= points);
    } else {
        assert(points_without(points, timestamp) =~= points);
    }
}

/// Removes the points with a timestamp; gives their serialized bytes.
fn remove_points_at(points: &mut Vec<DurableMetricPoint>, timestamp: u64, total: usize) -> (left:
    usize)
    requires
        total == bytes_of(old(points)@),
    ensures
        final(points)@ == points_without(old(points)@, timestamp),
        left == bytes_of(final(points)@),
        left <= total,
{
    let ghost before = points@;
    let mut left: usize = total;
    let mut index: usize = 0;
    while index < points.len()
        invariant
            index <= points@.len(),
            left == bytes_of(points@),
            left <= total,
            points_without(points@, timestamp) == points_without(before, timestamp),
            forall|i: int|
                0 <= i < index ==> (#[trigger] points@[i]).timestamp_unix_nanos != timestamp,
        decreases points@.len() - index,
    {
        if points[index].timestamp_unix_nanos == timestamp {
            let ghost current = points@;
            proof {
                lemma_bytes_remove(current, index as int);
                lemma_without_remove(current, timestamp, index as int);
            }
            let removed = points.remove(index);
            left = left - removed.estimated_head_bytes;
            proof {
                assert forall|i: int| 0 <= i < index implies (
                #[trigger] points@[i]).timestamp_unix_nanos != timestamp by {
                    assert(points@[i] == current[i]);
                }
            }
        } else {
            index = index + 1;
        }
    }
    proof {
        lemma_without_none(points@, timestamp);
    }
    left
}

proof fn lemma_insert_point_at(points: Seq<DurableMetricPoint>, point: DurableMetricPoint, at: int)
    requires
        0 <= at <= points.len(),
        forall|i: int| at <= i < points.len() ==> !point_before(#[trigger] points[i], point),
        at > 0 ==> point_before(points[at - 1], point),
    ensures
        insert_point(points, point) == points.insert(at, point),
    decreases points.len(),
{
    if at == points.len() {
        assert(insert_point(points, point) =~= points.insert(at, point));
    } else {
        let front = points.drop_last();
        assert(!point_before(points[points.len() - 1], point));
        assert forall|i: int| at <= i < front.len() implies !point_before(
            #[trigger] front[i],
            point,
        ) by {
            assert(front[i] == points[i]);
        }
        lemma_insert_point_at(front, point, at);
        assert(insert_point(points, point) =~= points.insert(at, point));
    }
}

/// Inserts a point at its place.
fn insert_in_order(points: &mut Vec<DurableMetricPoint>, point: DurableMetricPoint)
    ensures
        final(points)@ == insert_point(old(points)@, point),
{
    let ghost before = points@;
    let mut at: usize = points.len();
    while at > 0 && !(points[at - 1].timestamp_unix_nanos < point.timestamp_unix_nanos || (
    points[at - 1].timestamp_unix_nanos == point.timestamp_unix_nanos && points[at - 1].offset
        < point.offset))
        invariant
            at <= points@.len(),
            points@ == before,
            forall|i: int| at <= i < before.len() ==> !point_before(#[trigger] before[i], point),
        decreases at,
    {
        at = at - 1;
    }
    proof {
        lemma_insert_point_at(before, point, at as int);
    }
    points.insert(at, point);
}

/// Total and reset generation after a point.
fn accumulate(
    cumulative: Option<NumberValue>,
    reset_generation: u64,
    kind: MetricKind,
    value: &MetricValue,
    double_sum: u64,
) -> (result: (Option<NumberValue>, u64))
    ensures
        result == accumulated(cumulative, reset_generation, kind, *value, double_sum),
{
    match (kind, value) {
        (MetricKind::Sum { temporality, monotonic: _ }, MetricValue::Sum(number)) => {
            if temporality != 1 {
                return (Some(*number), reset_generation);
            }
            match (cumulative, *number) {
                (Some(NumberValue::Integer(left)), NumberValue::Integer(right)) => match left.checked_add(
                    right,
                ) {
                    Some(sum) => (Some(NumberValue::Integer(sum)), reset_generation),
                    None => (None, reset_generation),
                },
                (Some(NumberValue::DoubleBits(_)), NumberValue::DoubleBits(_)) => (
                    Some(NumberValue::DoubleBits(double_sum)),
                    reset_generation,
                ),
                (None, number) => (Some(number), reset_generation),
                (Some(_), number) => (Some(number), reset_generation.saturating_add(1)),
            }
        },
        _ => (cumulative, reset_generation),
    }
}

proof fn lemma_points_at_members(points: Seq<DurableMetricPoint>, timestamp: u64)
    ensures
        forall|i: int|
            0 <= i < points.len() && (#[trigger] points[i]).timestamp_unix_nanos == timestamp
                ==> points_at(points, timestamp).contains(points[i]),
        forall|i: int|
            0 <= i < points_at(points, timestamp).len() ==> {
                let got = #[trigger] points_at(points, timestamp)[i];
                got.timestamp_unix_nanos == timestamp && points.contains(got)
            },
    decreases points.len(),
{
    if points.len() > 0 {
        let front = points.drop_last();
        let last = points.last();
        let found = points_at(points, timestamp);
        let early = points_at(front, timestamp);
        lemma_points_at_members(front, timestamp);
        assert forall|i: int|
            0 <= i < points.len() && (#[trigger] points[i]).timestamp_unix_nanos
                == timestamp implies found.contains(points[i]) by {
            if i < front.len() {
                assert(front[i] == points[i]);
                let k = choose|k: int| 0 <= k < early.len() && early[k] == points[i];
                assert(found[k] == points[i]);
            } else {
                assert(found[found.len() - 1] == last);
            }
        }
        assert forall|i: int| 0 <= i < found.len() implies {
            let got = #[trigger] found[i];
            got.timestamp_unix_nanos == timestamp && points.contains(got)
        } by {
            if i < early.len() {
                assert(found[i] == early[i]);
                let k = choose|k: int| 0 <= k < front.len() && front[k] == early[i];
                assert(points[k] == found[i]);
            } else {
                assert(points[points.len() - 1] == last);
            }
        }
    }
}

/// What is found among points with the timestamp of a point.
struct SameTimestamp {
    any: bool,
    repeat: bool,
    not_below: bool,
}

/// What holds of a list of points with one timestamp.
spec fn same_summary(same: Seq<DurableMetricPoint>, point: DurableMetricPoint) -> SameTimestamp {
    SameTimestamp {
        any: same.len() > 0,
        repeat: exists|i: int| 0 <= i < same.len() && repeats(#[trigger] same[i], point),
        not_below: exists|i: int|
            0 <= i < same.len() && (#[trigger] same[i]).offset >= point.offset,
    }
}

proof fn lemma_summary_concat(
    first: Seq<DurableMetricPoint>,
    second: Seq<DurableMetricPoint>,
    point: DurableMetricPoint,
)
    ensures
        ({
            let whole = same_summary(first + second, point);
            let a = same_summary(first, point);
            let b = same_summary(second, point);
            &&& whole.any == (a.any || b.any)
            &&& whole.repeat == (a.repeat || b.repeat)
            &&& whole.not_below == (a.not_below || b.not_below)
        }),
{
    let whole = first + second;
    assert forall|i: int| 0 <= i < first.len() implies whole[i] == #[trigger] first[i] by {}
    assert forall|i: int| 0 <= i < second.len() implies whole[first.len() + i]
        == #[trigger] second[i] by {}
    assert forall|i: int| 0 <= i < whole.len() implies (#[trigger] whole[i]) == if i < first.len() {
        first[i]
    } else {
        second[i - first.len()]
    } by {}
}

/// Looks through points for those with the timestamp of a point.
fn scan_points(points: &Vec<DurableMetricPoint>, point: &DurableMetricPoint) -> (found:
    SameTimestamp)
    ensures
        found == same_summary(points_at(points@, point.timestamp_unix_nanos), *point),
{
    let mut any = false;
    let mut repeat = false;
    let mut not_below = false;
    let mut index: usize = 0;
    proof {
        assert(points@.subrange(0, 0) =~= Seq::<DurableMetricPoint>::empty());
    }
    while index < points.len()
        invariant
            index <= points@.len(),
            (SameTimestamp { any, repeat, not_below }) == same_summary(
                points_at(points@.subrange(0, index as int), point.timestamp_unix_nanos),
                *point,
            ),
        decreases points@.len() - index,
    {
        let ghost front = points_at(
            points@.subrange(0, index as int),
            point.timestamp_unix_nanos,
        );
        proof {
            let part = points@.subrange(0, index + 1);
            assert(part.drop_last() =~= points@.subrange(0, index as int));
            assert(part.last() == points@[index as int]);
            let one = seq![points@[index as int]];
            assert(front + one =~= front.push(points@[index as int]));
            lemma_summary_concat(front, one, *point);
            assert(one[0] == points@[index as int]);
        }
        let existing = &points[index];
        if existing.timestamp_unix_nanos == point.timestamp_unix_nanos {
            any = true;
            if is_repeat(existing, point) {
                repeat = true;
            }
            if existing.offset >= point.offset {
                not_below = true;
            }
        }
        index = index + 1;
    }
    proof {
        assert(points@.subrange(0, index as int) =~= points@);
    }
    SameTimestamp { any, repeat, not_below }
}

/// Looks through the chunks of a series for points with the timestamp of a point.
fn scan_chunks(chunks: &Vec<SealedMetricChunk>, point: &DurableMetricPoint) -> (found:
    SameTimestamp)
    ensures
        found == same_summary(
            sealed_at(chunks_view(chunks@), point.series, point.timestamp_unix_nanos),
            *point,
        ),
{
    let ghost all = chunks_view(chunks@);
    let mut any = false;
    let mut repeat = false;
    let mut not_below = false;
    let mut index: usize = 0;
    proof {
        assert(all.subrange(0, 0) =~= Seq::<SealedModel>::empty());
    }
    while index < chunks.len()
        invariant
            index <= chunks@.len(),
            all == chunks_view(chunks@),
            (SameTimestamp { any, repeat, not_below }) == same_summary(
                sealed_at(
                    all.subrange(0, index as int),
                    point.series,
                    point.timestamp_unix_nanos,
                ),
                *point,
            ),
        decreases chunks@.len() - index,
    {
        let chunk = &chunks[index];
        proof {
            let part = all.subrange(0, index + 1);
            assert(part.drop_last() =~= all.subrange(0, index as int));
            assert(part.last() == chunk@);
            lemma_summary_concat(
                sealed_at(
                    all.subrange(0, index as int),
                    point.series,
                    point.timestamp_unix_nanos,
                ),
                points_at(chunk.points@, point.timestamp_unix_nanos),
                *point,
            );
        }
        if chunk.series == point.series {
            let found = scan_points(&chunk.points, point);
            any = any || found.any;
            repeat = repeat || found.repeat;
            not_below = not_below || found.not_below;
        }
        index = index + 1;
    }
    proof {
        assert(all.subrange(0, index as int) =~= all);
    }
    SameTimestamp { any, repeat, not_below }
}

impl SeriesHead {
    /// Takes in a point, given what was found among the sealed points with its
    /// timestamp.
    fn apply(
        &mut self,
        point: DurableMetricPoint,
        sealed: SameTimestamp,
        sealed_points: Ghost<Seq<DurableMetricPoint>>,
        protocol: MetricIngestProtocol,
        window: u64,
        double_sum: u64,
    ) -> (result: Result<MetricApplyOutcome, TelemetryError>)
        requires
            old(self).bytes == bytes_of(old(self).points@),
            old(self).bytes + point.estimated_head_bytes <= usize::MAX,
            sealed == same_summary(sealed_points@, point),
        ensures
            final(self).bytes == bytes_of(final(self).points@),
            bytes_of(final(self).points@) <= bytes_of(old(self).points@)
                + point.estimated_head_bytes,
            (final(self)@, result) == head_apply(
                old(self)@,
                point,
                sealed_points@,
                protocol,
                window,
                double_sum,
            ),
    {
        let ghost before = self@;
        let timestamp: u64 = point.timestamp_unix_nanos;
        if timestamp.saturating_add(window) < self.latest_timestamp {
            return Err(TelemetryError::OutsideWindow);
        }
        let found = scan_points(&self.points, &point);
        let ghost same = points_at(before.points, timestamp) + sealed_points@;
        proof {
            lemma_summary_concat(points_at(before.points, timestamp), sealed_points@, point);
            assert(same_summary(same, point).repeat == (exists|i: int|
                0 <= i < same.len() && repeats(#[trigger] same[i], point)));
            assert(same_summary(same, point).not_below == (exists|i: int|
                0 <= i < same.len() && (#[trigger] same[i]).offset >= point.offset));
        }
        if found.repeat || sealed.repeat {
            return Ok(MetricApplyOutcome::Duplicate);
        }
        let conflict = found.any || sealed.any;
        let outcome;
        if conflict {
            if protocol == MetricIngestProtocol::RemoteWrite {
                return Err(
                    TelemetryError::MetricSampleConflict {
                        series: point.series,
                        timestamp_unix_nanos: timestamp,
                    },
                );
            }
            self.conflicts = self.conflicts.saturating_add(1);
            if found.not_below || sealed.not_below {
                return Ok(MetricApplyOutcome::Obsolete);
            }
            self.bytes = remove_points_at(&mut self.points, timestamp, self.bytes);
            outcome = MetricApplyOutcome::Replaced;
        } else if timestamp < self.latest_timestamp {
            outcome = MetricApplyOutcome::OutOfOrder;
        } else {
            outcome = MetricApplyOutcome::Inserted;
        }
        proof {
            lemma_without_bytes(before.points, timestamp);
            lemma_insert_point_bytes(self.points@, point);
        }
        if self.latest_timestamp < timestamp {
            self.latest_timestamp = timestamp;
        }
        let (cumulative, reset_generation) = accumulate(
            self.cumulative,
            self.reset_generation,
            point.identity.kind,
            &point.value,
            double_sum,
        );
        self.cumulative = cumulative;
        self.reset_generation = reset_generation;
        self.bytes = self.bytes + point.estimated_head_bytes;
        insert_in_order(&mut self.points, point);
        Ok(outcome)
    }

    /// Whether the head has reached a sealing limit.
    fn is_full(&self, limits: MetricLimits) -> (full: bool)
        requires
            self.bytes == bytes_of(self.points@),
        ensures
            full == head_is_full(self@, limits),
    {
        self.points.len() >= limits.chunk_points || self.bytes >= limits.chunk_bytes || (
        self.points.len() > 0 && self.latest_timestamp.saturating_sub(
            self.points[0].timestamp_unix_nanos,
        ) >= limits.chunk_nanos)
    }
}

impl MetricStripe {
    /// Creates a bounded metric stripe using production chunk and OOO limits.
    pub fn new(head_budget_bytes: usize) -> (result: Result<Self, TelemetryError>)
        ensures
            match result {
                Ok(stripe) => head_budget_bytes > 0 && stripe.counted() && sound(stripe@) && stripe@
                    == (StripeModel {
                    budget: head_budget_bytes as nat,
                    limits: MetricLimits {
                        out_of_order_nanos: DEFAULT_OUT_OF_ORDER_NANOS,
                        chunk_bytes: DEFAULT_CHUNK_BYTES,
                        chunk_points: DEFAULT_CHUNK_POINTS,
                        chunk_nanos: DEFAULT_CHUNK_NANOS,
                    },
                    heads: Seq::empty(),
                    chunks: Seq::empty(),
                    next_chunk_id: 1,
                    recovered: Seq::empty(),
                }),
                Err(error) => head_budget_bytes == 0 && error == TelemetryError::ZeroHeadBudget,
            },
    {
        if head_budget_bytes == 0 {
            return Err(TelemetryError::ZeroHeadBudget);
        }
        let stripe = MetricStripe {
            head_budget_bytes,
            head_bytes: 0,
            limits: MetricLimits {
                out_of_order_nanos: DEFAULT_OUT_OF_ORDER_NANOS,
                chunk_bytes: DEFAULT_CHUNK_BYTES,
                chunk_points: DEFAULT_CHUNK_POINTS,
                chunk_nanos: DEFAULT_CHUNK_NANOS,
            },
            series: Vec::new(),
            chunks: Vec::new(),
            next_chunk_id: 1,
            recovered_accumulators: Vec::new(),
        };
        proof {
            assert(heads_view(stripe.series@) =~= Seq::<HeadModel>::empty());
            assert(chunks_view(stripe.chunks@) =~= Seq::<SealedModel>::empty());
        }
        Ok(stripe)
    }

    /// Returns current head memory accounting.
    pub fn head_bytes(&self) -> (bytes: usize)
        requires
            self.counted(),
        ensures
            bytes == total_bytes(self@.heads),
            bytes <= self@.budget,
    {
        self.head_bytes
    }

    /// Place of the head of a series, or the number of heads.
    fn find_head(&self, series: u128) -> (at: usize)
        ensures
            at == head_from(self@.heads, series, 0),
            at <= self.series@.len(),
    {
        let mut at: usize = 0;
        while at < self.series.len() && self.series[at].series != series
            invariant
                at <= self.series@.len(),
                head_from(self@.heads, series, 0) == head_from(self@.heads, series, at as int),
            decreases self.series@.len() - at,
        {
            at = at + 1;
        }
        at
    }

    /// Seals the points of one head into a chunk.
    pub(crate) fn seal_at(&mut self, at: usize)
        requires
            old(self).counted(),
            at < old(self).series@.len(),
        ensures
            final(self).counted(),
            final(self)@ == seal_head(old(self)@, at as int),
            total_bytes(final(self)@.heads) <= total_bytes(old(self)@.heads),
    {
        let ghost before = self@;
        let ghost raw = self.series@;
        if self.series[at].points.len() == 0 {
            return;
        }
        proof {
            lemma_total_part(before.heads, at as int);
            assert(before.heads[at as int] == raw[at as int]@);
            let emptied = HeadModel { points: Seq::empty(), ..before.heads[at as int] };
            lemma_total_update(before.heads, at as int, emptied);
        }
        let mut points: Vec<DurableMetricPoint> = Vec::new();
        core::mem::swap(&mut points, &mut self.series[at].points);
        self.head_bytes = self.head_bytes - self.series[at].bytes;
        self.series[at].bytes = 0;
        let chunk = SealedMetricChunk {
            resident_id: self.next_chunk_id,
            series: self.series[at].series,
            topic_partition: self.series[at].topic_partition,
            points,
            pending: true,
        };
        proof {
            assert(self@.heads =~= before.heads.update(
                at as int,
                HeadModel { points: Seq::empty(), ..before.heads[at as int] },
            ));
            assert(chunks_view(self.chunks@.push(chunk)) =~= before.chunks.push(chunk@));
        }
        self.chunks.push(chunk);
        self.next_chunk_id = self.next_chunk_id.saturating_add(1);
        proof {
            assert forall|i: int| 0 <= i < self.series@.len() implies (
            #[trigger] self.series@[i]).bytes == bytes_of(self.series@[i].points@) by {
                if i != at {
                    assert(self.series@[i] == raw[i]);
                }
            }
        }
    }

    /// Seals the head with most bytes.
    fn seal_largest_head(&mut self)
        requires
            old(self).counted(),
        ensures
            final(self).counted(),
            final(self)@ == if old(self)@.heads.len() > 0 {
                seal_head(old(self)@, largest_head(old(self)@.heads, old(self)@.heads.len()))
            } else {
                old(self)@
            },
    {
        if self.series.len() == 0 {
            return;
        }
        let mut best: usize = 0;
        let mut index: usize = 1;
        while index < self.series.len()
            invariant
                self.counted(),
                self@ == old(self)@,
                1 <= index <= self.series@.len(),
                best < index,
                best == largest_head(self@.heads, index as nat),
            decreases self.series@.len() - index,
        {
            proof {
                assert(self@.heads[index as int] == self.series@[index as int]@);
                assert(self@.heads[best as int] == self.series@[best as int]@);
            }
            if self.series[index].bytes >= self.series[best].bytes {
                best = index;
            }
            index = index + 1;
        }
        self.seal_at(best);
    }

    /// Applies one raw metric point under OTLP or Remote Write conflict rules.
    ///
    /// `double_sum` holds the bits of the sum of the series' total and the point's
    /// value; it is used only where both are doubles.
    ///
    /// A point that is not stored changes neither what queries find nor the accumulator
    /// checkpoints.
    pub fn apply(
        &mut self,
        point: DurableMetricPoint,
        protocol: MetricIngestProtocol,
        double_sum: u64,
    ) -> (result: Result<MetricApplyOutcome, TelemetryError>)
        requires
            old(self).counted(),
        ensures
            final(self).counted(),
            (final(self)@, result) == apply_point(old(self)@, point, protocol, double_sum),
            sound(old(self)@) ==> sound(final(self)@),
            sound(old(self)@) && not_stored(result) && all_points(old(self)@).len() <= usize::MAX
                ==> forall|query: MetricQuery| #[trigger]
                query_result(final(self)@, query) == query_result(old(self)@, query),
            sound(old(self)@) && not_stored(result) ==> forall|partition: Option<TopicPartition>| #[trigger]
                checkpoints_of(final(self)@, partition) == checkpoints_of(old(self)@, partition),
    {
        let ghost start = self@;
        let ghost sample = point;
        let result = self.take_in(point, protocol, double_sum);
        proof {
            if sound(start) {
                points_stay_sound(start, sample, protocol, double_sum);
                if not_stored(result) {
                    let next = self@;
                    assert forall|partition: Option<TopicPartition>| #[trigger]
                        checkpoints_of(next, partition) == checkpoints_of(start, partition) by {
                        unstored_points_keep_checkpoints(
                            start,
                            sample,
                            protocol,
                            double_sum,
                            partition,
                        );
                    }
                    if all_points(start).len() <= usize::MAX {
                        assert forall|query: MetricQuery| #[trigger] query_result(next, query)
                            == query_result(start, query) by {
                            unstored_points_leave_no_trace(
                                start,
                                sample,
                                protocol,
                                double_sum,
                                query,
                            );
                        }
                    }
                }
            }
        }
        result
    }

    /// Takes in a point, or refuses it.
    fn take_in(
        &mut self,
        point: DurableMetricPoint,
        protocol: MetricIngestProtocol,
        double_sum: u64,
    ) -> (result: Result<MetricApplyOutcome, TelemetryError>)
        requires
            old(self).counted(),
        ensures
            final(self).counted(),
            (final(self)@, result) == apply_point(old(self)@, point, protocol, double_sum),
    {
        if point.signal != TelemetrySignal::Metrics {
            return Err(TelemetryError::InvalidBlockEncoding(MetricFault::WrongSignal));
        }
        let ghost start = self@;
        let identity = point.identity.canonical_bytes();
        let at: usize = self.find_head(point.series);
        if at < self.series.len() {
            proof {
                assert(self@.heads[at as int] == self.series@[at as int]@);
            }
            if !same_bytes(&self.series[at].identity, &identity)
                || self.series[at].topic_partition != point.topic_partition {
                return Err(TelemetryError::InvalidBlockEncoding(MetricFault::FingerprintCollision));
            }
        }
        let estimated: usize = point.estimated_head_bytes;
        if estimated > self.head_budget_bytes {
            return Err(TelemetryError::RecordTooLarge);
        }
        if estimated > self.head_budget_bytes - self.head_bytes {
            self.seal_largest_head();
        }
        proof {
            if start.heads.len() > 0 {
                lemma_largest_head(start.heads, start.heads.len());
            }
            assert(self@ == make_room(start, estimated as nat));
            lemma_room_keeps_series(start, estimated as nat, point.series);
        }
        if estimated > self.head_budget_bytes - self.head_bytes {
            return Err(TelemetryError::HeadBudgetExhausted);
        }
        self.accept(point, identity, at, protocol, double_sum)
    }

    /// Takes in a point for which there is room.
    fn accept(
        &mut self,
        point: DurableMetricPoint,
        identity: Vec<u8>,
        at: usize,
        protocol: MetricIngestProtocol,
        double_sum: u64,
    ) -> (result: Result<MetricApplyOutcome, TelemetryError>)
        requires
            old(self).counted(),
            identity@ == point.identity.canonical(),
            at == head_from(old(self)@.heads, point.series, 0),
            old(self).head_bytes + point.estimated_head_bytes <= old(self).head_budget_bytes,
        ensures
            final(self).counted(),
            (final(self)@, result) == accept_point(old(self)@, point, protocol, double_sum),
    {
        let ghost start = self@;
        let mut place: usize = 0;
        while place < self.recovered_accumulators.len()
            && self.recovered_accumulators[place].series != point.series
            invariant
                place <= self.recovered_accumulators@.len(),
                recovered_from(self.recovered_accumulators@, point.series, 0) == recovered_from(
                    self.recovered_accumulators@,
                    point.series,
                    place as int,
                ),
            decreases self.recovered_accumulators@.len() - place,
        {
            place = place + 1;
        }
        let mut recovered: Option<SeriesAccumulatorCheckpoint> = None;
        if place < self.recovered_accumulators.len() {
            if self.recovered_accumulators[place].topic_partition != point.topic_partition {
                return Err(TelemetryError::InvalidBlockEncoding(MetricFault::AccumulatorPartition));
            }
            recovered = Some(self.recovered_accumulators.remove(place));
        }
        proof {
            lemma_head_from(start.heads, point.series, 0);
        }
        let sealed = scan_chunks(&self.chunks, &point);
        let ghost sealed_points = sealed_at(
            start.chunks,
            point.series,
            point.timestamp_unix_nanos,
        );
        if at == self.series.len() {
            let head = SeriesHead {
                series: point.series,
                topic_partition: point.topic_partition,
                identity,
                points: Vec::new(),
                latest_timestamp: match &recovered {
                    Some(checkpoint) => checkpoint.latest_timestamp_unix_nanos,
                    None => point.timestamp_unix_nanos,
                },
                bytes: 0,
                reset_generation: match &recovered {
                    Some(checkpoint) => checkpoint.reset_generation,
                    None => 0,
                },
                cumulative: match &recovered {
                    Some(checkpoint) => checkpoint.cumulative,
                    None => None,
                },
                conflicts: 0,
            };
            proof {
                assert(head@ =~= new_head(point, recovered));
                assert(heads_view(self.series@.push(head)) =~= start.heads.push(head@));
                assert(start.heads.push(head@).drop_last() =~= start.heads);
            }
            self.series.push(head);
        }
        let ghost raw = self.series@;
        let ghost heads = heads_view(raw);
        proof {
            lemma_total_part(heads, at as int);
            assert(heads[at as int] == raw[at as int]@);
        }
        let old_bytes: usize = self.series[at].bytes;
        let result = self.series[at].apply(
            point,
            sealed,
            Ghost(sealed_points),
            protocol,
            self.limits.out_of_order_nanos,
            double_sum,
        );
        proof {
            let head = self.series@[at as int]@;
            lemma_total_update(heads, at as int, head);
            assert(heads_view(self.series@) =~= heads.update(at as int, head));
            assert forall|i: int| 0 <= i < self.series@.len() implies (
            #[trigger] self.series@[i]).bytes == bytes_of(self.series@[i].points@) by {
                if i != at {
                    assert(self.series@[i] == raw[i]);
                }
            }
        }
        self.head_bytes = self.head_bytes - old_bytes + self.series[at].bytes;
        let stored = match &result {
            Ok(MetricApplyOutcome::Inserted) => true,
            Ok(MetricApplyOutcome::OutOfOrder) => true,
            Ok(MetricApplyOutcome::Replaced) => true,
            _ => false,
        };
        if stored && self.series[at].is_full(self.limits) {
            self.seal_at(at);
        }
        result
    }
}

/// Sealing a head moves no head.
pub proof fn lemma_room_keeps_series(stripe: StripeModel, bytes: nat, series: u128)
    ensures
        head_from(make_room(stripe, bytes).heads, series, 0) == head_from(stripe.heads, series, 0),
{
    let room = make_room(stripe, bytes);
    if stripe.heads.len() > 0 {
        lemma_largest_head(stripe.heads, stripe.heads.len());
    }
    lemma_same_series(stripe.heads, room.heads, series, 0);
}

/// Heads with the same series have the same places.
pub proof fn lemma_same_series(left: Seq<HeadModel>, right: Seq<HeadModel>, series: u128, from: int)
    requires
        0 <= from,
        left.len() == right.len(),
        forall|i: int| 0 <= i < left.len() ==> (#[trigger] left[i]).series == right[i].series,
    ensures
        head_from(left, series, from) == head_from(right, series, from),
    decreases left.len() - from,
{
    if from < left.len() && left[from].series != series {
        lemma_same_series(left, right, series, from + 1);
    }
}

} // verus!
