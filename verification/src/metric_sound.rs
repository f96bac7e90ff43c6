//! The invariant of metric stripes, and what follows from it: answers that depend on the
//! stored points alone.
use vstd::prelude::*;

use crate::metric_chunk::TelemetrySignal;
use crate::metric_codec::TelemetryError;
use crate::metric_laws::{holds, lemma_insert, lemma_points_at_contains, sealing_keeps_points};
use crate::metric_point::{repeats, DurableMetricPoint};
use crate::metric_publish::{sealed_partition, unpublished};
use crate::metric_query::{
    add_winner, all_points, checkpoints_of, chunk_points, covered, durable_keys, head_checkpoint,
    head_points, heads_in, in_answer_order, lemma_winner_from, one_per_slot, point_series,
    query_result, restored, restored_one, same_slot, selects, winners_have_highest_offsets,
    winners_with, MetricQuery,
};
use crate::metric_stripe::{
    apply_point, head_apply, head_from, insert_point, largest_head, lemma_head_from,
    lemma_largest_head, lemma_recovered_from, lemma_room_keeps_series, lemma_same_series,
    make_room, new_head, point_before, points_at, points_without, recovered_from, seal_head, sealed_at, total_bytes,
    HeadModel, MetricApplyOutcome, MetricIngestProtocol, SealedModel, SeriesAccumulatorCheckpoint,
    StripeModel,
};
use crate::order::{arranged, comes_before, lemma_order_exists, listed, order_of};
use crate::record::{TopicId, TopicPartition};

verus! {

broadcast use vstd::seq_lib::group_seq_properties;

/// Series are accounted for once: those of chunks have a head, and those whose accumulator
/// waits for a first point have none.
pub open spec fn accounted(stripe: StripeModel) -> bool {
    &&& forall|i: int|
        0 <= i < stripe.chunks.len() ==> head_from(
            stripe.heads,
            (#[trigger] stripe.chunks[i]).series,
            0,
        ) < stripe.heads.len()
    &&& forall|i: int|
        0 <= i < stripe.recovered.len() ==> head_from(
            stripe.heads,
            (#[trigger] stripe.recovered[i]).series,
            0,
        ) >= stripe.heads.len()
    &&& forall|i: int, j: int|
        0 <= i < j < stripe.recovered.len() ==> (#[trigger] stripe.recovered[i]).series != (
        #[trigger] stripe.recovered[j]).series
    &&& forall|i: int, j: int|
        0 <= i < j < stripe.heads.len() ==> (#[trigger] stripe.heads[i]).series != (
        #[trigger] stripe.heads[j]).series
}

/// Heads and chunks hold points of their own series.
pub open spec fn homed(stripe: StripeModel) -> bool {
    &&& forall|i: int, k: int|
        0 <= i < stripe.heads.len() && 0 <= k < stripe.heads[i].points.len() ==> (
        #[trigger] stripe.heads[i].points[k]).series == stripe.heads[i].series
    &&& forall|i: int, k: int|
        0 <= i < stripe.chunks.len() && 0 <= k < stripe.chunks[i].points.len() ==> (
        #[trigger] stripe.chunks[i].points[k]).series == stripe.chunks[i].series
}

/// Samples of one series, time and offset are one sample.
pub open spec fn settled(stripe: StripeModel) -> bool {
    forall|a: DurableMetricPoint, b: DurableMetricPoint|
        #[trigger] holds(stripe, a) && #[trigger] holds(stripe, b) && same_slot(a, b) && a.offset
            == b.offset ==> a == b
}

/// The invariant of a stripe: every series has its place, every point lies with its series,
/// and the offset tells the samples of one series and time apart.
pub open spec fn sound(stripe: StripeModel) -> bool {
    accounted(stripe) && homed(stripe) && settled(stripe)
}

/// One more head is found only where no earlier one has its series.
proof fn lemma_head_pushed(heads: Seq<HeadModel>, head: HeadModel, series: u128, from: int)
    requires
        0 <= from <= heads.len(),
    ensures
        head_from(heads, series, from) < heads.len() ==> head_from(heads.push(head), series, from)
            == head_from(heads, series, from),
        head_from(heads, series, from) >= heads.len() ==> head_from(heads.push(head), series, from)
            == if head.series == series {
            heads.len() as int
        } else {
            heads.len() + 1int
        },
    decreases heads.len() - from,
{
    if from < heads.len() {
        assert(heads.push(head)[from] == heads[from]);
        lemma_head_pushed(heads, head, series, from + 1);
    } else {
        assert(heads.push(head)[from] == head);
        assert(head_from(heads.push(head), series, from + 1) == heads.len() + 1);
    }
}

proof fn lemma_seal_accounted(stripe: StripeModel, at: int)
    requires
        accounted(stripe),
        0 <= at < stripe.heads.len(),
    ensures
        accounted(seal_head(stripe, at)),
{
    let next = seal_head(stripe, at);
    assert forall|series: u128| #[trigger] head_from(next.heads, series, 0) == head_from(
        stripe.heads,
        series,
        0,
    ) by {
        lemma_same_series(next.heads, stripe.heads, series, 0);
    }
    assert forall|i: int| 0 <= i < next.chunks.len() implies head_from(
        next.heads,
        (#[trigger] next.chunks[i]).series,
        0,
    ) < next.heads.len() by {
        if i < stripe.chunks.len() {
            assert(next.chunks[i] == stripe.chunks[i]);
        } else {
            lemma_found_before(stripe.heads, at, 0);
        }
    }
}

proof fn lemma_found_before(heads: Seq<HeadModel>, at: int, from: int)
    requires
        0 <= from <= at < heads.len(),
    ensures
        head_from(heads, heads[at].series, from) <= at,
    decreases heads.len() - from,
{
    if heads[from].series != heads[at].series {
        lemma_found_before(heads, at, from + 1);
    }
}

proof fn lemma_room_accounted(stripe: StripeModel, bytes: nat)
    requires
        accounted(stripe),
    ensures
        accounted(make_room(stripe, bytes)),
{
    if stripe.heads.len() > 0 {
        lemma_largest_head(stripe.heads, stripe.heads.len());
        lemma_seal_accounted(stripe, largest_head(stripe.heads, stripe.heads.len()));
    }
}

/// Taking in a point keeps every series accounted for.
pub proof fn series_stay_accounted(
    stripe: StripeModel,
    point: DurableMetricPoint,
    protocol: MetricIngestProtocol,
    double_sum: u64,
)
    requires
        accounted(stripe),
    ensures
        accounted(apply_point(stripe, point, protocol, double_sum).0),
{
    let room = make_room(stripe, point.estimated_head_bytes as nat);
    lemma_room_accounted(stripe, point.estimated_head_bytes as nat);
    let r = recovered_from(room.recovered, point.series, 0);
    lemma_recovered_from(room.recovered, point.series, 0);
    let found = r < room.recovered.len();
    let left = if found {
        room.recovered.remove(r)
    } else {
        room.recovered
    };
    let recovered = if found {
        Some(room.recovered[r])
    } else {
        None
    };
    let at = head_from(room.heads, point.series, 0);
    lemma_head_from(room.heads, point.series, 0);
    let heads = if at < room.heads.len() {
        room.heads
    } else {
        room.heads.push(new_head(point, recovered))
    };
    let head = head_apply(
        heads[at],
        point,
        sealed_at(room.chunks, point.series, point.timestamp_unix_nanos),
        protocol,
        room.limits.out_of_order_nanos,
        double_sum,
    ).0;
    let next = StripeModel { heads: heads.update(at, head), recovered: left, ..room };
    assert(accounted(next)) by {
        assert(head.series == heads[at].series);
        assert forall|series: u128| #[trigger] head_from(next.heads, series, 0) == head_from(
            heads,
            series,
            0,
        ) by {
            lemma_same_series(next.heads, heads, series, 0);
        }
        assert forall|i: int| 0 <= i < next.chunks.len() implies head_from(
            next.heads,
            (#[trigger] next.chunks[i]).series,
            0,
        ) < next.heads.len() by {
            assert(head_from(room.heads, room.chunks[i].series, 0) < room.heads.len());
            lemma_head_pushed(
                room.heads,
                new_head(point, recovered),
                room.chunks[i].series,
                0,
            );
        }
        assert forall|i: int| 0 <= i < left.len() implies head_from(
            next.heads,
            (#[trigger] left[i]).series,
            0,
        ) >= next.heads.len() by {
            let k = if found && i >= r {
                i + 1
            } else {
                i
            };
            assert(left[i] == room.recovered[k]);
            assert(head_from(room.heads, room.recovered[k].series, 0) >= room.heads.len());
            lemma_head_pushed(room.heads, new_head(point, recovered), left[i].series, 0);
            lemma_head_from(room.heads, left[i].series, 0);
            if found {
                assert(room.recovered[k].series != room.recovered[r].series);
            } else {
                assert(room.recovered[k].series != point.series);
            }
        }
        assert forall|i: int, j: int| 0 <= i < j < left.len() implies (
        #[trigger] left[i]).series != (#[trigger] left[j]).series by {
            let a = if found && i >= r {
                i + 1
            } else {
                i
            };
            let b = if found && j >= r {
                j + 1
            } else {
                j
            };
            assert(left[i] == room.recovered[a] && left[j] == room.recovered[b]);
        }
    }
    lemma_seal_accounted(next, at);
}

/// Restoring an accumulator keeps every series accounted for.
pub proof fn restoring_keeps_accounts(
    stripe: StripeModel,
    checkpoint: SeriesAccumulatorCheckpoint,
    metrics_topic: TopicId,
)
    requires
        accounted(stripe),
    ensures
        accounted(restored_one(stripe, checkpoint, metrics_topic).0),
{
    let next = restored_one(stripe, checkpoint, metrics_topic).0;
    let at = head_from(stripe.heads, checkpoint.series, 0);
    let r = recovered_from(stripe.recovered, checkpoint.series, 0);
    lemma_head_from(stripe.heads, checkpoint.series, 0);
    lemma_recovered_from(stripe.recovered, checkpoint.series, 0);
    assert forall|series: u128| #[trigger] head_from(next.heads, series, 0) == head_from(
        stripe.heads,
        series,
        0,
    ) by {
        lemma_same_series(next.heads, stripe.heads, series, 0);
    }
    assert(next.recovered == stripe.recovered || next.recovered == stripe.recovered.push(
        checkpoint,
    ) || next.recovered == stripe.recovered.update(r, checkpoint));
    assert forall|i: int| 0 <= i < next.recovered.len() implies head_from(
        next.heads,
        (#[trigger] next.recovered[i]).series,
        0,
    ) >= next.heads.len() by {
        if i < stripe.recovered.len() {
            assert(next.recovered[i].series == stripe.recovered[i].series);
        }
    }
    assert forall|i: int, j: int| 0 <= i < j < next.recovered.len() implies (
    #[trigger] next.recovered[i]).series != (#[trigger] next.recovered[j]).series by {
        assert(next.recovered[i].series == stripe.recovered[i].series);
        if j < stripe.recovered.len() {
            assert(next.recovered[j].series == stripe.recovered[j].series);
        }
    }
}

proof fn lemma_left_contained(chunks: Seq<SealedModel>, published: Seq<u64>, i: int)
    requires
        0 <= i < unpublished(chunks, published).len(),
    ensures
        chunks.contains(unpublished(chunks, published)[i]),
    decreases chunks.len(),
{
    reveal(Seq::filter);
    if chunks.len() > 0 {
        let front = chunks.drop_last();
        let left = unpublished(front, published);
        if i < left.len() {
            lemma_left_contained(front, published, i);
            let k = choose|k: int| 0 <= k < front.len() && front[k] == left[i];
            assert(chunks[k] == left[i]);
        } else {
            assert(chunks[chunks.len() - 1] == unpublished(chunks, published)[i]);
        }
    }
}

/// Points of a time are those points that have it.
proof fn lemma_points_at_members(
    points: Seq<DurableMetricPoint>,
    timestamp: u64,
    sample: DurableMetricPoint,
)
    ensures
        points_at(points, timestamp).contains(sample) <==> points.contains(sample)
            && sample.timestamp_unix_nanos == timestamp,
    decreases points.len(),
{
    lemma_points_at_contains(points, timestamp);
    if points.contains(sample) && sample.timestamp_unix_nanos == timestamp {
        let k = choose|k: int| 0 <= k < points.len() && points[k] == sample;
        assert(points_at(points, timestamp).contains(points[k]));
    }
    if points.len() > 0 {
        let front = points.drop_last();
        let early = points_at(front, timestamp);
        let all = points_at(points, timestamp);
        lemma_points_at_members(front, timestamp, sample);
        if all.contains(sample) {
            let k = choose|k: int| 0 <= k < all.len() && all[k] == sample;
            if k < early.len() {
                assert(early[k] == sample);
                assert(front.contains(sample));
                let m = choose|m: int| 0 <= m < front.len() && front[m] == sample;
                assert(points[m] == sample);
            } else {
                assert(points[points.len() - 1] == sample);
            }
        }
    }
}

/// Whether a chunk of a series holds a sample of a time.
spec fn chunk_sample(
    chunk: SealedModel,
    series: u128,
    timestamp: u64,
    sample: DurableMetricPoint,
) -> bool {
    chunk.series == series && chunk.points.contains(sample) && sample.timestamp_unix_nanos
        == timestamp
}

/// Sealed points of a series and time are those that its chunks hold.
proof fn lemma_sealed_at_members(
    chunks: Seq<SealedModel>,
    series: u128,
    timestamp: u64,
    sample: DurableMetricPoint,
)
    ensures
        sealed_at(chunks, series, timestamp).contains(sample) <==> exists|k: int|
            0 <= k < chunks.len() && chunk_sample(
                #[trigger] chunks[k],
                series,
                timestamp,
                sample,
            ),
    decreases chunks.len(),
{
    if chunks.len() > 0 {
        let front = chunks.drop_last();
        let last = chunks.last();
        let early = sealed_at(front, series, timestamp);
        let late = points_at(last.points, timestamp);
        let all = sealed_at(chunks, series, timestamp);
        lemma_sealed_at_members(front, series, timestamp, sample);
        lemma_points_at_members(last.points, timestamp, sample);
        if early.contains(sample) {
            let k = choose|k: int|
                0 <= k < front.len() && chunk_sample(
                    #[trigger] front[k],
                    series,
                    timestamp,
                    sample,
                );
            assert(chunks[k] == front[k]);
            let m = choose|m: int| 0 <= m < early.len() && early[m] == sample;
            assert(all[m] == sample);
        }
        if last.series == series && late.contains(sample) {
            assert(chunk_sample(chunks[chunks.len() - 1], series, timestamp, sample));
            let m = choose|m: int| 0 <= m < late.len() && late[m] == sample;
            assert(all[early.len() + m] == sample);
        }
        if all.contains(sample) && !early.contains(sample) {
            let m = choose|m: int| 0 <= m < all.len() && all[m] == sample;
            if m < early.len() {
                assert(early[m] == sample);
            }
            assert(late[m - early.len()] == sample);
        }
        if exists|k: int|
            0 <= k < chunks.len() && chunk_sample(
                #[trigger] chunks[k],
                series,
                timestamp,
                sample,
            ) {
            let k = choose|k: int|
                0 <= k < chunks.len() && chunk_sample(
                    #[trigger] chunks[k],
                    series,
                    timestamp,
                    sample,
                );
            if k < front.len() {
                assert(front[k] == chunks[k]);
            }
        }
    }
}

/// Whether a stripe holds a sample of the series and time of a point, in a head or sealed.
pub open spec fn sample_beside(
    stripe: StripeModel,
    point: DurableMetricPoint,
    sample: DurableMetricPoint,
) -> bool {
    holds(stripe, sample) && same_slot(sample, point)
}

/// The samples that a point is held against.
spec fn samples_beside(stripe: StripeModel, point: DurableMetricPoint) -> Seq<DurableMetricPoint> {
    let at = head_from(stripe.heads, point.series, 0);
    let hot = if at < stripe.heads.len() {
        points_at(stripe.heads[at].points, point.timestamp_unix_nanos)
    } else {
        Seq::empty()
    };
    hot + sealed_at(stripe.chunks, point.series, point.timestamp_unix_nanos)
}

/// A point is held against all samples of its series and time.
proof fn lemma_samples_beside(
    stripe: StripeModel,
    point: DurableMetricPoint,
    sample: DurableMetricPoint,
)
    requires
        accounted(stripe),
        homed(stripe),
    ensures
        samples_beside(stripe, point).contains(sample) <==> sample_beside(stripe, point, sample),
{
    let at = head_from(stripe.heads, point.series, 0);
    let time = point.timestamp_unix_nanos;
    let cold = sealed_at(stripe.chunks, point.series, time);
    let hot = if at < stripe.heads.len() {
        points_at(stripe.heads[at].points, time)
    } else {
        Seq::empty()
    };
    let all = samples_beside(stripe, point);
    lemma_head_from(stripe.heads, point.series, 0);
    lemma_sealed_at_members(stripe.chunks, point.series, time, sample);
    if at < stripe.heads.len() {
        lemma_points_at_members(stripe.heads[at].points, time, sample);
    }
    if hot.contains(sample) {
        let m = choose|m: int| 0 <= m < hot.len() && hot[m] == sample;
        assert(all[m] == sample);
        let k = choose|k: int|
            0 <= k < stripe.heads[at].points.len() && stripe.heads[at].points[k] == sample;
        assert(stripe.heads[at].points[k].series == stripe.heads[at].series);
        assert(holds(stripe, sample));
    }
    if cold.contains(sample) {
        let m = choose|m: int| 0 <= m < cold.len() && cold[m] == sample;
        assert(all[hot.len() + m] == sample);
        let k = choose|k: int|
            0 <= k < stripe.chunks.len() && chunk_sample(
                #[trigger] stripe.chunks[k],
                point.series,
                time,
                sample,
            );
        let n = choose|n: int|
            0 <= n < stripe.chunks[k].points.len() && stripe.chunks[k].points[n] == sample;
        assert(stripe.chunks[k].points[n].series == stripe.chunks[k].series);
        assert(holds(stripe, sample));
    }
    if all.contains(sample) {
        let m = choose|m: int| 0 <= m < all.len() && all[m] == sample;
        if m < hot.len() {
            assert(hot[m] == sample);
        } else {
            assert(cold[m - hot.len()] == sample);
        }
    }
    if sample_beside(stripe, point, sample) {
        if exists|i: int|
            0 <= i < stripe.heads.len() && (#[trigger] stripe.heads[i]).points.contains(sample) {
            let i = choose|i: int|
                0 <= i < stripe.heads.len() && (#[trigger] stripe.heads[i]).points.contains(
                    sample,
                );
            let k = choose|k: int|
                0 <= k < stripe.heads[i].points.len() && stripe.heads[i].points[k] == sample;
            assert(stripe.heads[i].points[k].series == stripe.heads[i].series);
            if i < at {
                assert(stripe.heads[i].series != point.series);
            } else if at < i {
                assert(stripe.heads[at].series != stripe.heads[i].series);
            }
            assert(hot.contains(sample));
        } else {
            let i = choose|i: int|
                0 <= i < stripe.chunks.len() && (#[trigger] stripe.chunks[i]).points.contains(
                    sample,
                );
            let k = choose|k: int|
                0 <= k < stripe.chunks[i].points.len() && stripe.chunks[i].points[k] == sample;
            assert(stripe.chunks[i].points[k].series == stripe.chunks[i].series);
            assert(chunk_sample(stripe.chunks[i], point.series, time, sample));
            assert(cold.contains(sample));
        }
    }
}

proof fn lemma_seal_sound(stripe: StripeModel, at: int)
    requires
        homed(stripe),
        settled(stripe),
        0 <= at < stripe.heads.len(),
    ensures
        homed(seal_head(stripe, at)),
        settled(seal_head(stripe, at)),
{
    let next = seal_head(stripe, at);
    assert(homed(next)) by {
        assert forall|i: int, k: int|
            0 <= i < next.heads.len() && 0 <= k < next.heads[i].points.len() implies (
        #[trigger] next.heads[i].points[k]).series == next.heads[i].series by {
            assert(stripe.heads[i].points[k].series == stripe.heads[i].series);
        }
        assert forall|i: int, k: int|
            0 <= i < next.chunks.len() && 0 <= k < next.chunks[i].points.len() implies (
        #[trigger] next.chunks[i].points[k]).series == next.chunks[i].series by {
            if i < stripe.chunks.len() {
                assert(next.chunks[i] == stripe.chunks[i]);
                assert(stripe.chunks[i].points[k].series == stripe.chunks[i].series);
            } else {
                assert(stripe.heads[at].points[k].series == stripe.heads[at].series);
            }
        }
    }
    assert forall|a: DurableMetricPoint, b: DurableMetricPoint|
        #[trigger] holds(next, a) && #[trigger] holds(next, b) && same_slot(a, b) && a.offset
            == b.offset implies a == b by {
        sealing_keeps_points(stripe, at, a);
        sealing_keeps_points(stripe, at, b);
    }
}

proof fn lemma_room_sound(stripe: StripeModel, bytes: nat)
    requires
        sound(stripe),
    ensures
        sound(make_room(stripe, bytes)),
{
    lemma_room_accounted(stripe, bytes);
    if stripe.heads.len() > 0 {
        lemma_largest_head(stripe.heads, stripe.heads.len());
        lemma_seal_sound(stripe, largest_head(stripe.heads, stripe.heads.len()));
    }
}

proof fn lemma_without_members(points: Seq<DurableMetricPoint>, timestamp: u64)
    ensures
        forall|k: int|
            0 <= k < points_without(points, timestamp).len() ==> points.contains(
                #[trigger] points_without(points, timestamp)[k],
            ),
    decreases points.len(),
{
    if points.len() > 0 {
        let front = points.drop_last();
        let left = points_without(points, timestamp);
        lemma_without_members(front, timestamp);
        assert forall|k: int| 0 <= k < left.len() implies points.contains(#[trigger] left[k]) by {
            if k < points_without(front, timestamp).len() {
                assert(front.contains(points_without(front, timestamp)[k]));
                let m = choose|m: int| 0 <= m < front.len() && front[m] == left[k];
                assert(points[m] == left[k]);
            } else {
                assert(points[points.len() - 1] == left[k]);
            }
        }
    }
}

/// A head gains no other point than the one it takes in, and that one only where it is above
/// all samples beside it.
proof fn lemma_head_apply_members(
    head: HeadModel,
    point: DurableMetricPoint,
    sealed: Seq<DurableMetricPoint>,
    protocol: MetricIngestProtocol,
    window: u64,
    double_sum: u64,
)
    ensures
        ({
            let after = head_apply(head, point, sealed, protocol, window, double_sum).0;
            let same = points_at(head.points, point.timestamp_unix_nanos) + sealed;
            &&& after.series == head.series
            &&& forall|k: int|
                0 <= k < after.points.len() ==> {
                    let got = #[trigger] after.points[k];
                    head.points.contains(got) || got == point
                }
            &&& after.points == head.points || forall|k: int|
                0 <= k < same.len() ==> (#[trigger] same[k]).offset < point.offset
        }),
{
    let left = points_without(head.points, point.timestamp_unix_nanos);
    let after = head_apply(head, point, sealed, protocol, window, double_sum).0;
    lemma_insert(head.points, point);
    lemma_insert(left, point);
    lemma_without_members(head.points, point.timestamp_unix_nanos);
    assert forall|k: int| 0 <= k < after.points.len() implies {
        let got = #[trigger] after.points[k];
        head.points.contains(got) || got == point
    } by {
        let got = after.points[k];
        if after.points == head.points {
            assert(head.points.contains(got));
        } else if after.points == insert_point(left, point) && got != point {
            assert(left.contains(got));
            let m = choose|m: int| 0 <= m < left.len() && left[m] == got;
            assert(head.points.contains(left[m]));
        }
    }
}

/// Taking in a point keeps the invariant.
pub proof fn points_stay_sound(
    stripe: StripeModel,
    point: DurableMetricPoint,
    protocol: MetricIngestProtocol,
    double_sum: u64,
)
    requires
        sound(stripe),
    ensures
        sound(apply_point(stripe, point, protocol, double_sum).0),
{
    let room = make_room(stripe, point.estimated_head_bytes as nat);
    series_stay_accounted(stripe, point, protocol, double_sum);
    lemma_room_sound(stripe, point.estimated_head_bytes as nat);
    let r = recovered_from(room.recovered, point.series, 0);
    let found = r < room.recovered.len();
    let left = if found {
        room.recovered.remove(r)
    } else {
        room.recovered
    };
    let recovered = if found {
        Some(room.recovered[r])
    } else {
        None
    };
    let at = head_from(room.heads, point.series, 0);
    lemma_head_from(room.heads, point.series, 0);
    let heads = if at < room.heads.len() {
        room.heads
    } else {
        room.heads.push(new_head(point, recovered))
    };
    let sealed = sealed_at(room.chunks, point.series, point.timestamp_unix_nanos);
    let head = head_apply(
        heads[at],
        point,
        sealed,
        protocol,
        room.limits.out_of_order_nanos,
        double_sum,
    ).0;
    lemma_head_apply_members(
        heads[at],
        point,
        sealed,
        protocol,
        room.limits.out_of_order_nanos,
        double_sum,
    );
    let next = StripeModel { heads: heads.update(at, head), recovered: left, ..room };
    let same = samples_beside(room, point);
    assert(points_at(heads[at].points, point.timestamp_unix_nanos) + sealed =~= same);
    assert(homed(next)) by {
        assert forall|i: int, k: int|
            0 <= i < next.heads.len() && 0 <= k < next.heads[i].points.len() implies (
        #[trigger] next.heads[i].points[k]).series == next.heads[i].series by {
            let got = next.heads[i].points[k];
            if i == at {
                if got != point {
                    let m = choose|m: int|
                        0 <= m < heads[at].points.len() && heads[at].points[m] == got;
                    assert(room.heads[at].points[m].series == room.heads[at].series);
                }
            } else {
                assert(next.heads[i] == room.heads[i]);
                assert(room.heads[i].points[k].series == room.heads[i].series);
            }
        }
        assert forall|i: int, k: int|
            0 <= i < next.chunks.len() && 0 <= k < next.chunks[i].points.len() implies (
        #[trigger] next.chunks[i].points[k]).series == next.chunks[i].series by {
            assert(room.chunks[i].points[k].series == room.chunks[i].series);
        }
    }
    assert forall|got: DurableMetricPoint| #[trigger] holds(next, got) implies holds(room, got)
        || (got == point && head.points != heads[at].points) by {
        if exists|i: int|
            0 <= i < next.heads.len() && (#[trigger] next.heads[i]).points.contains(got) {
            let i = choose|i: int|
                0 <= i < next.heads.len() && (#[trigger] next.heads[i]).points.contains(got);
            if i != at {
                assert(next.heads[i] == room.heads[i]);
                assert(room.heads[i].points.contains(got));
            } else {
                let k = choose|k: int| 0 <= k < head.points.len() && head.points[k] == got;
                if heads[at].points.contains(got) {
                    assert(at < room.heads.len());
                    assert(room.heads[at].points.contains(got));
                } else {
                    assert(head.points[k] == point);
                }
            }
        } else {
            let i = choose|i: int|
                0 <= i < next.chunks.len() && (#[trigger] next.chunks[i]).points.contains(got);
            assert(room.chunks[i].points.contains(got));
        }
    }
    assert(settled(next)) by {
        assert forall|a: DurableMetricPoint, b: DurableMetricPoint|
            #[trigger] holds(next, a) && #[trigger] holds(next, b) && same_slot(a, b) && a.offset
                == b.offset implies a == b by {
            if !holds(room, a) && holds(room, b) {
                lemma_samples_beside(room, point, b);
                let k = choose|k: int| 0 <= k < same.len() && same[k] == b;
                assert(same[k].offset < point.offset);
            } else if holds(room, a) && !holds(room, b) {
                lemma_samples_beside(room, point, a);
                let k = choose|k: int| 0 <= k < same.len() && same[k] == a;
                assert(same[k].offset < point.offset);
            }
        }
    }
    lemma_seal_sound(next, at);
}

/// Stripes that hold fewer points, or the same, are settled where these are.
proof fn lemma_fewer_settled(stripe: StripeModel, next: StripeModel)
    requires
        settled(stripe),
        forall|point: DurableMetricPoint| #[trigger] holds(next, point) ==> holds(stripe, point),
    ensures
        settled(next),
{
    assert forall|a: DurableMetricPoint, b: DurableMetricPoint|
        #[trigger] holds(next, a) && #[trigger] holds(next, b) && same_slot(a, b) && a.offset
            == b.offset implies a == b by {
        assert(holds(stripe, a) && holds(stripe, b));
    }
}

/// Restoring accumulators keeps the invariant.
pub proof fn restored_stay_sound(
    stripe: StripeModel,
    checkpoints: Seq<SeriesAccumulatorCheckpoint>,
    metrics_topic: TopicId,
)
    requires
        sound(stripe),
    ensures
        sound(restored(stripe, checkpoints, metrics_topic).0),
    decreases checkpoints.len(),
{
    if checkpoints.len() > 0 {
        let front = checkpoints.drop_last();
        let last = checkpoints.last();
        restored_stay_sound(stripe, front, metrics_topic);
        let before = restored(stripe, front, metrics_topic).0;
        let next = restored_one(before, last, metrics_topic).0;
        restoring_keeps_accounts(before, last, metrics_topic);
        lemma_head_from(before.heads, last.series, 0);
        assert forall|i: int| 0 <= i < next.heads.len() implies (#[trigger] next.heads[i]).points
            == before.heads[i].points && next.heads[i].series == before.heads[i].series by {}
        assert(homed(next)) by {
            assert forall|i: int, k: int|
                0 <= i < next.heads.len() && 0 <= k < next.heads[i].points.len() implies (
            #[trigger] next.heads[i].points[k]).series == next.heads[i].series by {
                assert(before.heads[i].points[k].series == before.heads[i].series);
            }
        }
        assert forall|point: DurableMetricPoint| #[trigger] holds(next, point) implies holds(
            before,
            point,
        ) by {
            if exists|i: int|
                0 <= i < next.heads.len() && (#[trigger] next.heads[i]).points.contains(point) {
                let i = choose|i: int|
                    0 <= i < next.heads.len() && (#[trigger] next.heads[i]).points.contains(point);
                assert(before.heads[i].points.contains(point));
            }
        }
        lemma_fewer_settled(before, next);
    }
}

/// Sealing the heads of a partition keeps the invariant.
pub proof fn sealed_stay_sound(stripe: StripeModel, partition: TopicPartition, count: nat)
    requires
        sound(stripe),
        count <= stripe.heads.len(),
    ensures
        sound(sealed_partition(stripe, partition, count)),
        sealed_partition(stripe, partition, count).heads.len() == stripe.heads.len(),
    decreases count,
{
    if count > 0 {
        sealed_stay_sound(stripe, partition, (count - 1) as nat);
        let before = sealed_partition(stripe, partition, (count - 1) as nat);
        lemma_seal_accounted(before, count - 1);
        lemma_seal_sound(before, count - 1);
    }
}

/// Releasing published chunks keeps the invariant.
pub proof fn released_stay_sound(stripe: StripeModel, published: Seq<u64>)
    requires
        sound(stripe),
    ensures
        sound(StripeModel { chunks: unpublished(stripe.chunks, published), ..stripe }),
{
    let next = StripeModel { chunks: unpublished(stripe.chunks, published), ..stripe };
    let left = next.chunks;
    assert forall|i: int| 0 <= i < left.len() implies stripe.chunks.contains(
        #[trigger] left[i],
    ) by {
        lemma_left_contained(stripe.chunks, published, i);
    }
    assert(accounted(next)) by {
        assert forall|i: int| 0 <= i < left.len() implies head_from(
            stripe.heads,
            (#[trigger] left[i]).series,
            0,
        ) < stripe.heads.len() by {
            let k = choose|k: int| 0 <= k < stripe.chunks.len() && stripe.chunks[k] == left[i];
            assert(head_from(stripe.heads, stripe.chunks[k].series, 0) < stripe.heads.len());
        }
    }
    assert(homed(next)) by {
        assert forall|i: int, k: int|
            0 <= i < next.heads.len() && 0 <= k < next.heads[i].points.len() implies (
        #[trigger] next.heads[i].points[k]).series == next.heads[i].series by {
            assert(stripe.heads[i].points[k].series == stripe.heads[i].series);
        }
        assert forall|i: int, k: int|
            0 <= i < left.len() && 0 <= k < left[i].points.len() implies (
        #[trigger] left[i].points[k]).series == left[i].series by {
            let m = choose|m: int| 0 <= m < stripe.chunks.len() && stripe.chunks[m] == left[i];
            assert(stripe.chunks[m].points[k].series == stripe.chunks[m].series);
        }
    }
    assert forall|point: DurableMetricPoint| #[trigger] holds(next, point) implies holds(
        stripe,
        point,
    ) by {
        if exists|i: int|
            0 <= i < next.heads.len() && (#[trigger] next.heads[i]).points.contains(point) {
            let i = choose|i: int|
                0 <= i < next.heads.len() && (#[trigger] next.heads[i]).points.contains(point);
            assert(stripe.heads[i].points.contains(point));
        } else {
            let i = choose|i: int|
                0 <= i < left.len() && (#[trigger] left[i]).points.contains(point);
            let m = choose|m: int| 0 <= m < stripe.chunks.len() && stripe.chunks[m] == left[i];
            assert(stripe.chunks[m].points.contains(point));
        }
    }
    lemma_fewer_settled(stripe, next);
}

/// What becomes of a further sample of a known series and time, whether the samples beside it
/// are sealed or not: one that repeats a stored sample is a duplicate under either protocol.
/// Any other one is a conflict under Remote Write; else it replaces the stored samples where
/// its offset is above all of theirs, and is obsolete where it is not.
pub proof fn samples_beside_decide(
    stripe: StripeModel,
    point: DurableMetricPoint,
    protocol: MetricIngestProtocol,
    double_sum: u64,
)
    requires
        sound(stripe),
        point.signal == TelemetrySignal::Metrics,
        ({
            let at = head_from(stripe.heads, point.series, 0);
            &&& at < stripe.heads.len()
            &&& stripe.heads[at].identity == point.identity.canonical()
            &&& stripe.heads[at].topic_partition == point.topic_partition
            &&& point.timestamp_unix_nanos.saturating_add(stripe.limits.out_of_order_nanos)
                >= stripe.heads[at].latest
        }),
        point.estimated_head_bytes <= stripe.budget,
        total_bytes(make_room(stripe, point.estimated_head_bytes as nat).heads)
            + point.estimated_head_bytes <= stripe.budget,
        exists|sample: DurableMetricPoint| sample_beside(stripe, point, sample),
    ensures
        apply_point(stripe, point, protocol, double_sum).1 == if exists|
            sample: DurableMetricPoint,
        | #[trigger] sample_beside(stripe, point, sample) && repeats(sample, point) {
            Ok(MetricApplyOutcome::Duplicate)
        } else if protocol == MetricIngestProtocol::RemoteWrite {
            Err(
                TelemetryError::MetricSampleConflict {
                    series: point.series,
                    timestamp_unix_nanos: point.timestamp_unix_nanos,
                },
            )
        } else if forall|sample: DurableMetricPoint| #[trigger]
            sample_beside(stripe, point, sample) ==> sample.offset < point.offset {
            Ok(MetricApplyOutcome::Replaced)
        } else {
            Ok(MetricApplyOutcome::Obsolete)
        },
{
    let bytes = point.estimated_head_bytes as nat;
    let room = make_room(stripe, bytes);
    lemma_room_sound(stripe, bytes);
    lemma_room_keeps_series(stripe, bytes, point.series);
    let at = head_from(room.heads, point.series, 0);
    lemma_head_from(room.heads, point.series, 0);
    if stripe.heads.len() > 0 {
        lemma_largest_head(stripe.heads, stripe.heads.len());
    }
    let r = recovered_from(room.recovered, point.series, 0);
    lemma_recovered_from(room.recovered, point.series, 0);
    if r < room.recovered.len() {
        assert(head_from(room.heads, room.recovered[r].series, 0) >= room.heads.len());
    }
    let same = samples_beside(room, point);
    assert forall|sample: DurableMetricPoint| same.contains(sample) == #[trigger] sample_beside(
        stripe,
        point,
        sample,
    ) by {
        lemma_samples_beside(room, point, sample);
        if room != stripe {
            sealing_keeps_points(
                stripe,
                largest_head(stripe.heads, stripe.heads.len()),
                sample,
            );
        }
    }
    let some = choose|sample: DurableMetricPoint| sample_beside(stripe, point, sample);
    assert(same.contains(some));
    if exists|i: int| 0 <= i < same.len() && repeats(#[trigger] same[i], point) {
        let i = choose|i: int| 0 <= i < same.len() && repeats(#[trigger] same[i], point);
        assert(same.contains(same[i]));
        assert(sample_beside(stripe, point, same[i]));
    }
    if exists|sample: DurableMetricPoint| #[trigger]
        sample_beside(stripe, point, sample) && repeats(sample, point) {
        let sample = choose|sample: DurableMetricPoint| #[trigger]
            sample_beside(stripe, point, sample) && repeats(sample, point);
        assert(same.contains(sample));
        let i = choose|i: int| 0 <= i < same.len() && same[i] == sample;
        assert(repeats(same[i], point));
    }
    if exists|i: int| 0 <= i < same.len() && (#[trigger] same[i]).offset >= point.offset {
        let i = choose|i: int| 0 <= i < same.len() && (#[trigger] same[i]).offset >= point.offset;
        assert(same.contains(same[i]));
        assert(sample_beside(stripe, point, same[i]));
    }
    assert forall|sample: DurableMetricPoint| #[trigger]
        sample_beside(stripe, point, sample) && sample.offset >= point.offset implies exists|i: int|
        0 <= i < same.len() && (#[trigger] same[i]).offset >= point.offset by {
        assert(same.contains(sample));
        let i = choose|i: int| 0 <= i < same.len() && same[i] == sample;
        assert(same[i].offset >= point.offset);
    }
}

/// Whether a point was not stored: as a repetition, as out of date, or as a conflict.
pub open spec fn not_stored(result: Result<MetricApplyOutcome, TelemetryError>) -> bool {
    match result {
        Ok(MetricApplyOutcome::Duplicate) => true,
        Ok(MetricApplyOutcome::Obsolete) => true,
        Err(TelemetryError::MetricSampleConflict { .. }) => true,
        _ => false,
    }
}

/// Points of one series, time and offset are one point.
spec fn told_apart(points: Seq<DurableMetricPoint>) -> bool {
    forall|a: DurableMetricPoint, b: DurableMetricPoint|
        #[trigger] points.contains(a) && #[trigger] points.contains(b) && same_slot(a, b)
            && a.offset == b.offset ==> a == b
}

proof fn lemma_head_points_update(heads: Seq<HeadModel>, at: int, head: HeadModel)
    requires
        0 <= at < heads.len(),
        head.points == heads[at].points,
    ensures
        head_points(heads.update(at, head)) == head_points(heads),
    decreases heads.len(),
{
    let front = heads.drop_last();
    let changed = heads.update(at, head);
    if at < front.len() {
        assert(changed.drop_last() =~= front.update(at, head));
        lemma_head_points_update(front, at, head);
    } else {
        assert(changed.drop_last() =~= front);
    }
}

proof fn lemma_head_points_members(heads: Seq<HeadModel>, point: DurableMetricPoint)
    ensures
        head_points(heads).contains(point) <==> exists|i: int|
            0 <= i < heads.len() && (#[trigger] heads[i]).points.contains(point),
    decreases heads.len(),
{
    if heads.len() > 0 {
        let front = heads.drop_last();
        let early = head_points(front);
        let all = head_points(heads);
        lemma_head_points_members(front, point);
        if early.contains(point) {
            let i = choose|i: int|
                0 <= i < front.len() && (#[trigger] front[i]).points.contains(point);
            assert(heads[i] == front[i]);
            let k = choose|k: int| 0 <= k < early.len() && early[k] == point;
            assert(all[k] == point);
        }
        if heads.last().points.contains(point) {
            assert(heads[heads.len() - 1].points.contains(point));
            let k = choose|k: int|
                0 <= k < heads.last().points.len() && heads.last().points[k] == point;
            assert(all[early.len() + k] == point);
        }
        if all.contains(point) && !early.contains(point) {
            let k = choose|k: int| 0 <= k < all.len() && all[k] == point;
            assert(k >= early.len()) by {
                if k < early.len() {
                    assert(early[k] == point);
                }
            }
            assert(heads.last().points[k - early.len()] == point);
        }
        if exists|i: int| 0 <= i < heads.len() && (#[trigger] heads[i]).points.contains(point) {
            let i = choose|i: int|
                0 <= i < heads.len() && (#[trigger] heads[i]).points.contains(point);
            if i < front.len() {
                assert(front[i] == heads[i]);
            }
        }
    }
}

proof fn lemma_chunk_points_members(chunks: Seq<SealedModel>, point: DurableMetricPoint)
    ensures
        chunk_points(chunks).contains(point) <==> exists|i: int|
            0 <= i < chunks.len() && (#[trigger] chunks[i]).points.contains(point),
    decreases chunks.len(),
{
    if chunks.len() > 0 {
        let front = chunks.drop_last();
        let early = chunk_points(front);
        let all = chunk_points(chunks);
        lemma_chunk_points_members(front, point);
        if early.contains(point) {
            let i = choose|i: int|
                0 <= i < front.len() && (#[trigger] front[i]).points.contains(point);
            assert(chunks[i] == front[i]);
            let k = choose|k: int| 0 <= k < early.len() && early[k] == point;
            assert(all[k] == point);
        }
        if chunks.last().points.contains(point) {
            assert(chunks[chunks.len() - 1].points.contains(point));
            let k = choose|k: int|
                0 <= k < chunks.last().points.len() && chunks.last().points[k] == point;
            assert(all[early.len() + k] == point);
        }
        if all.contains(point) && !early.contains(point) {
            let k = choose|k: int| 0 <= k < all.len() && all[k] == point;
            assert(k >= early.len()) by {
                if k < early.len() {
                    assert(early[k] == point);
                }
            }
            assert(chunks.last().points[k - early.len()] == point);
        }
        if exists|i: int| 0 <= i < chunks.len() && (#[trigger] chunks[i]).points.contains(point) {
            let i = choose|i: int|
                0 <= i < chunks.len() && (#[trigger] chunks[i]).points.contains(point);
            if i < front.len() {
                assert(front[i] == chunks[i]);
            }
        }
    }
}

/// The points of a stripe are those that some head or chunk holds.
pub proof fn lemma_all_points_members(stripe: StripeModel, point: DurableMetricPoint)
    ensures
        all_points(stripe).contains(point) <==> holds(stripe, point),
{
    let hot = head_points(stripe.heads);
    let cold = chunk_points(stripe.chunks);
    lemma_head_points_members(stripe.heads, point);
    lemma_chunk_points_members(stripe.chunks, point);
    if hot.contains(point) {
        let k = choose|k: int| 0 <= k < hot.len() && hot[k] == point;
        assert((hot + cold)[k] == point);
    }
    if cold.contains(point) {
        let k = choose|k: int| 0 <= k < cold.len() && cold[k] == point;
        assert((hot + cold)[hot.len() + k] == point);
    }
    if (hot + cold).contains(point) && !hot.contains(point) {
        let k = choose|k: int| 0 <= k < (hot + cold).len() && (hot + cold)[k] == point;
        assert(k >= hot.len()) by {
            if k < hot.len() {
                assert(hot[k] == point);
            }
        }
        assert(cold[k - hot.len()] == point);
    }
}

/// Whether a point comes before another one in an answer.
pub open spec fn answered_before(a: DurableMetricPoint, b: DurableMetricPoint) -> bool {
    point_before(a, b) || (a.timestamp_unix_nanos == b.timestamp_unix_nanos && a.offset == b.offset
        && a.series < b.series)
}

/// Points in strictly ascending order of time, offset and series.
pub open spec fn keys_rise(points: Seq<DurableMetricPoint>) -> bool {
    forall|i: int, j: int|
        0 <= i < j < points.len() ==> answered_before(#[trigger] points[i], #[trigger] points[j])
}

proof fn lemma_rising_points_unique(
    left: Seq<DurableMetricPoint>,
    right: Seq<DurableMetricPoint>,
)
    requires
        keys_rise(left),
        keys_rise(right),
        forall|point: DurableMetricPoint| left.contains(point) == right.contains(point),
    ensures
        left == right,
    decreases left.len(),
{
    if left.len() == 0 {
        if right.len() > 0 {
            assert(right.contains(right[0]));
            assert(left.contains(right[0]));
        }
        assert(left =~= right);
    } else {
        assert(left.contains(left.last()));
        assert(right.contains(left.last()));
        assert(right.contains(right.last()));
        assert(left.contains(right.last()));
        let at = choose|at: int| 0 <= at < right.len() && right[at] == left.last();
        let back = choose|back: int| 0 <= back < left.len() && left[back] == right.last();
        if at < right.len() - 1 {
            assert(answered_before(right[at], right[right.len() - 1]));
            if back < left.len() - 1 {
                assert(answered_before(left[back], left[left.len() - 1]));
            }
        }
        assert(left.last() == right.last());
        let first = left.drop_last();
        let second = right.drop_last();
        assert forall|point: DurableMetricPoint| first.contains(point) == second.contains(
            point,
        ) by {
            if first.contains(point) {
                let k = choose|k: int| 0 <= k < first.len() && first[k] == point;
                assert(left[k] == point);
                assert(left.contains(point));
                let m = choose|m: int| 0 <= m < right.len() && right[m] == point;
                assert(answered_before(left[k], left[left.len() - 1]));
                assert(m < right.len() - 1);
                assert(second[m] == point);
            }
            if second.contains(point) {
                let k = choose|k: int| 0 <= k < second.len() && second[k] == point;
                assert(right[k] == point);
                assert(right.contains(point));
                let m = choose|m: int| 0 <= m < left.len() && left[m] == point;
                assert(answered_before(right[k], right[right.len() - 1]));
                assert(m < left.len() - 1);
                assert(first[m] == point);
            }
        }
        lemma_rising_points_unique(first, second);
        assert(left =~= first.push(left.last()));
        assert(right =~= second.push(right.last()));
    }
}

pub proof fn lemma_winners_len(points: Seq<DurableMetricPoint>, query: MetricQuery)
    ensures
        winners_with(Seq::empty(), points, query).len() <= points.len(),
    decreases points.len(),
{
    if points.len() > 0 {
        lemma_winners_len(points.drop_last(), query);
        let front = winners_with(Seq::empty(), points.drop_last(), query);
        lemma_winner_from(front, points.last(), 0);
        assert(add_winner(front, points.last()).len() <= front.len() + 1);
    } else {
        assert(winners_with(Seq::empty(), points, query).len() == 0);
    }
}

/// Arranged points are the points.
proof fn lemma_arranged_members(points: Seq<DurableMetricPoint>, keys: Seq<u128>)
    requires
        keys.len() == points.len(),
        points.len() <= usize::MAX,
    ensures
        arranged(points, order_of(keys)).len() == points.len(),
        forall|point: DurableMetricPoint|
            #[trigger] arranged(points, order_of(keys)).contains(point) == points.contains(point),
{
    let order = order_of(keys);
    let sorted = arranged(points, order);
    lemma_order_exists(keys);
    assert forall|point: DurableMetricPoint| #[trigger] sorted.contains(point) == points.contains(
        point,
    ) by {
        if sorted.contains(point) {
            let k = choose|k: int| 0 <= k < sorted.len() && sorted[k] == point;
            assert(points[order[k] as int] == point);
        }
        if points.contains(point) {
            let at = choose|at: int| 0 <= at < points.len() && points[at] == point;
            assert(listed(order, at));
            let k = choose|k: int| 0 <= k < order.len() && #[trigger] order[k] == at;
            assert(sorted[k] == point);
        }
    }
}

/// Sorted points of different slots ascend strictly and are the points.
pub proof fn lemma_answer_order(points: Seq<DurableMetricPoint>)
    requires
        points.len() <= usize::MAX,
        one_per_slot(points),
    ensures
        keys_rise(in_answer_order(points)),
        forall|point: DurableMetricPoint|
            #[trigger] in_answer_order(points).contains(point) == points.contains(point),
{
    let first = order_of(point_series(points));
    let by_series = arranged(points, first);
    let second = order_of(durable_keys(by_series));
    let sorted = arranged(by_series, second);
    lemma_order_exists(point_series(points));
    lemma_arranged_members(points, point_series(points));
    lemma_order_exists(durable_keys(by_series));
    lemma_arranged_members(by_series, durable_keys(by_series));
    assert forall|i: int, j: int| 0 <= i < j < by_series.len() implies (
    #[trigger] by_series[i]).series <= (#[trigger] by_series[j]).series && !same_slot(
        by_series[i],
        by_series[j],
    ) by {
        let a = first[i] as int;
        let b = first[j] as int;
        assert(comes_before(point_series(points), a, b));
        assert(by_series[i] == points[a] && by_series[j] == points[b]);
        if a < b {
            assert(!same_slot(points[a], points[b]));
        } else {
            assert(!same_slot(points[b], points[a]));
        }
    }
    assert forall|i: int, j: int| 0 <= i < j < sorted.len() implies answered_before(
        #[trigger] sorted[i],
        #[trigger] sorted[j],
    ) by {
        let a = second[i] as int;
        let b = second[j] as int;
        assert(comes_before(durable_keys(by_series), a, b));
        assert(sorted[i] == by_series[a] && sorted[j] == by_series[b]);
        if a < b {
            assert(by_series[a].series <= by_series[b].series && !same_slot(
                by_series[a],
                by_series[b],
            ));
        }
    }
}

proof fn lemma_winner_moves(
    left: Seq<DurableMetricPoint>,
    right: Seq<DurableMetricPoint>,
    query: MetricQuery,
    point: DurableMetricPoint,
)
    requires
        told_apart(left),
        forall|other: DurableMetricPoint| left.contains(other) == right.contains(other),
        winners_with(Seq::empty(), left, query).contains(point),
    ensures
        winners_with(Seq::empty(), right, query).contains(point),
{
    let first = winners_with(Seq::empty(), left, query);
    let second = winners_with(Seq::empty(), right, query);
    winners_have_highest_offsets(left, query);
    winners_have_highest_offsets(right, query);
    let i = choose|i: int| 0 <= i < first.len() && first[i] == point;
    assert(left.contains(first[i]));
    assert(right.contains(point));
    let k = choose|k: int| 0 <= k < right.len() && right[k] == point;
    assert(covered(second, right[k]));
    let j = choose|j: int|
        0 <= j < second.len() && same_slot(#[trigger] second[j], point) && second[j].offset
            >= point.offset;
    let better = second[j];
    assert(right.contains(better) && selects(query, better));
    assert(left.contains(better));
    let m = choose|m: int| 0 <= m < left.len() && left[m] == better;
    assert(covered(first, left[m]));
    let n = choose|n: int|
        0 <= n < first.len() && same_slot(#[trigger] first[n], better) && first[n].offset
            >= better.offset;
    if n < i {
        assert(!same_slot(first[n], first[i]));
    } else if i < n {
        assert(!same_slot(first[i], first[n]));
    }
    assert(better.offset == point.offset);
    assert(better == point);
}

/// What a query finds depends on which points there are, not on where they lie.
pub proof fn results_ignore_place(left: StripeModel, right: StripeModel, query: MetricQuery)
    requires
        all_points(left).len() <= usize::MAX,
        all_points(right).len() <= usize::MAX,
        settled(left),
        forall|point: DurableMetricPoint|
            #[trigger] holds(left, point) == holds(right, point),
    ensures
        query_result(left, query) == query_result(right, query),
{
    let first = all_points(left);
    let second = all_points(right);
    assert forall|point: DurableMetricPoint|
        #[trigger] first.contains(point) == second.contains(point) && first.contains(point)
            == holds(left, point) by {
        lemma_all_points_members(left, point);
        lemma_all_points_members(right, point);
        assert(holds(left, point) == holds(right, point));
    }
    assert(told_apart(first));
    assert(told_apart(second)) by {
        assert forall|a: DurableMetricPoint, b: DurableMetricPoint|
            #[trigger] second.contains(a) && #[trigger] second.contains(b) && same_slot(a, b)
                && a.offset == b.offset implies a == b by {
            assert(first.contains(a) && first.contains(b));
        }
    }
    let one = winners_with(Seq::empty(), first, query);
    let two = winners_with(Seq::empty(), second, query);
    winners_have_highest_offsets(first, query);
    winners_have_highest_offsets(second, query);
    lemma_winners_len(first, query);
    lemma_winners_len(second, query);
    lemma_answer_order(one);
    lemma_answer_order(two);
    let before = in_answer_order(one);
    let after = in_answer_order(two);
    assert forall|point: DurableMetricPoint| before.contains(point) == after.contains(point) by {
        if one.contains(point) {
            lemma_winner_moves(first, second, query, point);
        }
        if two.contains(point) {
            lemma_winner_moves(second, first, query, point);
        }
    }
    lemma_rising_points_unique(before, after);
}

proof fn lemma_heads_in_alike(
    left: Seq<HeadModel>,
    right: Seq<HeadModel>,
    partition: Option<TopicPartition>,
)
    requires
        left.len() == right.len(),
        forall|i: int|
            0 <= i < left.len() ==> head_checkpoint(#[trigger] left[i]) == head_checkpoint(
                right[i],
            ),
    ensures
        heads_in(left, partition) == heads_in(right, partition),
    decreases left.len(),
{
    if left.len() > 0 {
        let first = left.drop_last();
        let second = right.drop_last();
        assert forall|i: int| 0 <= i < first.len() implies head_checkpoint(
            #[trigger] first[i],
        ) == head_checkpoint(second[i]) by {
            assert(first[i] == left[i] && second[i] == right[i]);
        }
        lemma_heads_in_alike(first, second, partition);
        assert(head_checkpoint(left[left.len() - 1]) == head_checkpoint(right[left.len() - 1]));
    }
}

proof fn lemma_sealed_none(chunks: Seq<SealedModel>, series: u128, timestamp: u64)
    requires
        forall|i: int| 0 <= i < chunks.len() ==> (#[trigger] chunks[i]).series != series,
    ensures
        sealed_at(chunks, series, timestamp).len() == 0,
    decreases chunks.len(),
{
    if chunks.len() > 0 {
        let front = chunks.drop_last();
        assert forall|i: int| 0 <= i < front.len() implies (
        #[trigger] front[i]).series != series by {
            assert(front[i] == chunks[i]);
        }
        lemma_sealed_none(front, series, timestamp);
        assert(chunks[chunks.len() - 1].series != series);
    }
}

/// What is left of a stripe that did not store a point.
proof fn lemma_unstored(
    stripe: StripeModel,
    point: DurableMetricPoint,
    protocol: MetricIngestProtocol,
    double_sum: u64,
)
    requires
        accounted(stripe),
        not_stored(apply_point(stripe, point, protocol, double_sum).1),
    ensures
        ({
            let next = apply_point(stripe, point, protocol, double_sum).0;
            &&& next.recovered == stripe.recovered
            &&& next.heads.len() == stripe.heads.len()
            &&& forall|i: int|
                0 <= i < stripe.heads.len() ==> head_checkpoint(#[trigger] next.heads[i])
                    == head_checkpoint(stripe.heads[i])
            &&& all_points(next) == all_points(
                make_room(stripe, point.estimated_head_bytes as nat),
            )
        }),
{
    let room = make_room(stripe, point.estimated_head_bytes as nat);
    let next = apply_point(stripe, point, protocol, double_sum).0;
    lemma_room_accounted(stripe, point.estimated_head_bytes as nat);
    if stripe.heads.len() > 0 {
        lemma_largest_head(stripe.heads, stripe.heads.len());
    }
    let at = head_from(room.heads, point.series, 0);
    lemma_head_from(room.heads, point.series, 0);
    let sealed = sealed_at(room.chunks, point.series, point.timestamp_unix_nanos);
    if at >= room.heads.len() {
        assert forall|i: int| 0 <= i < room.chunks.len() implies (
        #[trigger] room.chunks[i]).series != point.series by {
            assert(head_from(room.heads, room.chunks[i].series, 0) < room.heads.len());
        }
        lemma_sealed_none(room.chunks, point.series, point.timestamp_unix_nanos);
        let r = recovered_from(room.recovered, point.series, 0);
        let recovered = if r < room.recovered.len() {
            Some(room.recovered[r])
        } else {
            None
        };
        let fresh = new_head(point, recovered);
        assert(points_at(fresh.points, point.timestamp_unix_nanos).len() == 0);
        assert((points_at(fresh.points, point.timestamp_unix_nanos) + sealed).len() == 0);
    }
    assert(at < room.heads.len());
    let r = recovered_from(room.recovered, point.series, 0);
    lemma_recovered_from(room.recovered, point.series, 0);
    if r < room.recovered.len() {
        assert(head_from(room.heads, room.recovered[r].series, 0) >= room.heads.len());
    }
    let head = next.heads[at];
    assert(next.heads =~= room.heads.update(at, head));
    assert(head_checkpoint(head) == head_checkpoint(room.heads[at]));
    assert(head.points == room.heads[at].points);
    assert(next.recovered == stripe.recovered);
    assert forall|i: int| 0 <= i < stripe.heads.len() implies head_checkpoint(
        #[trigger] next.heads[i],
    ) == head_checkpoint(stripe.heads[i]) by {
        assert(head_checkpoint(room.heads[i]) == head_checkpoint(stripe.heads[i]));
        if i != at {
            assert(next.heads[i] == room.heads[i]);
        }
    }
    lemma_head_points_update(room.heads, at, head);
    assert(next.chunks == room.chunks);
    assert(all_points(next) == all_points(room));
}

/// A point that is not stored changes no accumulator checkpoint.
pub proof fn unstored_points_keep_checkpoints(
    stripe: StripeModel,
    point: DurableMetricPoint,
    protocol: MetricIngestProtocol,
    double_sum: u64,
    partition: Option<TopicPartition>,
)
    requires
        sound(stripe),
        not_stored(apply_point(stripe, point, protocol, double_sum).1),
    ensures
        checkpoints_of(apply_point(stripe, point, protocol, double_sum).0, partition)
            == checkpoints_of(stripe, partition),
{
    lemma_unstored(stripe, point, protocol, double_sum);
    let next = apply_point(stripe, point, protocol, double_sum).0;
    lemma_heads_in_alike(next.heads, stripe.heads, partition);
}

/// A point that is not stored changes nothing that a query finds.
pub proof fn unstored_points_leave_no_trace(
    stripe: StripeModel,
    point: DurableMetricPoint,
    protocol: MetricIngestProtocol,
    double_sum: u64,
    query: MetricQuery,
)
    requires
        sound(stripe),
        not_stored(apply_point(stripe, point, protocol, double_sum).1),
        all_points(stripe).len() <= usize::MAX,
    ensures
        query_result(apply_point(stripe, point, protocol, double_sum).0, query) == query_result(
            stripe,
            query,
        ),
{
    let room = make_room(stripe, point.estimated_head_bytes as nat);
    lemma_unstored(stripe, point, protocol, double_sum);
    if stripe.heads.len() > 0 {
        lemma_largest_head(stripe.heads, stripe.heads.len());
    }
    if room != stripe {
        let big = largest_head(stripe.heads, stripe.heads.len());
        lemma_seal_count(stripe, big);
        assert forall|kept: DurableMetricPoint| #[trigger] holds(stripe, kept) == holds(
            room,
            kept,
        ) by {
            sealing_keeps_points(stripe, big, kept);
        }
        results_ignore_place(stripe, room, query);
    }
}

proof fn lemma_head_points_len(heads: Seq<HeadModel>, at: int, head: HeadModel)
    requires
        0 <= at < heads.len(),
    ensures
        head_points(heads.update(at, head)).len() + heads[at].points.len() == head_points(
            heads,
        ).len() + head.points.len(),
    decreases heads.len(),
{
    let front = heads.drop_last();
    let changed = heads.update(at, head);
    if at < front.len() {
        assert(changed.drop_last() =~= front.update(at, head));
        lemma_head_points_len(front, at, head);
    } else {
        assert(changed.drop_last() =~= front);
    }
}

/// Sealing moves points and changes their number in no way.
proof fn lemma_seal_count(stripe: StripeModel, at: int)
    requires
        0 <= at < stripe.heads.len(),
    ensures
        all_points(seal_head(stripe, at)).len() == all_points(stripe).len(),
{
    let next = seal_head(stripe, at);
    if stripe.heads[at].points.len() > 0 {
        lemma_head_points_len(stripe.heads, at, next.heads[at]);
        assert(next.heads =~= stripe.heads.update(at, next.heads[at]));
        assert(next.chunks.drop_last() =~= stripe.chunks);
    }
}

} // verus!
