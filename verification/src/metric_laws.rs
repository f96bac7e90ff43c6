//! What holds of every metric stripe, whatever points it is given.
use vstd::prelude::*;

use crate::metric_codec::TelemetryError;
use crate::metric_point::{repeats, DurableMetricPoint};
use crate::metric_stripe::{
    accept_point, apply_point, head_apply, head_from, insert_point, largest_head, lemma_head_from,
    lemma_largest_head, lemma_recovered_from, lemma_room_keeps_series, make_room, new_head,
    point_before, points_at, points_without, recovered_from, seal_head, sealed_at, total_bytes,
    HeadModel, MetricApplyOutcome, MetricIngestProtocol, SeriesAccumulatorCheckpoint, StripeModel,
};

verus! {

broadcast use vstd::seq_lib::group_seq_properties;

/// Points stand in strictly ascending order of time.
pub open spec fn rising(points: Seq<DurableMetricPoint>) -> bool {
    forall|i: int, j: int|
        0 <= i < j < points.len() ==> (#[trigger] points[i]).timestamp_unix_nanos < (
        #[trigger] points[j]).timestamp_unix_nanos
}

/// Every head stands in strictly ascending order of time.
pub open spec fn heads_rise(stripe: StripeModel) -> bool {
    forall|i: int| 0 <= i < stripe.heads.len() ==> rising((#[trigger] stripe.heads[i]).points)
}

proof fn lemma_without(points: Seq<DurableMetricPoint>, timestamp: u64)
    requires
        rising(points),
    ensures
        rising(points_without(points, timestamp)),
        forall|i: int|
            0 <= i < points_without(points, timestamp).len() ==> (
            #[trigger] points_without(points, timestamp)[i]).timestamp_unix_nanos != timestamp,
        forall|i: int|
            0 <= i < points_without(points, timestamp).len() ==> points.contains(
                #[trigger] points_without(points, timestamp)[i],
            ),
        forall|i: int|
            0 <= i < points.len() && points[i].timestamp_unix_nanos != timestamp
                ==> points_without(points, timestamp).contains(#[trigger] points[i]),
    decreases points.len(),
{
    if points.len() > 0 {
        let front = points.drop_last();
        let left = points_without(front, timestamp);
        let result = points_without(points, timestamp);
        assert(rising(front)) by {
            assert forall|i: int, j: int| 0 <= i < j < front.len() implies (
            #[trigger] front[i]).timestamp_unix_nanos < (
            #[trigger] front[j]).timestamp_unix_nanos by {
                assert(points[i].timestamp_unix_nanos < points[j].timestamp_unix_nanos);
            }
        }
        lemma_without(front, timestamp);
        assert forall|i: int| 0 <= i < result.len() implies points.contains(
            #[trigger] result[i],
        ) by {
            if i < left.len() {
                assert(front.contains(left[i]));
                let k = choose|k: int| 0 <= k < front.len() && front[k] == left[i];
                assert(points[k] == left[i]);
            } else {
                assert(points[points.len() - 1] == result[i]);
            }
        }
        assert forall|i: int|
            0 <= i < points.len() && points[i].timestamp_unix_nanos
                != timestamp implies result.contains(#[trigger] points[i]) by {
            if i < front.len() {
                assert(front[i] == points[i]);
                assert(left.contains(front[i]));
                let k = choose|k: int| 0 <= k < left.len() && left[k] == points[i];
                assert(result[k] == points[i]);
            } else {
                assert(result[left.len() as int] == points[i]);
            }
        }
        assert forall|i: int, j: int| 0 <= i < j < result.len() implies (
        #[trigger] result[i]).timestamp_unix_nanos < (
        #[trigger] result[j]).timestamp_unix_nanos by {
            assert(result[i] == left[i]);
            if j < left.len() {
                assert(result[j] == left[j]);
            } else {
                assert(front.contains(left[i]));
                let k = choose|k: int| 0 <= k < front.len() && front[k] == left[i];
                assert(points[k] == left[i]);
            }
        }
    }
}

pub proof fn lemma_insert(points: Seq<DurableMetricPoint>, point: DurableMetricPoint)
    ensures
        insert_point(points, point).contains(point),
        insert_point(points, point).len() == points.len() + 1,
        forall|i: int|
            0 <= i < points.len() ==> insert_point(points, point).contains(#[trigger] points[i]),
        forall|i: int|
            0 <= i < insert_point(points, point).len() ==> {
                let got = #[trigger] insert_point(points, point)[i];
                got == point || points.contains(got)
            },
    decreases points.len(),
{
    let result = insert_point(points, point);
    if points.len() == 0 || point_before(points.last(), point) {
        assert(result[points.len() as int] == point);
        assert forall|i: int| 0 <= i < points.len() implies result.contains(
            #[trigger] points[i],
        ) by {
            assert(result[i] == points[i]);
        }
    } else {
        let front = points.drop_last();
        let early = insert_point(front, point);
        lemma_insert(front, point);
        let k = choose|k: int| 0 <= k < early.len() && early[k] == point;
        assert(result[k] == point);
        assert forall|i: int| 0 <= i < points.len() implies result.contains(
            #[trigger] points[i],
        ) by {
            if i < front.len() {
                assert(early.contains(front[i]));
                let m = choose|m: int| 0 <= m < early.len() && early[m] == points[i];
                assert(result[m] == points[i]);
            } else {
                assert(result[early.len() as int] == points[i]);
            }
        }
        assert forall|i: int| 0 <= i < result.len() implies {
            let got = #[trigger] result[i];
            got == point || points.contains(got)
        } by {
            if i < early.len() {
                let got = early[i];
                if got != point {
                    assert(front.contains(got));
                    let m = choose|m: int| 0 <= m < front.len() && front[m] == got;
                    assert(points[m] == got);
                }
            } else {
                assert(points[points.len() - 1] == result[i]);
            }
        }
    }
}

proof fn lemma_insert_rises(points: Seq<DurableMetricPoint>, point: DurableMetricPoint)
    requires
        rising(points),
        forall|i: int|
            0 <= i < points.len() ==> (#[trigger] points[i]).timestamp_unix_nanos
                != point.timestamp_unix_nanos,
    ensures
        rising(insert_point(points, point)),
    decreases points.len(),
{
    let result = insert_point(points, point);
    if points.len() > 0 {
        let front = points.drop_last();
        let last = points.last();
        assert(last == points[points.len() - 1]);
        assert forall|i: int| 0 <= i < front.len() implies (
        #[trigger] front[i]).timestamp_unix_nanos < last.timestamp_unix_nanos by {
            assert(front[i] == points[i]);
        }
        if !point_before(last, point) {
            assert(rising(front)) by {
                assert forall|i: int, j: int| 0 <= i < j < front.len() implies (
                #[trigger] front[i]).timestamp_unix_nanos < (
                #[trigger] front[j]).timestamp_unix_nanos by {
                    assert(points[i].timestamp_unix_nanos < points[j].timestamp_unix_nanos);
                }
            }
            lemma_insert_rises(front, point);
            lemma_insert(front, point);
            let early = insert_point(front, point);
            assert forall|i: int, j: int| 0 <= i < j < result.len() implies (
            #[trigger] result[i]).timestamp_unix_nanos < (
            #[trigger] result[j]).timestamp_unix_nanos by {
                assert(result[i] == early[i]);
                if j < early.len() {
                    assert(result[j] == early[j]);
                } else if early[i] != point {
                    assert(front.contains(early[i]));
                }
            }
        } else {
            assert forall|i: int, j: int| 0 <= i < j < result.len() implies (
            #[trigger] result[i]).timestamp_unix_nanos < (
            #[trigger] result[j]).timestamp_unix_nanos by {
                assert(result[i] == points[i]);
                if j < points.len() {
                    assert(result[j] == points[j]);
                }
            }
        }
    }
}

proof fn lemma_points_at_none(points: Seq<DurableMetricPoint>, timestamp: u64)
    requires
        points_at(points, timestamp).len() == 0,
    ensures
        forall|i: int|
            0 <= i < points.len() ==> (#[trigger] points[i]).timestamp_unix_nanos != timestamp,
    decreases points.len(),
{
    if points.len() > 0 {
        lemma_points_at_none(points.drop_last(), timestamp);
        assert forall|i: int| 0 <= i < points.len() implies (
        #[trigger] points[i]).timestamp_unix_nanos != timestamp by {
            if i < points.len() - 1 {
                assert(points.drop_last()[i] == points[i]);
            }
        }
    }
}

proof fn lemma_head_apply_rises(
    head: HeadModel,
    point: DurableMetricPoint,
    sealed: Seq<DurableMetricPoint>,
    protocol: MetricIngestProtocol,
    window: u64,
    double_sum: u64,
)
    requires
        rising(head.points),
    ensures
        rising(head_apply(head, point, sealed, protocol, window, double_sum).0.points),
{
    let at = points_at(head.points, point.timestamp_unix_nanos);
    if (at + sealed).len() == 0 {
        lemma_points_at_none(head.points, point.timestamp_unix_nanos);
        lemma_insert_rises(head.points, point);
    }
    lemma_without(head.points, point.timestamp_unix_nanos);
    lemma_insert_rises(points_without(head.points, point.timestamp_unix_nanos), point);
}

/// No head ever holds two samples of one time, and heads stay in order of time:
/// taking in a point keeps that.
pub proof fn heads_stay_in_order(
    stripe: StripeModel,
    point: DurableMetricPoint,
    protocol: MetricIngestProtocol,
    double_sum: u64,
)
    requires
        heads_rise(stripe),
    ensures
        heads_rise(apply_point(stripe, point, protocol, double_sum).0),
{
    let room = make_room(stripe, point.estimated_head_bytes as nat);
    assert(heads_rise(room)) by {
        if stripe.heads.len() > 0 {
            lemma_largest_head(stripe.heads, stripe.heads.len());
        }
        assert forall|i: int| 0 <= i < room.heads.len() implies rising(
            (#[trigger] room.heads[i]).points,
        ) by {
            assert(rising(stripe.heads[i].points));
        }
    }
    let at = head_from(room.heads, point.series, 0);
    lemma_head_from(room.heads, point.series, 0);
    let r = recovered_from(room.recovered, point.series, 0);
    let recovered = if r < room.recovered.len() {
        Some(room.recovered[r])
    } else {
        None
    };
    let heads = if at < room.heads.len() {
        room.heads
    } else {
        room.heads.push(new_head(point, recovered))
    };
    assert(rising(heads[at].points)) by {
        if at < room.heads.len() {
            assert(rising(room.heads[at].points));
        }
    }
    let sealed = sealed_at(room.chunks, point.series, point.timestamp_unix_nanos);
    let head = head_apply(
        heads[at],
        point,
        sealed,
        protocol,
        room.limits.out_of_order_nanos,
        double_sum,
    ).0;
    lemma_head_apply_rises(
        heads[at],
        point,
        sealed,
        protocol,
        room.limits.out_of_order_nanos,
        double_sum,
    );
    let (next, _) = accept_point(room, point, protocol, double_sum);
    assert forall|i: int| 0 <= i < next.heads.len() implies rising(
        (#[trigger] next.heads[i]).points,
    ) by {
        if i != at {
            if i < room.heads.len() {
                assert(rising(room.heads[i].points));
            }
        }
    }
}

/// Whether a stripe holds a point, in a head or in a chunk.
pub open spec fn holds(stripe: StripeModel, point: DurableMetricPoint) -> bool {
    ||| exists|i: int|
        0 <= i < stripe.heads.len() && (#[trigger] stripe.heads[i]).points.contains(point)
    ||| exists|i: int|
        0 <= i < stripe.chunks.len() && (#[trigger] stripe.chunks[i]).points.contains(point)
}

proof fn lemma_seal_holds(stripe: StripeModel, at: int, point: DurableMetricPoint)
    requires
        holds(stripe, point),
        0 <= at,
    ensures
        holds(seal_head(stripe, at), point),
{
    let next = seal_head(stripe, at);
    if at < stripe.heads.len() && stripe.heads[at].points.len() > 0 {
        if exists|i: int|
            0 <= i < stripe.heads.len() && (#[trigger] stripe.heads[i]).points.contains(point) {
            let i = choose|i: int|
                0 <= i < stripe.heads.len() && (#[trigger] stripe.heads[i]).points.contains(point);
            if i == at {
                assert(next.chunks[stripe.chunks.len() as int].points == stripe.heads[at].points);
            } else {
                assert(next.heads[i] == stripe.heads[i]);
            }
        } else {
            let i = choose|i: int|
                0 <= i < stripe.chunks.len() && (#[trigger] stripe.chunks[i]).points.contains(
                    point,
                );
            assert(next.chunks[i] == stripe.chunks[i]);
        }
    }
}

/// Sealing loses nothing and invents nothing: a stripe holds the same points
/// before and after.
pub proof fn sealing_keeps_points(stripe: StripeModel, at: int, point: DurableMetricPoint)
    requires
        0 <= at < stripe.heads.len(),
    ensures
        holds(seal_head(stripe, at), point) == holds(stripe, point),
{
    let next = seal_head(stripe, at);
    if holds(stripe, point) {
        lemma_seal_holds(stripe, at, point);
    }
    if holds(next, point) && stripe.heads[at].points.len() > 0 {
        if exists|i: int|
            0 <= i < next.heads.len() && (#[trigger] next.heads[i]).points.contains(point) {
            let i = choose|i: int|
                0 <= i < next.heads.len() && (#[trigger] next.heads[i]).points.contains(point);
            assert(i != at);
            assert(next.heads[i] == stripe.heads[i]);
        } else {
            let i = choose|i: int|
                0 <= i < next.chunks.len() && (#[trigger] next.chunks[i]).points.contains(point);
            if i < stripe.chunks.len() {
                assert(next.chunks[i] == stripe.chunks[i]);
            } else {
                assert(stripe.heads[at].points.contains(point));
            }
        }
    }
}

/// Remote Write never takes a stored sample away: whatever it sends, every point
/// that the stripe held before it still holds.
pub proof fn remote_write_keeps_points(
    stripe: StripeModel,
    point: DurableMetricPoint,
    double_sum: u64,
    stored: DurableMetricPoint,
)
    requires
        holds(stripe, stored),
    ensures
        holds(
            apply_point(stripe, point, MetricIngestProtocol::RemoteWrite, double_sum).0,
            stored,
        ),
{
    let room = make_room(stripe, point.estimated_head_bytes as nat);
    if stripe.heads.len() > 0 {
        lemma_largest_head(stripe.heads, stripe.heads.len());
        lemma_seal_holds(stripe, largest_head(stripe.heads, stripe.heads.len()), stored);
    }
    assert(holds(room, stored));
    let at = head_from(room.heads, point.series, 0);
    lemma_head_from(room.heads, point.series, 0);
    let r = recovered_from(room.recovered, point.series, 0);
    let found = r < room.recovered.len();
    let recovered = if found {
        Some(room.recovered[r])
    } else {
        None
    };
    let left = if found {
        room.recovered.remove(r)
    } else {
        room.recovered
    };
    let heads = if at < room.heads.len() {
        room.heads
    } else {
        room.heads.push(new_head(point, recovered))
    };
    let sealed = sealed_at(room.chunks, point.series, point.timestamp_unix_nanos);
    let head = head_apply(
        heads[at],
        point,
        sealed,
        MetricIngestProtocol::RemoteWrite,
        room.limits.out_of_order_nanos,
        double_sum,
    ).0;
    let next = StripeModel { heads: heads.update(at, head), recovered: left, ..room };
    lemma_insert(heads[at].points, point);
    assert(holds(next, stored)) by {
        if exists|i: int|
            0 <= i < room.heads.len() && (#[trigger] room.heads[i]).points.contains(stored) {
            let i = choose|i: int|
                0 <= i < room.heads.len() && (#[trigger] room.heads[i]).points.contains(stored);
            if i == at {
                let k = choose|k: int|
                    0 <= k < heads[at].points.len() && heads[at].points[k] == stored;
                assert(insert_point(heads[at].points, point).contains(heads[at].points[k]));
                assert(next.heads[at].points.contains(stored));
            } else {
                assert(next.heads[i] == room.heads[i]);
            }
        } else {
            let i = choose|i: int|
                0 <= i < room.chunks.len() && (#[trigger] room.chunks[i]).points.contains(stored);
            assert(next.chunks[i] == room.chunks[i]);
        }
    }
    lemma_seal_holds(next, at, stored);
}

pub proof fn lemma_points_at_contains(points: Seq<DurableMetricPoint>, timestamp: u64)
    ensures
        forall|i: int|
            0 <= i < points.len() && points[i].timestamp_unix_nanos == timestamp ==> points_at(
                points,
                timestamp,
            ).contains(#[trigger] points[i]),
    decreases points.len(),
{
    if points.len() > 0 {
        let front = points.drop_last();
        let early = points_at(front, timestamp);
        let result = points_at(points, timestamp);
        lemma_points_at_contains(front, timestamp);
        assert forall|i: int|
            0 <= i < points.len() && points[i].timestamp_unix_nanos
                == timestamp implies result.contains(#[trigger] points[i]) by {
            if i < front.len() {
                assert(front[i] == points[i]);
                let k = choose|k: int| 0 <= k < early.len() && early[k] == front[i];
                assert(result[k] == points[i]);
            } else {
                assert(result[early.len() as int] == points[i]);
            }
        }
    }
}

/// What a point does to the head it goes to, kept or sealed: a second delivery of
/// the same point is a duplicate and changes nothing, as long as there is room to
/// consider it.
pub proof fn redelivery_is_a_duplicate(
    stripe: StripeModel,
    point: DurableMetricPoint,
    protocol: MetricIngestProtocol,
    double_sum: u64,
    again: MetricIngestProtocol,
    again_sum: u64,
)
    requires
        apply_point(stripe, point, protocol, double_sum).1 == Ok::<_, TelemetryError>(
            MetricApplyOutcome::Inserted,
        ) || apply_point(stripe, point, protocol, double_sum).1 == Ok::<_, TelemetryError>(
            MetricApplyOutcome::OutOfOrder,
        ) || apply_point(stripe, point, protocol, double_sum).1 == Ok::<_, TelemetryError>(
            MetricApplyOutcome::Replaced,
        ),
        total_bytes(apply_point(stripe, point, protocol, double_sum).0.heads) + point.estimated_head_bytes <= stripe.budget,
        one_recovered(stripe),
    ensures
        apply_point(
            apply_point(stripe, point, protocol, double_sum).0,
            point,
            again,
            again_sum,
        ) == (
            apply_point(stripe, point, protocol, double_sum).0,
            Ok::<_, TelemetryError>(MetricApplyOutcome::Duplicate),
        ),
{
    let room = make_room(stripe, point.estimated_head_bytes as nat);
    if stripe.heads.len() > 0 {
        lemma_largest_head(stripe.heads, stripe.heads.len());
    }
    lemma_head_from(stripe.heads, point.series, 0);
    lemma_room_keeps_series(stripe, point.estimated_head_bytes as nat, point.series);
    lemma_accepted(room, point, protocol, double_sum);
    lemma_known_point(accept_point(room, point, protocol, double_sum).0, point, again, again_sum);
}

/// Whether a stripe has a head for the series of a point, will take a sample of
/// its time, and holds a sample that it repeats.
spec fn knows(stripe: StripeModel, point: DurableMetricPoint) -> bool {
    let at = head_from(stripe.heads, point.series, 0);
    let head = stripe.heads[at];
    let same = points_at(head.points, point.timestamp_unix_nanos) + sealed_at(
        stripe.chunks,
        point.series,
        point.timestamp_unix_nanos,
    );
    &&& 0 <= at < stripe.heads.len()
    &&& head.identity == point.identity.canonical()
    &&& head.topic_partition == point.topic_partition
    &&& point.timestamp_unix_nanos.saturating_add(stripe.limits.out_of_order_nanos) >= head.latest
    &&& recovered_from(stripe.recovered, point.series, 0) == stripe.recovered.len()
    &&& exists|i: int| 0 <= i < same.len() && repeats(#[trigger] same[i], point)
}

proof fn lemma_known_point(
    stripe: StripeModel,
    point: DurableMetricPoint,
    protocol: MetricIngestProtocol,
    double_sum: u64,
)
    requires
        knows(stripe, point),
        point.signal == crate::metric_chunk::TelemetrySignal::Metrics,
        total_bytes(stripe.heads) + point.estimated_head_bytes <= stripe.budget,
    ensures
        apply_point(stripe, point, protocol, double_sum) == (
            stripe,
            Ok::<_, TelemetryError>(MetricApplyOutcome::Duplicate),
        ),
{
    let at = head_from(stripe.heads, point.series, 0);
    assert(make_room(stripe, point.estimated_head_bytes as nat) == stripe);
    assert(stripe.heads.update(at, stripe.heads[at]) =~= stripe.heads);
}

/// Whether a point was stored.
spec fn stored(result: Result<MetricApplyOutcome, TelemetryError>) -> bool {
    ||| result == Ok::<_, TelemetryError>(MetricApplyOutcome::Inserted)
    ||| result == Ok::<_, TelemetryError>(MetricApplyOutcome::OutOfOrder)
    ||| result == Ok::<_, TelemetryError>(MetricApplyOutcome::Replaced)
}

proof fn lemma_head_keeps_point(
    head: HeadModel,
    point: DurableMetricPoint,
    sealed: Seq<DurableMetricPoint>,
    protocol: MetricIngestProtocol,
    window: u64,
    double_sum: u64,
)
    requires
        stored(head_apply(head, point, sealed, protocol, window, double_sum).1),
    ensures
        ({
            let after = head_apply(head, point, sealed, protocol, window, double_sum).0;
            &&& after.identity == head.identity
            &&& after.topic_partition == head.topic_partition
            &&& after.series == head.series
            &&& point.timestamp_unix_nanos.saturating_add(window) >= after.latest
            &&& points_at(after.points, point.timestamp_unix_nanos).contains(point)
        }),
{
    let after = head_apply(head, point, sealed, protocol, window, double_sum).0;
    lemma_insert(head.points, point);
    lemma_insert(points_without(head.points, point.timestamp_unix_nanos), point);
    assert(after.points.contains(point));
    let k = choose|k: int| 0 <= k < after.points.len() && after.points[k] == point;
    lemma_points_at_contains(after.points, point.timestamp_unix_nanos);
    assert(points_at(after.points, point.timestamp_unix_nanos).contains(after.points[k]));
}

proof fn lemma_accepted(
    room: StripeModel,
    point: DurableMetricPoint,
    protocol: MetricIngestProtocol,
    double_sum: u64,
)
    requires
        one_recovered(room),
        stored(accept_point(room, point, protocol, double_sum).1),
        ({
            let at = head_from(room.heads, point.series, 0);
            at < room.heads.len() ==> room.heads[at].identity == point.identity.canonical()
                && room.heads[at].topic_partition == point.topic_partition
        }),
    ensures
        knows(accept_point(room, point, protocol, double_sum).0, point),
        accept_point(room, point, protocol, double_sum).0.budget == room.budget,
{
    let after = accept_point(room, point, protocol, double_sum).0;
    let at = head_from(room.heads, point.series, 0);
    lemma_head_from(room.heads, point.series, 0);
    let r = recovered_from(room.recovered, point.series, 0);
    lemma_recovered_from(room.recovered, point.series, 0);
    let found = r < room.recovered.len();
    let recovered = if found {
        Some(room.recovered[r])
    } else {
        None
    };
    let left = if found {
        room.recovered.remove(r)
    } else {
        room.recovered
    };
    let heads = if at < room.heads.len() {
        room.heads
    } else {
        room.heads.push(new_head(point, recovered))
    };
    let sealed = sealed_at(room.chunks, point.series, point.timestamp_unix_nanos);
    let window = room.limits.out_of_order_nanos;
    let head = head_apply(heads[at], point, sealed, protocol, window, double_sum).0;
    lemma_head_keeps_point(heads[at], point, sealed, protocol, window, double_sum);
    let next = StripeModel { heads: heads.update(at, head), recovered: left, ..room };
    assert(after == next || after == seal_head(next, at));
    assert forall|i: int| 0 <= i < at implies (#[trigger] after.heads[i]).series
        != point.series by {
        assert(after.heads[i] == room.heads[i]);
    }
    lemma_first_head(after.heads, point.series, at, 0);
    assert forall|i: int| 0 <= i < left.len() implies (#[trigger] left[i]).series
        != point.series by {
        if found && i >= r {
            assert(left[i] == room.recovered[i + 1]);
        } else {
            assert(left[i] == room.recovered[i]);
        }
    }
    lemma_none_recovered(left, point.series, 0);
    let kept = points_at(head.points, point.timestamp_unix_nanos);
    let m = choose|m: int| 0 <= m < kept.len() && kept[m] == point;
    let hot = points_at(after.heads[at].points, point.timestamp_unix_nanos);
    let cold = sealed_at(after.chunks, point.series, point.timestamp_unix_nanos);
    let same = hot + cold;
    assert(repeats(point, point));
    if after == next {
        assert(same[m] == point);
    } else {
        assert(after.chunks.drop_last() =~= next.chunks);
        assert(after.chunks.last().points == head.points);
        assert(cold == sealed + kept);
        let n = hot.len() + sealed.len() + m;
        assert(same[n] == cold[sealed.len() + m]);
        assert(same[n] == point);
    }
}

/// No two recovered accumulators are of one series.
pub open spec fn one_recovered(stripe: StripeModel) -> bool {
    forall|i: int, j: int|
        0 <= i < j < stripe.recovered.len() ==> (#[trigger] stripe.recovered[i]).series != (
        #[trigger] stripe.recovered[j]).series
}

pub proof fn lemma_first_head(heads: Seq<HeadModel>, series: u128, at: int, from: int)
    requires
        0 <= from <= at < heads.len(),
        heads[at].series == series,
        forall|i: int| from <= i < at ==> (#[trigger] heads[i]).series != series,
    ensures
        head_from(heads, series, from) == at,
    decreases at - from,
{
    if from < at {
        lemma_first_head(heads, series, at, from + 1);
    }
}

proof fn lemma_none_recovered(
    recovered: Seq<crate::metric_stripe::SeriesAccumulatorCheckpoint>,
    series: u128,
    from: int,
)
    requires
        0 <= from <= recovered.len(),
        forall|i: int| from <= i < recovered.len() ==> (#[trigger] recovered[i]).series != series,
    ensures
        recovered_from(recovered, series, from) == recovered.len(),
    decreases recovered.len() - from,
{
    if from < recovered.len() {
        lemma_none_recovered(recovered, series, from + 1);
    }
}

} // verus!
