//! Laws of taking in samples and of accumulator checkpoints.
use vstd::prelude::*;

use crate::first_laws::{lemma_bag_adds, lemma_bag_has};
use crate::metric_codec::{NumberValue, TelemetryError};
use crate::metric_point::{DurableMetricPoint, MetricKind, MetricValue};
use crate::metric_query::{
    checkpoints_of, head_checkpoint, heads_in, recovered_in, restored_one, series_keys,
};
use crate::metric_stripe::{
    accumulated, bytes_of, head_apply, head_from, insert_point, largest_head, points_at, HeadModel,
    MetricApplyOutcome, MetricIngestProtocol, SeriesAccumulatorCheckpoint, StripeModel,
};
use crate::order::{comes_before, lemma_order_exists, order_of, sorting_permutes};
use crate::record::{TopicId, TopicPartition};

verus! {

broadcast use vstd::seq_lib::group_seq_properties;

/// What a sum does to the total: one that is not a difference takes its place; a difference is
/// added where both are integers, and an overflow leaves no total; a first one is the total;
/// one of the other number type starts anew. Other kinds leave the total.
pub proof fn sums_accumulate(
    total: Option<NumberValue>,
    generation: u64,
    kind: MetricKind,
    value: MetricValue,
    double_sum: u64,
)
    ensures
        ({
            let after = accumulated(total, generation, kind, value, double_sum);
            &&& (kind matches MetricKind::Sum { temporality, .. } && temporality != 1) ==> (
            value matches MetricValue::Sum(number) ==> after == (Some(number), generation))
            &&& (kind matches MetricKind::Sum { temporality, .. } && temporality == 1) ==> (
            value matches MetricValue::Sum(number) ==> {
                &&& total is None ==> after == (Some(number), generation)
                &&& total matches Some(NumberValue::Integer(left)) ==> (
                number matches NumberValue::Integer(right) ==> {
                    &&& after.1 == generation
                    &&& i64::MIN <= left + right <= i64::MAX ==> (after.0 matches Some(
                        NumberValue::Integer(sum),
                    ) && sum == left + right)
                    &&& !(i64::MIN <= left + right <= i64::MAX) ==> after.0 is None
                })
                &&& total matches Some(NumberValue::DoubleBits(_)) ==> (
                number matches NumberValue::DoubleBits(_) ==> after == (
                    Some(NumberValue::DoubleBits(double_sum)),
                    generation,
                ))
                &&& total matches Some(NumberValue::Integer(_)) ==> (
                number matches NumberValue::DoubleBits(_) ==> after.0 == Some(number) && (generation
                    < u64::MAX ==> after.1 == generation + 1))
                &&& total matches Some(NumberValue::DoubleBits(_)) ==> (
                number matches NumberValue::Integer(_) ==> after.0 == Some(number) && (generation
                    < u64::MAX ==> after.1 == generation + 1))
            })
            &&& !(kind is Sum) || !(value is Sum) ==> after == (total, generation)
        }),
{
}

/// Taking a sample in adds that sample and loses none.
pub proof fn inserting_adds_one_point(
    points: Seq<DurableMetricPoint>,
    point: DurableMetricPoint,
)
    ensures
        insert_point(points, point).to_multiset() == points.to_multiset().insert(point),
        insert_point(points, point).len() == points.len() + 1,
    decreases points.len(),
{
    broadcast use vstd::seq_lib::group_to_multiset_ensures;

    if points.len() == 0 || crate::metric_stripe::point_before(points.last(), point) {
        assert(points.push(point).to_multiset() =~= points.to_multiset().insert(point));
    } else {
        let early = points.drop_last();
        let last = points.last();
        inserting_adds_one_point(early, point);
        assert(points =~= early.push(last));
        assert(insert_point(points, point).to_multiset() =~= points.to_multiset().insert(point));
    }
}

/// A sample at a time that has none, not too far behind the latest one, is stored: it is out
/// of order where the latest one lies behind it, and else inserted. The head then holds its
/// samples and this one, and the later of the two times. One that is too far behind is
/// refused and changes nothing.
pub proof fn new_samples_are_stored(
    head: HeadModel,
    point: DurableMetricPoint,
    protocol: MetricIngestProtocol,
    window: u64,
    double_sum: u64,
)
    requires
        points_at(head.points, point.timestamp_unix_nanos).len() == 0,
    ensures
        ({
            let (after, outcome) = head_apply(
                head,
                point,
                Seq::empty(),
                protocol,
                window,
                double_sum,
            );
            let late = point.timestamp_unix_nanos + window < head.latest;
            &&& late ==> after == head && outcome is Err
            &&& !late ==> {
                &&& outcome == Ok::<_, TelemetryError>(
                    if point.timestamp_unix_nanos < head.latest {
                        MetricApplyOutcome::OutOfOrder
                    } else {
                        MetricApplyOutcome::Inserted
                    },
                )
                &&& after.points.to_multiset() == head.points.to_multiset().insert(point)
                &&& after.latest >= head.latest && after.latest >= point.timestamp_unix_nanos
                &&& after.latest == head.latest || after.latest == point.timestamp_unix_nanos
                &&& after.series == head.series && after.topic_partition == head.topic_partition
                &&& after.conflicts == head.conflicts
            }
        }),
{
    let same = points_at(head.points, point.timestamp_unix_nanos) + Seq::<
        DurableMetricPoint,
    >::empty();
    assert(same.len() == 0);
    inserting_adds_one_point(head.points, point);
}

/// The head that makes room is one with the most bytes.
pub proof fn the_largest_head_makes_room(heads: Seq<HeadModel>, count: nat)
    requires
        0 < count <= heads.len(),
    ensures
        0 <= largest_head(heads, count) < count,
        forall|i: int|
            0 <= i < count ==> bytes_of((#[trigger] heads[i]).points) <= bytes_of(
                heads[largest_head(heads, count)].points,
            ),
    decreases count,
{
    if count > 1 {
        the_largest_head_makes_room(heads, (count - 1) as nat);
    }
}

/// Whether a checkpoint is that of a recovered accumulator or of a head of a partition.
pub open spec fn is_kept(
    stripe: StripeModel,
    partition: Option<TopicPartition>,
    checkpoint: SeriesAccumulatorCheckpoint,
) -> bool {
    &&& partition matches Some(only) ==> checkpoint.topic_partition == only
    &&& stripe.recovered.contains(checkpoint) || exists|i: int|
        0 <= i < stripe.heads.len() && (#[trigger] stripe.heads[i]).series == checkpoint.series
            && stripe.heads[i].topic_partition == checkpoint.topic_partition
            && stripe.heads[i].reset_generation == checkpoint.reset_generation
            && stripe.heads[i].latest == checkpoint.latest_timestamp_unix_nanos
            && stripe.heads[i].cumulative == checkpoint.cumulative
}

proof fn lemma_recovered_in(
    recovered: Seq<SeriesAccumulatorCheckpoint>,
    partition: Option<TopicPartition>,
    checkpoint: SeriesAccumulatorCheckpoint,
)
    ensures
        recovered_in(recovered, partition).contains(checkpoint) <==> recovered.contains(checkpoint)
            && (partition matches Some(only) ==> checkpoint.topic_partition == only),
        recovered_in(recovered, partition).len() <= recovered.len(),
    decreases recovered.len(),
{
    if recovered.len() > 0 {
        let early = recovered.drop_last();
        lemma_recovered_in(early, partition, checkpoint);
        assert(recovered =~= early.push(recovered.last()));
    }
}

proof fn lemma_heads_in(
    heads: Seq<HeadModel>,
    partition: Option<TopicPartition>,
    checkpoint: SeriesAccumulatorCheckpoint,
)
    ensures
        heads_in(heads, partition).contains(checkpoint) <==> (partition matches Some(only)
            ==> checkpoint.topic_partition == only) && exists|i: int|
            0 <= i < heads.len() && head_checkpoint(#[trigger] heads[i]) == checkpoint,
        heads_in(heads, partition).len() <= heads.len(),
    decreases heads.len(),
{
    if heads.len() > 0 {
        let early = heads.drop_last();
        let last = heads.last();
        lemma_heads_in(early, partition, checkpoint);
        assert(heads[heads.len() - 1] == last);
        if exists|i: int| 0 <= i < heads.len() && head_checkpoint(#[trigger] heads[i])
            == checkpoint {
            let i = choose|i: int|
                0 <= i < heads.len() && head_checkpoint(#[trigger] heads[i]) == checkpoint;
            if i < early.len() {
                assert(early[i] == heads[i]);
            }
        }
        if exists|i: int| 0 <= i < early.len() && head_checkpoint(#[trigger] early[i])
            == checkpoint {
            let i = choose|i: int|
                0 <= i < early.len() && head_checkpoint(#[trigger] early[i]) == checkpoint;
            assert(heads[i] == early[i]);
        }
    }
}

/// The checkpoints of a partition are those of its recovered accumulators and of its heads,
/// by series.
pub proof fn checkpoints_are_those_of_series(
    stripe: StripeModel,
    partition: Option<TopicPartition>,
    checkpoint: SeriesAccumulatorCheckpoint,
)
    requires
        stripe.recovered.len() + stripe.heads.len() <= usize::MAX,
    ensures
        checkpoints_of(stripe, partition).contains(checkpoint) <==> is_kept(
            stripe,
            partition,
            checkpoint,
        ),
        forall|i: int, j: int|
            0 <= i < j < checkpoints_of(stripe, partition).len() ==> (#[trigger] checkpoints_of(
                stripe,
                partition,
            )[i]).series <= (#[trigger] checkpoints_of(stripe, partition)[j]).series,
{
    let first = recovered_in(stripe.recovered, partition);
    let second = heads_in(stripe.heads, partition);
    let all = first + second;
    let keys = series_keys(all);
    let order = order_of(keys);
    let sorted = checkpoints_of(stripe, partition);
    lemma_recovered_in(stripe.recovered, partition, checkpoint);
    lemma_heads_in(stripe.heads, partition, checkpoint);
    sorting_permutes(all, keys);
    lemma_order_exists(keys);
    lemma_bag_has(all, checkpoint);
    lemma_bag_has(sorted, checkpoint);
    lemma_bag_adds(first, second);
    lemma_bag_has(first, checkpoint);
    lemma_bag_has(second, checkpoint);
    assert forall|i: int, j: int| 0 <= i < j < sorted.len() implies (
    #[trigger] sorted[i]).series <= (#[trigger] sorted[j]).series by {
        assert(comes_before(keys, order[i] as int, order[j] as int));
        assert(sorted[i] == all[order[i] as int] && sorted[j] == all[order[j] as int]);
    }
    if exists|i: int|
        0 <= i < stripe.heads.len() && head_checkpoint(#[trigger] stripe.heads[i]) == checkpoint {
        let i = choose|i: int|
            0 <= i < stripe.heads.len() && head_checkpoint(#[trigger] stripe.heads[i])
                == checkpoint;
        assert(stripe.heads[i].series == checkpoint.series);
    }
    if exists|i: int|
        0 <= i < stripe.heads.len() && (#[trigger] stripe.heads[i]).series == checkpoint.series
            && stripe.heads[i].topic_partition == checkpoint.topic_partition
            && stripe.heads[i].reset_generation == checkpoint.reset_generation
            && stripe.heads[i].latest == checkpoint.latest_timestamp_unix_nanos
            && stripe.heads[i].cumulative == checkpoint.cumulative {
        let i = choose|i: int|
            0 <= i < stripe.heads.len() && (#[trigger] stripe.heads[i]).series
                == checkpoint.series && stripe.heads[i].topic_partition
                == checkpoint.topic_partition && stripe.heads[i].reset_generation
                == checkpoint.reset_generation && stripe.heads[i].latest
                == checkpoint.latest_timestamp_unix_nanos && stripe.heads[i].cumulative
                == checkpoint.cumulative;
        assert(head_checkpoint(stripe.heads[i]) == checkpoint);
    }
}

proof fn lemma_head_place(heads: Seq<HeadModel>, series: u128, from: int)
    requires
        0 <= from <= heads.len(),
    ensures
        from <= head_from(heads, series, from) <= heads.len(),
        head_from(heads, series, from) < heads.len() ==> heads[head_from(
            heads,
            series,
            from,
        )].series == series,
    decreases heads.len() - from,
{
    if from < heads.len() && heads[from].series != series {
        lemma_head_place(heads, series, from + 1);
    }
}

/// What is restored is what a later checkpoint holds: an accepted checkpoint is kept, no
/// point is touched, and one of another topic is refused and changes nothing.
pub proof fn restored_checkpoints_are_kept(
    stripe: StripeModel,
    checkpoint: SeriesAccumulatorCheckpoint,
    topic: TopicId,
)
    requires
        stripe.recovered.len() + stripe.heads.len() < usize::MAX,
    ensures
        ({
            let (after, result) = restored_one(stripe, checkpoint, topic);
            &&& result is Ok ==> checkpoints_of(after, Some(checkpoint.topic_partition)).contains(
                checkpoint,
            )
            &&& checkpoint.topic_partition.topic_id != topic ==> result is Err && after == stripe
            &&& after.chunks == stripe.chunks
            &&& after.heads.len() == stripe.heads.len()
            &&& forall|i: int|
                0 <= i < stripe.heads.len() ==> (#[trigger] after.heads[i]).points
                    == stripe.heads[i].points && after.heads[i].series == stripe.heads[i].series
        }),
{
    let (after, result) = restored_one(stripe, checkpoint, topic);
    let at = head_from(stripe.heads, checkpoint.series, 0);
    lemma_head_place(stripe.heads, checkpoint.series, 0);
    if result is Ok {
        checkpoints_are_those_of_series(after, Some(checkpoint.topic_partition), checkpoint);
        if at < stripe.heads.len() {
            let head = after.heads[at];
            assert(head.series == checkpoint.series && head.topic_partition
                == checkpoint.topic_partition);
        } else {
            assert(after.recovered.last() == checkpoint);
            assert(after.recovered[after.recovered.len() - 1] == checkpoint);
        }
    }
}

} // verus!
