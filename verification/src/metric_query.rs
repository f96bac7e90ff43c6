//! Metric selection, checkpoints and publication of sealed chunks.
use vstd::prelude::*;

use crate::codec::same_text;
use crate::labels::{lookup, pairs_view, Pairs};
use crate::metric_chunk::{point_key, sort_key};
use crate::metric_codec::{fault, MetricFault, TelemetryError};
use crate::metric_point::{prometheus_labels, prometheus_string_labels, DurableMetricPoint};
use crate::metric_sound::{restored_stay_sound, sound};
use crate::metric_stripe::{
    head_from, HeadModel, MetricStripe, SealedModel, SeriesAccumulatorCheckpoint, StripeModel,
};
use crate::order::{arranged, is_order, order_of, stable_order};
use crate::record::{TopicId, TopicPartition};

verus! {

broadcast use vstd::seq_lib::group_seq_properties;

/// Native metric selector used by PromQL storage scans and direct APIs.
#[derive(Debug, PartialEq, Eq)]
pub struct MetricQuery {
    /// Required tenant.
    pub tenant: String,
    /// Optional exact series fingerprint.
    pub series: Option<u128>,
    /// Optional exact metric name.
    pub name: Option<String>,
    /// Exact Prometheus labels.
    pub exact_labels: Vec<(String, String)>,
    /// Inclusive start time.
    pub start_time_unix_nanos: Option<u64>,
    /// Inclusive end time.
    pub end_time_unix_nanos: Option<u64>,
    /// Maximum raw points to return.
    pub limit: usize,
}

/// Whether a series carries all these labels.
pub open spec fn carries(labels: Pairs, wanted: Pairs) -> bool {
    forall|i: int|
        0 <= i < wanted.len() ==> lookup(labels, (#[trigger] wanted[i]).0) == Some(wanted[i].1)
}

/// Whether a query selects a point.
pub open spec fn selects(query: MetricQuery, point: DurableMetricPoint) -> bool {
    &&& query.series matches Some(series) ==> series == point.series
    &&& point.identity.tenant@ == query.tenant@
    &&& query.name matches Some(name) ==> name@ == point.identity.name@
    &&& query.start_time_unix_nanos matches Some(start) ==> point.timestamp_unix_nanos >= start
    &&& query.end_time_unix_nanos matches Some(end) ==> point.timestamp_unix_nanos <= end
    &&& carries(prometheus_labels(point.identity), pairs_view(query.exact_labels@))
}

/// Whether a query selects a point.
pub fn metric_query_matches(query: &MetricQuery, point: &DurableMetricPoint) -> (matches: bool)
    ensures
        matches == selects(*query, *point),
{
    match query.series {
        Some(series) => {
            if series != point.series {
                return false;
            }
        },
        None => {},
    }
    if !same_text(&point.identity.tenant, &query.tenant) {
        return false;
    }
    match &query.name {
        Some(name) => {
            if !same_text(name, &point.identity.name) {
                return false;
            }
        },
        None => {},
    }
    match query.start_time_unix_nanos {
        Some(start) => {
            if point.timestamp_unix_nanos < start {
                return false;
            }
        },
        None => {},
    }
    match query.end_time_unix_nanos {
        Some(end) => {
            if point.timestamp_unix_nanos > end {
                return false;
            }
        },
        None => {},
    }
    let labels = prometheus_string_labels(&point.identity);
    let ghost wanted = pairs_view(query.exact_labels@);
    let mut index: usize = 0;
    while index < query.exact_labels.len()
        invariant
            index <= query.exact_labels@.len(),
            wanted == pairs_view(query.exact_labels@),
            labels@ == prometheus_labels(point.identity),
            forall|i: int|
                0 <= i < index ==> lookup(labels@, (#[trigger] wanted[i]).0) == Some(wanted[i].1),
        decreases query.exact_labels@.len() - index,
    {
        proof {
            assert(wanted[index as int] == (
                query.exact_labels@[index as int].0@,
                query.exact_labels@[index as int].1@,
            ));
        }
        match labels.get(&query.exact_labels[index].0) {
            Some(value) => {
                if !same_text(value, &query.exact_labels[index].1) {
                    return false;
                }
            },
            None => {
                return false;
            },
        }
        index = index + 1;
    }
    true
}

/// Winners with one more candidate: of the points of one series and timestamp
/// the first one with the highest offset stays.
pub open spec fn add_winner(winners: Seq<DurableMetricPoint>, point: DurableMetricPoint) -> Seq<
    DurableMetricPoint,
> {
    let at = winner_from(winners, point, 0);
    if at >= winners.len() {
        winners.push(point)
    } else if winners[at].offset < point.offset {
        winners.update(at, point)
    } else {
        winners
    }
}

/// Place of the winner of the series and timestamp of a point, from `from` on.
pub open spec fn winner_from(
    winners: Seq<DurableMetricPoint>,
    point: DurableMetricPoint,
    from: int,
) -> int
    decreases winners.len() - from,
{
    if from >= winners.len() {
        winners.len() as int
    } else if same_slot(winners[from], point) {
        from
    } else {
        winner_from(winners, point, from + 1)
    }
}

/// Whether two points are samples of one series at one time.
pub open spec fn same_slot(a: DurableMetricPoint, b: DurableMetricPoint) -> bool {
    a.series == b.series && a.timestamp_unix_nanos == b.timestamp_unix_nanos
}

/// `winners` with the selected ones of `points` added in order.
pub open spec fn winners_with(
    winners: Seq<DurableMetricPoint>,
    points: Seq<DurableMetricPoint>,
    query: MetricQuery,
) -> Seq<DurableMetricPoint>
    decreases points.len(),
{
    if points.len() == 0 {
        winners
    } else {
        let front = winners_with(winners, points.drop_last(), query);
        if selects(query, points.last()) {
            add_winner(front, points.last())
        } else {
            front
        }
    }
}

/// All points of a stripe: heads first, then chunks.
pub open spec fn all_points(stripe: StripeModel) -> Seq<DurableMetricPoint> {
    head_points(stripe.heads) + chunk_points(stripe.chunks)
}

/// Points of heads.
pub open spec fn head_points(heads: Seq<HeadModel>) -> Seq<DurableMetricPoint>
    decreases heads.len(),
{
    if heads.len() == 0 {
        Seq::empty()
    } else {
        head_points(heads.drop_last()) + heads.last().points
    }
}

/// Points of chunks.
pub open spec fn chunk_points(chunks: Seq<SealedModel>) -> Seq<DurableMetricPoint>
    decreases chunks.len(),
{
    if chunks.len() == 0 {
        Seq::empty()
    } else {
        chunk_points(chunks.drop_last()) + chunks.last().points
    }
}

/// Sort keys of points: by timestamp, then by offset.
pub open spec fn durable_keys(points: Seq<DurableMetricPoint>) -> Seq<u128> {
    points.map_values(
        |point: DurableMetricPoint| point_key(point.timestamp_unix_nanos, point.offset),
    )
}

/// Sort keys of points: their series.
pub open spec fn point_series(points: Seq<DurableMetricPoint>) -> Seq<u128> {
    points.map_values(|point: DurableMetricPoint| point.series)
}

/// Points in the order of an answer: by timestamp, then by offset, then by series.
pub open spec fn in_answer_order(points: Seq<DurableMetricPoint>) -> Seq<DurableMetricPoint> {
    let by_series = arranged(points, order_of(point_series(points)));
    arranged(by_series, order_of(durable_keys(by_series)))
}

/// The result of a query: winners by timestamp, offset and series, at most `limit`.
pub open spec fn query_result(stripe: StripeModel, query: MetricQuery) -> Seq<DurableMetricPoint> {
    let sorted = in_answer_order(winners_with(Seq::empty(), all_points(stripe), query));
    let limit = query.limit as int;
    if sorted.len() <= limit {
        sorted
    } else {
        sorted.subrange(0, limit)
    }
}

proof fn lemma_winners_concat(
    winners: Seq<DurableMetricPoint>,
    first: Seq<DurableMetricPoint>,
    second: Seq<DurableMetricPoint>,
    query: MetricQuery,
)
    ensures
        winners_with(winners, first + second, query) == winners_with(
            winners_with(winners, first, query),
            second,
            query,
        ),
    decreases second.len(),
{
    if second.len() == 0 {
        assert(first + second =~= first);
    } else {
        lemma_winners_concat(winners, first, second.drop_last(), query);
        assert((first + second).drop_last() =~= first + second.drop_last());
        assert((first + second).last() == second.last());
    }
}

/// Points behind references.
pub open spec fn points_of(references: Seq<&DurableMetricPoint>) -> Seq<DurableMetricPoint> {
    references.map_values(|reference: &DurableMetricPoint| *reference)
}

/// Adds a candidate to the winners.
fn retain_metric_winner<'a>(winners: &mut Vec<&'a DurableMetricPoint>, point: &'a DurableMetricPoint)
    ensures
        points_of(final(winners)@) == add_winner(points_of(old(winners)@), *point),
{
    let ghost model = points_of(winners@);
    let mut at: usize = 0;
    while at < winners.len() && !(winners[at].series == point.series
        && winners[at].timestamp_unix_nanos == point.timestamp_unix_nanos)
        invariant
            at <= winners@.len(),
            model == points_of(winners@),
            winner_from(model, *point, 0) == winner_from(model, *point, at as int),
        decreases winners@.len() - at,
    {
        at = at + 1;
    }
    if at == winners.len() {
        proof {
            assert(points_of(winners@.push(point)) =~= model.push(*point));
        }
        winners.push(point);
    } else if winners[at].offset < point.offset {
        proof {
            assert(points_of(winners@.update(at as int, point)) =~= model.update(
                at as int,
                *point,
            ));
        }
        winners[at] = point;
    }
}

/// Adds the selected ones of a list of points to the winners.
fn retain_metric_winners<'a>(
    winners: &mut Vec<&'a DurableMetricPoint>,
    points: &'a Vec<DurableMetricPoint>,
    query: &MetricQuery,
)
    ensures
        points_of(final(winners)@) == winners_with(points_of(old(winners)@), points@, *query),
{
    let ghost before = points_of(winners@);
    let mut index: usize = 0;
    proof {
        assert(points@.subrange(0, 0) =~= Seq::<DurableMetricPoint>::empty());
    }
    while index < points.len()
        invariant
            index <= points@.len(),
            points_of(winners@) == winners_with(before, points@.subrange(0, index as int), *query),
        decreases points@.len() - index,
    {
        proof {
            let part = points@.subrange(0, index + 1);
            assert(part.drop_last() =~= points@.subrange(0, index as int));
            assert(part.last() == points@[index as int]);
        }
        if metric_query_matches(query, &points[index]) {
            retain_metric_winner(winners, &points[index]);
        }
        index = index + 1;
    }
    proof {
        assert(points@.subrange(0, index as int) =~= points@);
    }
}

/// The points at the places of an order.
fn take_points<'a>(points: &Vec<&'a DurableMetricPoint>, order: &Vec<usize>) -> (taken: Vec<
    &'a DurableMetricPoint,
>)
    requires
        forall|i: int| 0 <= i < order@.len() ==> #[trigger] order@[i] < points@.len(),
    ensures
        points_of(taken@) == arranged(points_of(points@), order@),
{
    let ghost model = points_of(points@);
    let mut taken: Vec<&'a DurableMetricPoint> = Vec::new();
    let mut place: usize = 0;
    while place < order.len()
        invariant
            place <= order@.len(),
            model == points_of(points@),
            forall|i: int| 0 <= i < order@.len() ==> #[trigger] order@[i] < points@.len(),
            taken@.len() == place,
            forall|i: int| 0 <= i < place ==> *(#[trigger] taken@[i]) == model[order@[i] as int],
        decreases order@.len() - place,
    {
        taken.push(points[order[place]]);
        place = place + 1;
    }
    proof {
        assert(points_of(taken@) =~= arranged(model, order@));
    }
    taken
}

/// Sorts points by series.
fn sort_by_series<'a>(points: &Vec<&'a DurableMetricPoint>) -> (sorted: Vec<
    &'a DurableMetricPoint,
>)
    ensures
        points_of(sorted@) == arranged(
            points_of(points@),
            order_of(point_series(points_of(points@))),
        ),
{
    let ghost model = points_of(points@);
    let mut keys: Vec<u128> = Vec::new();
    let mut place: usize = 0;
    while place < points.len()
        invariant
            place <= points@.len(),
            model == points_of(points@),
            keys@.len() == place,
            forall|i: int| 0 <= i < place ==> keys@[i] == point_series(model)[i],
        decreases points@.len() - place,
    {
        keys.push(points[place].series);
        place = place + 1;
    }
    proof {
        assert(keys@ =~= point_series(model));
    }
    take_points(points, &stable_order(&keys))
}

/// Sorts points into the order of an answer.
fn sort_points<'a>(points: &Vec<&'a DurableMetricPoint>) -> (sorted: Vec<&'a DurableMetricPoint>)
    ensures
        points_of(sorted@) == in_answer_order(points_of(points@)),
{
    let listed = sort_by_series(points);
    let ghost model = points_of(listed@);
    let mut keys: Vec<u128> = Vec::new();
    let mut place: usize = 0;
    while place < listed.len()
        invariant
            place <= listed@.len(),
            model == points_of(listed@),
            keys@.len() == place,
            forall|i: int| 0 <= i < place ==> keys@[i] == durable_keys(model)[i],
        decreases listed@.len() - place,
    {
        keys.push(sort_key(listed[place].timestamp_unix_nanos, listed[place].offset));
        place = place + 1;
    }
    proof {
        assert(keys@ =~= durable_keys(model));
    }
    take_points(&listed, &stable_order(&keys))
}

impl MetricStripe {
    /// Queries exact raw hot and immutable-chunk points.
    pub fn query<'a>(&'a self, query: &MetricQuery) -> (points: Vec<&'a DurableMetricPoint>)
        ensures
            points_of(points@) == query_result(self@, *query),
    {
        let mut winners: Vec<&'a DurableMetricPoint> = Vec::new();
        let ghost heads = self@.heads;
        let ghost chunks = self@.chunks;
        let mut index: usize = 0;
        proof {
            assert(points_of(winners@) =~= Seq::<DurableMetricPoint>::empty());
            assert(heads.subrange(0, 0) =~= Seq::<HeadModel>::empty());
        }
        while index < self.series.len()
            invariant
                index <= self.series@.len(),
                heads == self@.heads,
                points_of(winners@) == winners_with(
                    Seq::empty(),
                    head_points(heads.subrange(0, index as int)),
                    *query,
                ),
            decreases self.series@.len() - index,
        {
            proof {
                let part = heads.subrange(0, index + 1);
                assert(part.drop_last() =~= heads.subrange(0, index as int));
                assert(part.last() == self.series@[index as int]@);
                lemma_winners_concat(
                    Seq::empty(),
                    head_points(heads.subrange(0, index as int)),
                    self.series@[index as int].points@,
                    *query,
                );
            }
            retain_metric_winners(&mut winners, &self.series[index].points, query);
            index = index + 1;
        }
        let ghost from_heads = head_points(heads);
        proof {
            assert(heads.subrange(0, index as int) =~= heads);
            assert(chunks.subrange(0, 0) =~= Seq::<SealedModel>::empty());
            assert(from_heads + Seq::<DurableMetricPoint>::empty() =~= from_heads);
        }
        let mut at: usize = 0;
        while at < self.chunks.len()
            invariant
                at <= self.chunks@.len(),
                chunks == self@.chunks,
                points_of(winners@) == winners_with(
                    Seq::empty(),
                    from_heads + chunk_points(chunks.subrange(0, at as int)),
                    *query,
                ),
            decreases self.chunks@.len() - at,
        {
            proof {
                let part = chunks.subrange(0, at + 1);
                let added = self.chunks@[at as int].points@;
                let early = chunk_points(chunks.subrange(0, at as int));
                assert(part.drop_last() =~= chunks.subrange(0, at as int));
                assert(part.last() == self.chunks@[at as int]@);
                lemma_winners_concat(Seq::empty(), from_heads + early, added, *query);
                assert((from_heads + early) + added =~= from_heads + (early + added));
            }
            retain_metric_winners(&mut winners, &self.chunks[at].points, query);
            at = at + 1;
        }
        proof {
            assert(chunks.subrange(0, at as int) =~= chunks);
        }
        let sorted_winners = sort_points(&winners);
        let ghost sorted = points_of(sorted_winners@);
        let limit: usize = query.limit;
        let mut result: Vec<&'a DurableMetricPoint> = Vec::new();
        let mut next: usize = 0;
        proof {
            assert(points_of(result@) =~= sorted.subrange(0, 0));
        }
        while next < sorted_winners.len() && next < limit
            invariant
                next <= sorted_winners@.len(),
                next <= limit,
                sorted == points_of(sorted_winners@),
                points_of(result@) == sorted.subrange(0, next as int),
            decreases sorted_winners@.len() - next,
        {
            let point = sorted_winners[next];
            proof {
                assert(sorted[next as int] == *point);
                assert(points_of(result@.push(point)) =~= points_of(result@).push(*point));
                assert(sorted.subrange(0, next + 1) =~= sorted.subrange(0, next as int).push(
                    sorted[next as int],
                ));
            }
            result.push(point);
            next = next + 1;
        }
        proof {
            if sorted.len() <= limit {
                assert(sorted.subrange(0, next as int) =~= sorted);
            }
        }
        result
    }
}

/// No two points are samples of one series at one time.
pub open spec fn one_per_slot(points: Seq<DurableMetricPoint>) -> bool {
    forall|i: int, j: int|
        0 <= i < j < points.len() ==> !same_slot(#[trigger] points[i], #[trigger] points[j])
}

/// Whether some point covers another: same slot and an offset not below.
pub open spec fn covered(points: Seq<DurableMetricPoint>, point: DurableMetricPoint) -> bool {
    exists|i: int|
        0 <= i < points.len() && same_slot(#[trigger] points[i], point) && points[i].offset
            >= point.offset
}

pub proof fn lemma_winner_from(
    winners: Seq<DurableMetricPoint>,
    point: DurableMetricPoint,
    from: int,
)
    requires
        0 <= from <= winners.len(),
    ensures
        from <= winner_from(winners, point, from) <= winners.len(),
        winner_from(winners, point, from) < winners.len() ==> same_slot(
            winners[winner_from(winners, point, from)],
            point,
        ),
        forall|i: int|
            from <= i < winner_from(winners, point, from) ==> !same_slot(
                #[trigger] winners[i],
                point,
            ),
    decreases winners.len() - from,
{
    if from < winners.len() && !same_slot(winners[from], point) {
        lemma_winner_from(winners, point, from + 1);
    }
}

proof fn lemma_add_winner(winners: Seq<DurableMetricPoint>, point: DurableMetricPoint)
    requires
        one_per_slot(winners),
    ensures
        one_per_slot(add_winner(winners, point)),
        covered(add_winner(winners, point), point),
        forall|other: DurableMetricPoint| #[trigger]
            covered(winners, other) ==> covered(add_winner(winners, point), other),
        forall|i: int|
            0 <= i < add_winner(winners, point).len() ==> {
                let got = #[trigger] add_winner(winners, point)[i];
                got == point || winners.contains(got)
            },
{
    let at = winner_from(winners, point, 0);
    let result = add_winner(winners, point);
    lemma_winner_from(winners, point, 0);
    if at >= winners.len() {
        assert(result[winners.len() as int] == point);
        assert forall|i: int, j: int| 0 <= i < j < result.len() implies !same_slot(
            #[trigger] result[i],
            #[trigger] result[j],
        ) by {
            assert(result[i] == winners[i]);
        }
        assert forall|other: DurableMetricPoint| #[trigger]
            covered(winners, other) implies covered(result, other) by {
            let i = choose|i: int|
                0 <= i < winners.len() && same_slot(#[trigger] winners[i], other)
                    && winners[i].offset >= other.offset;
            assert(result[i] == winners[i]);
        }
        assert forall|i: int| 0 <= i < result.len() implies {
            let got = #[trigger] result[i];
            got == point || winners.contains(got)
        } by {
            if i < winners.len() {
                assert(result[i] == winners[i]);
            }
        }
    } else if winners[at].offset < point.offset {
        assert(result[at] == point);
        assert forall|i: int, j: int| 0 <= i < j < result.len() implies !same_slot(
            #[trigger] result[i],
            #[trigger] result[j],
        ) by {
            assert(same_slot(result[i], winners[i]));
            assert(same_slot(result[j], winners[j]));
            assert(!same_slot(winners[i], winners[j]));
        }
        assert forall|other: DurableMetricPoint| #[trigger]
            covered(winners, other) implies covered(result, other) by {
            let i = choose|i: int|
                0 <= i < winners.len() && same_slot(#[trigger] winners[i], other)
                    && winners[i].offset >= other.offset;
            assert(same_slot(result[i], other) && result[i].offset >= other.offset);
        }
        assert forall|i: int| 0 <= i < result.len() implies {
            let got = #[trigger] result[i];
            got == point || winners.contains(got)
        } by {
            if i != at {
                assert(result[i] == winners[i]);
            }
        }
    } else {
        assert(same_slot(winners[at], point));
        assert forall|i: int| 0 <= i < result.len() implies {
            let got = #[trigger] result[i];
            got == point || winners.contains(got)
        } by {
            assert(result[i] == winners[i]);
        }
    }
}

/// Of all selected samples of a series at one time, exactly the one with the
/// highest offset competes: winners are selected points, one per series and time,
/// and none of the selected points has a higher offset.
pub proof fn winners_have_highest_offsets(points: Seq<DurableMetricPoint>, query: MetricQuery)
    ensures
        one_per_slot(winners_with(Seq::empty(), points, query)),
        forall|i: int|
            0 <= i < points.len() && selects(query, #[trigger] points[i]) ==> covered(
                winners_with(Seq::empty(), points, query),
                points[i],
            ),
        forall|i: int|
            0 <= i < winners_with(Seq::empty(), points, query).len() ==> {
                let got = #[trigger] winners_with(Seq::empty(), points, query)[i];
                points.contains(got) && selects(query, got)
            },
    decreases points.len(),
{
    if points.len() > 0 {
        let front = points.drop_last();
        let early = winners_with(Seq::empty(), front, query);
        let result = winners_with(Seq::empty(), points, query);
        winners_have_highest_offsets(front, query);
        if selects(query, points.last()) {
            lemma_add_winner(early, points.last());
        }
        assert forall|i: int| 0 <= i < points.len() && selects(query, #[trigger] points[i]) implies
            covered(result, points[i]) by {
            if i < front.len() {
                assert(front[i] == points[i]);
                assert(covered(early, points[i]));
            }
        }
        assert forall|i: int| 0 <= i < result.len() implies {
            let got = #[trigger] result[i];
            points.contains(got) && selects(query, got)
        } by {
            let got = result[i];
            if selects(query, points.last()) && got == points.last() {
                assert(points[points.len() - 1] == got);
            } else {
                assert(early.contains(got));
                let j = choose|j: int| 0 <= j < early.len() && early[j] == got;
                assert(front.contains(early[j]));
                let k = choose|k: int| 0 <= k < front.len() && front[k] == got;
                assert(points[k] == got);
            }
        }
    }
}

/// Checkpoint of a head.
pub open spec fn head_checkpoint(head: HeadModel) -> SeriesAccumulatorCheckpoint {
    SeriesAccumulatorCheckpoint {
        series: head.series,
        topic_partition: head.topic_partition,
        reset_generation: head.reset_generation,
        latest_timestamp_unix_nanos: head.latest,
        cumulative: head.cumulative,
    }
}

/// Whether a partition is wanted; `None` wants all.
pub open spec fn wanted(partition: Option<TopicPartition>, observed: TopicPartition) -> bool {
    partition matches Some(only) ==> only == observed
}

/// Recovered accumulators of a partition.
pub open spec fn recovered_in(
    recovered: Seq<SeriesAccumulatorCheckpoint>,
    partition: Option<TopicPartition>,
) -> Seq<SeriesAccumulatorCheckpoint>
    decreases recovered.len(),
{
    if recovered.len() == 0 {
        Seq::empty()
    } else {
        let front = recovered_in(recovered.drop_last(), partition);
        if wanted(partition, recovered.last().topic_partition) {
            front.push(recovered.last())
        } else {
            front
        }
    }
}

/// Checkpoints of the heads of a partition.
pub open spec fn heads_in(heads: Seq<HeadModel>, partition: Option<TopicPartition>) -> Seq<
    SeriesAccumulatorCheckpoint,
>
    decreases heads.len(),
{
    if heads.len() == 0 {
        Seq::empty()
    } else {
        let front = heads_in(heads.drop_last(), partition);
        if wanted(partition, heads.last().topic_partition) {
            front.push(head_checkpoint(heads.last()))
        } else {
            front
        }
    }
}

/// Series of checkpoints.
pub open spec fn series_keys(checkpoints: Seq<SeriesAccumulatorCheckpoint>) -> Seq<u128> {
    checkpoints.map_values(|checkpoint: SeriesAccumulatorCheckpoint| checkpoint.series)
}

/// Accumulator checkpoints of a partition by series.
pub open spec fn checkpoints_of(stripe: StripeModel, partition: Option<TopicPartition>) -> Seq<
    SeriesAccumulatorCheckpoint,
> {
    let all = recovered_in(stripe.recovered, partition) + heads_in(stripe.heads, partition);
    arranged(all, order_of(series_keys(all)))
}

impl MetricStripe {
    /// Exact accumulator checkpoints of one partition, or of all, by series.
    fn collect_checkpoints(&self, partition: Option<TopicPartition>) -> (checkpoints: Vec<
        SeriesAccumulatorCheckpoint,
    >)
        ensures
            checkpoints@ == checkpoints_of(self@, partition),
    {
        let ghost recovered = self@.recovered;
        let ghost heads = self@.heads;
        let mut all: Vec<SeriesAccumulatorCheckpoint> = Vec::new();
        let mut index: usize = 0;
        proof {
            assert(recovered.subrange(0, 0) =~= Seq::<SeriesAccumulatorCheckpoint>::empty());
        }
        while index < self.recovered_accumulators.len()
            invariant
                index <= self.recovered_accumulators@.len(),
                recovered == self.recovered_accumulators@,
                all@ == recovered_in(recovered.subrange(0, index as int), partition),
            decreases self.recovered_accumulators@.len() - index,
        {
            proof {
                let part = recovered.subrange(0, index + 1);
                assert(part.drop_last() =~= recovered.subrange(0, index as int));
                assert(part.last() == recovered[index as int]);
            }
            let checkpoint = self.recovered_accumulators[index];
            let take = match partition {
                Some(only) => only == checkpoint.topic_partition,
                None => true,
            };
            if take {
                all.push(checkpoint);
            }
            index = index + 1;
        }
        let ghost early = recovered_in(recovered, partition);
        let mut at: usize = 0;
        proof {
            assert(recovered.subrange(0, index as int) =~= recovered);
            assert(heads.subrange(0, 0) =~= Seq::<HeadModel>::empty());
            assert(early + Seq::<SeriesAccumulatorCheckpoint>::empty() =~= early);
        }
        while at < self.series.len()
            invariant
                at <= self.series@.len(),
                heads == self@.heads,
                all@ == early + heads_in(heads.subrange(0, at as int), partition),
            decreases self.series@.len() - at,
        {
            let head = &self.series[at];
            proof {
                let part = heads.subrange(0, at + 1);
                assert(part.drop_last() =~= heads.subrange(0, at as int));
                assert(part.last() == head@);
                assert(early + heads_in(heads.subrange(0, at as int), partition).push(
                    head_checkpoint(head@),
                ) =~= (early + heads_in(heads.subrange(0, at as int), partition)).push(
                    head_checkpoint(head@),
                ));
            }
            let take = match partition {
                Some(only) => only == head.topic_partition,
                None => true,
            };
            if take {
                all.push(
                    SeriesAccumulatorCheckpoint {
                        series: head.series,
                        topic_partition: head.topic_partition,
                        reset_generation: head.reset_generation,
                        latest_timestamp_unix_nanos: head.latest_timestamp,
                        cumulative: head.cumulative,
                    },
                );
            }
            at = at + 1;
        }
        proof {
            assert(heads.subrange(0, at as int) =~= heads);
        }
        let mut keys: Vec<u128> = Vec::new();
        let mut place: usize = 0;
        while place < all.len()
            invariant
                place <= all@.len(),
                keys@.len() == place,
                forall|i: int| 0 <= i < place ==> keys@[i] == series_keys(all@)[i],
            decreases all@.len() - place,
        {
            keys.push(all[place].series);
            place = place + 1;
        }
        proof {
            assert(keys@ =~= series_keys(all@));
        }
        let order = stable_order(&keys);
        let mut sorted: Vec<SeriesAccumulatorCheckpoint> = Vec::new();
        let mut next: usize = 0;
        let ghost result = arranged(all@, order@);
        while next < order.len()
            invariant
                next <= order@.len(),
                is_order(keys@, order@),
                keys@.len() == all@.len(),
                result == arranged(all@, order@),
                sorted@.len() == next,
                forall|i: int| 0 <= i < next ==> sorted@[i] == result[i],
            decreases order@.len() - next,
        {
            sorted.push(all[order[next]]);
            next = next + 1;
        }
        proof {
            assert(sorted@ =~= result);
        }
        sorted
    }

    /// Exact accumulator checkpoints for restart recovery.
    pub fn accumulator_checkpoints(&self) -> (checkpoints: Vec<SeriesAccumulatorCheckpoint>)
        ensures
            checkpoints@ == checkpoints_of(self@, None),
    {
        self.collect_checkpoints(None)
    }

    /// Exact accumulator checkpoints of one partition.
    pub fn accumulator_checkpoints_for_partition(&self, partition: TopicPartition) -> (checkpoints:
        Vec<SeriesAccumulatorCheckpoint>)
        ensures
            checkpoints@ == checkpoints_of(self@, Some(partition)),
    {
        self.collect_checkpoints(Some(partition))
    }

    /// Restores accumulator generations before accepting new points.
    pub fn restore_accumulator_checkpoints(
        &mut self,
        checkpoints: &Vec<SeriesAccumulatorCheckpoint>,
        metrics_topic: TopicId,
    ) -> (result: Result<(), TelemetryError>)
        requires
            old(self).counted(),
        ensures
            final(self).counted(),
            (final(self)@, result) == restored(old(self)@, checkpoints@, metrics_topic),
            sound(old(self)@) ==> sound(final(self)@),
    {
        let mut index: usize = 0;
        proof {
            assert(checkpoints@.subrange(0, 0) =~= Seq::<SeriesAccumulatorCheckpoint>::empty());
        }
        while index < checkpoints.len()
            invariant
                index <= checkpoints@.len(),
                self.counted(),
                restored(old(self)@, checkpoints@.subrange(0, index as int), metrics_topic) == (
                    self@,
                    Ok::<(), TelemetryError>(()),
                ),
            decreases checkpoints@.len() - index,
        {
            let ghost before = self@;
            let ghost part = checkpoints@.subrange(0, index + 1);
            proof {
                assert(part.drop_last() =~= checkpoints@.subrange(0, index as int));
                assert(part.last() == checkpoints@[index as int]);
            }
            match self.restore_one(checkpoints[index], metrics_topic) {
                Ok(_) => {},
                Err(error) => {
                    proof {
                        lemma_restored_error(
                            old(self)@,
                            checkpoints@,
                            index + 1,
                            metrics_topic,
                        );
                        if sound(old(self)@) {
                            restored_stay_sound(old(self)@, checkpoints@, metrics_topic);
                        }
                    }
                    return Err(error);
                },
            }
            index = index + 1;
        }
        proof {
            assert(checkpoints@.subrange(0, index as int) =~= checkpoints@);
            if sound(old(self)@) {
                restored_stay_sound(old(self)@, checkpoints@, metrics_topic);
            }
        }
        Ok(())
    }

    /// Restores one accumulator.
    fn restore_one(&mut self, checkpoint: SeriesAccumulatorCheckpoint, metrics_topic: TopicId) -> (
    result: Result<(), TelemetryError>)
        requires
            old(self).counted(),
        ensures
            final(self).counted(),
            (final(self)@, result) == restored_one(old(self)@, checkpoint, metrics_topic),
    {
        if checkpoint.topic_partition.topic_id != metrics_topic {
            return Err(TelemetryError::InvalidBlockEncoding(MetricFault::CheckpointTopic));
        }
        let ghost before = self@;
        let ghost raw = self.series@;
        let mut at: usize = 0;
        while at < self.series.len() && self.series[at].series != checkpoint.series
            invariant
                at <= self.series@.len(),
                head_from(self@.heads, checkpoint.series, 0) == head_from(
                    self@.heads,
                    checkpoint.series,
                    at as int,
                ),
            decreases self.series@.len() - at,
        {
            at = at + 1;
        }
        if at < self.series.len() {
            proof {
                assert(before.heads[at as int] == raw[at as int]@);
            }
            if self.series[at].topic_partition != checkpoint.topic_partition {
                return Err(TelemetryError::InvalidBlockEncoding(MetricFault::CheckpointPartition));
            }
            self.series[at].reset_generation = checkpoint.reset_generation;
            self.series[at].latest_timestamp = checkpoint.latest_timestamp_unix_nanos;
            self.series[at].cumulative = checkpoint.cumulative;
            proof {
                assert(self@.heads =~= before.heads.update(
                    at as int,
                    with_checkpoint(before.heads[at as int], checkpoint),
                ));
                crate::metric_stripe::lemma_total_update(
                    before.heads,
                    at as int,
                    with_checkpoint(before.heads[at as int], checkpoint),
                );
                assert forall|i: int| 0 <= i < self.series@.len() implies (
                #[trigger] self.series@[i]).bytes == crate::metric_stripe::bytes_of(
                    self.series@[i].points@,
                ) by {
                    if i != at {
                        assert(self.series@[i] == raw[i]);
                    }
                }
            }
            return Ok(());
        }
        let mut place: usize = 0;
        while place < self.recovered_accumulators.len()
            && self.recovered_accumulators[place].series != checkpoint.series
            invariant
                place <= self.recovered_accumulators@.len(),
                crate::metric_stripe::recovered_from(
                    self.recovered_accumulators@,
                    checkpoint.series,
                    0,
                ) == crate::metric_stripe::recovered_from(
                    self.recovered_accumulators@,
                    checkpoint.series,
                    place as int,
                ),
            decreases self.recovered_accumulators@.len() - place,
        {
            place = place + 1;
        }
        if place < self.recovered_accumulators.len() {
            self.recovered_accumulators[place] = checkpoint;
            return Err(TelemetryError::InvalidBlockEncoding(MetricFault::DuplicateCheckpoint));
        }
        self.recovered_accumulators.push(checkpoint);
        Ok(())
    }
}

/// A head with the accumulator of a checkpoint.
pub open spec fn with_checkpoint(
    head: HeadModel,
    checkpoint: SeriesAccumulatorCheckpoint,
) -> HeadModel {
    HeadModel {
        reset_generation: checkpoint.reset_generation,
        latest: checkpoint.latest_timestamp_unix_nanos,
        cumulative: checkpoint.cumulative,
        ..head
    }
}

/// A stripe with one accumulator restored.
pub open spec fn restored_one(
    stripe: StripeModel,
    checkpoint: SeriesAccumulatorCheckpoint,
    metrics_topic: TopicId,
) -> (StripeModel, Result<(), TelemetryError>) {
    let at = head_from(stripe.heads, checkpoint.series, 0);
    let r = crate::metric_stripe::recovered_from(stripe.recovered, checkpoint.series, 0);
    if checkpoint.topic_partition.topic_id != metrics_topic {
        (stripe, Err(fault(MetricFault::CheckpointTopic)))
    } else if at < stripe.heads.len() {
        if stripe.heads[at].topic_partition != checkpoint.topic_partition {
            (stripe, Err(fault(MetricFault::CheckpointPartition)))
        } else {
            (
                StripeModel {
                    heads: stripe.heads.update(at, with_checkpoint(stripe.heads[at], checkpoint)),
                    ..stripe
                },
                Ok(()),
            )
        }
    } else if r < stripe.recovered.len() {
        (
            StripeModel { recovered: stripe.recovered.update(r, checkpoint), ..stripe },
            Err(fault(MetricFault::DuplicateCheckpoint)),
        )
    } else {
        (StripeModel { recovered: stripe.recovered.push(checkpoint), ..stripe }, Ok(()))
    }
}

/// A stripe with accumulators restored in order, up to the first failure.
pub open spec fn restored(
    stripe: StripeModel,
    checkpoints: Seq<SeriesAccumulatorCheckpoint>,
    metrics_topic: TopicId,
) -> (StripeModel, Result<(), TelemetryError>)
    decreases checkpoints.len(),
{
    if checkpoints.len() == 0 {
        (stripe, Ok(()))
    } else {
        let (before, result) = restored(stripe, checkpoints.drop_last(), metrics_topic);
        match result {
            Err(error) => (before, Err(error)),
            Ok(_) => restored_one(before, checkpoints.last(), metrics_topic),
        }
    }
}

proof fn lemma_restored_error(
    stripe: StripeModel,
    checkpoints: Seq<SeriesAccumulatorCheckpoint>,
    n: int,
    metrics_topic: TopicId,
)
    requires
        0 <= n <= checkpoints.len(),
        restored(stripe, checkpoints.subrange(0, n), metrics_topic).1 is Err,
    ensures
        restored(stripe, checkpoints, metrics_topic) == restored(
            stripe,
            checkpoints.subrange(0, n),
            metrics_topic,
        ),
    decreases checkpoints.len(),
{
    if n < checkpoints.len() {
        assert(checkpoints.drop_last().subrange(0, n) =~= checkpoints.subrange(0, n));
        lemma_restored_error(stripe, checkpoints.drop_last(), n, metrics_topic);
    } else {
        assert(checkpoints.subrange(0, n) =~= checkpoints);
    }
}

} // verus!
