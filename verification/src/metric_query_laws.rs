//! What a metric query answers, point by point.
use vstd::prelude::*;

use crate::labels::{ascending, lookup, pairs_view};
use crate::map_laws::{
    binds_last, collecting_keeps_last_values, lemma_binds_last_push, lookup_finds_the_pair,
};
use crate::metric_laws::holds;
use crate::metric_point::{
    prometheus_labels, text_attributes, DurableMetricPoint, MetricIdentity, TelemetryAttribute,
    TelemetryValue,
};
use crate::metric_query::{
    all_points, covered, in_answer_order, query_result, same_slot, selects,
    winners_have_highest_offsets, winners_with, MetricQuery,
};
use crate::metric_sound::{
    answered_before, lemma_all_points_members, lemma_answer_order, lemma_winners_len,
};
use crate::metric_stripe::StripeModel;

verus! {

broadcast use vstd::seq_lib::group_seq_properties;

/// Whether an attribute has a name and holds a text.
pub open spec fn text_attribute(attribute: TelemetryAttribute, name: Seq<char>) -> bool {
    attribute.key@ == name && (attribute.value matches Some(TelemetryValue::Text(_)))
}

/// Whether the last text attribute of a name holds a text.
pub open spec fn attributes_say(
    attributes: Seq<TelemetryAttribute>,
    name: Seq<char>,
    text: Seq<char>,
) -> bool {
    exists|i: int|
        {
            &&& 0 <= i < attributes.len()
            &&& text_attribute(#[trigger] attributes[i], name)
            &&& attributes[i].value->0->Text_0@ == text
            &&& forall|j: int|
                i < j < attributes.len() ==> !text_attribute(#[trigger] attributes[j], name)
        }
}

proof fn lemma_say_push(attributes: Seq<TelemetryAttribute>, name: Seq<char>, text: Seq<char>)
    requires
        attributes.len() > 0,
    ensures
        attributes_say(attributes, name, text) <==> if text_attribute(attributes.last(), name) {
            attributes.last().value->0->Text_0@ == text
        } else {
            attributes_say(attributes.drop_last(), name, text)
        },
{
    let front = attributes.drop_last();
    let end = attributes.len() - 1;
    assert(attributes[end] == attributes.last());
    if attributes_say(attributes, name, text) {
        let i = choose|i: int|
            {
                &&& 0 <= i < attributes.len()
                &&& text_attribute(#[trigger] attributes[i], name)
                &&& attributes[i].value->0->Text_0@ == text
                &&& forall|j: int|
                    i < j < attributes.len() ==> !text_attribute(#[trigger] attributes[j], name)
            };
        if i < end {
            assert(!text_attribute(attributes[end], name));
            assert(text_attribute(front[i], name));
            assert forall|j: int| i < j < front.len() implies !text_attribute(
                #[trigger] front[j],
                name,
            ) by {
                assert(front[j] == attributes[j]);
            }
        }
    }
    if text_attribute(attributes.last(), name) && attributes.last().value->0->Text_0@ == text {
        assert(text_attribute(attributes[end], name));
    }
    if !text_attribute(attributes.last(), name) && attributes_say(front, name, text) {
        let i = choose|i: int|
            {
                &&& 0 <= i < front.len()
                &&& text_attribute(#[trigger] front[i], name)
                &&& front[i].value->0->Text_0@ == text
                &&& forall|j: int|
                    i < j < front.len() ==> !text_attribute(#[trigger] front[j], name)
            };
        assert(text_attribute(attributes[i], name));
        assert forall|j: int| i < j < attributes.len() implies !text_attribute(
            #[trigger] attributes[j],
            name,
        ) by {
            if j < end {
                assert(attributes[j] == front[j]);
            }
        }
    }
}

proof fn lemma_texts(attributes: Seq<TelemetryAttribute>, name: Seq<char>, text: Seq<char>)
    ensures
        binds_last(text_attributes(attributes), name, text) <==> attributes_say(
            attributes,
            name,
            text,
        ),
    decreases attributes.len(),
{
    if attributes.len() > 0 {
        let front = attributes.drop_last();
        lemma_texts(front, name, text);
        lemma_say_push(attributes, name, text);
        let pairs = text_attributes(attributes);
        if let Some(TelemetryValue::Text(value)) = attributes.last().value {
            lemma_binds_last_push(pairs, name, text);
            assert(pairs.drop_last() =~= text_attributes(front));
        }
    }
}

proof fn lemma_texts_join(first: Seq<TelemetryAttribute>, second: Seq<TelemetryAttribute>)
    ensures
        text_attributes(first + second) == text_attributes(first) + text_attributes(second),
    decreases second.len(),
{
    if second.len() == 0 {
        assert(first + second =~= first);
        assert(text_attributes(first) + text_attributes(second) =~= text_attributes(first));
    } else {
        lemma_texts_join(first, second.drop_last());
        assert((first + second).drop_last() =~= first + second.drop_last());
        assert((first + second).last() == second.last());
        assert(text_attributes(first + second) =~= text_attributes(first) + text_attributes(
            second,
        ));
    }
}

/// A series has a label exactly where its attributes say so: the last text attribute of the
/// name counts, and those of the point come behind those of the resource.
pub proof fn labels_are_text_attributes(
    identity: MetricIdentity,
    name: Seq<char>,
    text: Seq<char>,
)
    ensures
        prometheus_labels(identity).contains((name, text)) <==> attributes_say(
            identity.resource_attributes@ + identity.point_attributes@,
            name,
            text,
        ),
        ascending(prometheus_labels(identity)),
{
    let all = identity.resource_attributes@ + identity.point_attributes@;
    lemma_texts_join(identity.resource_attributes@, identity.point_attributes@);
    lemma_texts(all, name, text);
    collecting_keeps_last_values(text_attributes(all), name, text);
    assert(binds_last(text_attributes(all), name, text) <==> prometheus_labels(identity).contains(
        (name, text),
    ));
}

/// What a query asks of a point: its tenant, its series and name where they are given, a time
/// in the range, and every label.
pub open spec fn is_asked_for(query: MetricQuery, point: DurableMetricPoint) -> bool {
    &&& point.identity.tenant@ == query.tenant@
    &&& query.series is Some ==> point.series == query.series->0
    &&& query.name is Some ==> point.identity.name@ == query.name->0@
    &&& query.start_time_unix_nanos is Some ==> query.start_time_unix_nanos->0
        <= point.timestamp_unix_nanos
    &&& query.end_time_unix_nanos is Some ==> point.timestamp_unix_nanos
        <= query.end_time_unix_nanos->0
    &&& forall|i: int|
        0 <= i < query.exact_labels@.len() ==> attributes_say(
            point.identity.resource_attributes@ + point.identity.point_attributes@,
            (#[trigger] query.exact_labels@[i]).0@,
            query.exact_labels@[i].1@,
        )
}

proof fn lemma_selects(query: MetricQuery, point: DurableMetricPoint)
    ensures
        selects(query, point) == is_asked_for(query, point),
{
    let labels = prometheus_labels(point.identity);
    let wanted = pairs_view(query.exact_labels@);
    let all = point.identity.resource_attributes@ + point.identity.point_attributes@;
    assert forall|i: int| 0 <= i < wanted.len() implies (lookup(labels, (#[trigger] wanted[i]).0)
        == Some(wanted[i].1)) == attributes_say(
        all,
        query.exact_labels@[i].0@,
        query.exact_labels@[i].1@,
    ) by {
        assert(wanted[i] == (query.exact_labels@[i].0@, query.exact_labels@[i].1@));
        labels_are_text_attributes(point.identity, wanted[i].0, wanted[i].1);
        lookup_finds_the_pair(labels, wanted[i].0);
        assert(labels.contains((wanted[i].0, wanted[i].1)) == attributes_say(
            all,
            wanted[i].0,
            wanted[i].1,
        ));
    }
    if is_asked_for(query, point) {
        assert forall|i: int| 0 <= i < wanted.len() implies lookup(
            labels,
            (#[trigger] wanted[i]).0,
        ) == Some(wanted[i].1) by {
            assert(attributes_say(
                all,
                query.exact_labels@[i].0@,
                query.exact_labels@[i].1@,
            ));
        }
    }
    if selects(query, point) {
        assert forall|i: int| 0 <= i < query.exact_labels@.len() implies attributes_say(
            all,
            (#[trigger] query.exact_labels@[i]).0@,
            query.exact_labels@[i].1@,
        ) by {
            assert(lookup(labels, wanted[i].0) == Some(wanted[i].1));
        }
    }
}

/// Whether a point comes before another one: by time, then by offset, then by series.
pub open spec fn earlier(first: DurableMetricPoint, second: DurableMetricPoint) -> bool {
    ||| first.timestamp_unix_nanos < second.timestamp_unix_nanos
    ||| first.timestamp_unix_nanos == second.timestamp_unix_nanos && first.offset < second.offset
    ||| first.timestamp_unix_nanos == second.timestamp_unix_nanos && first.offset == second.offset
        && first.series < second.series
}

/// Whether a stripe holds a point in a head or in a chunk.
pub open spec fn has_point(stripe: StripeModel, point: DurableMetricPoint) -> bool {
    ||| exists|i: int|
        0 <= i < stripe.heads.len() && (#[trigger] stripe.heads[i]).points.contains(point)
    ||| exists|i: int|
        0 <= i < stripe.chunks.len() && (#[trigger] stripe.chunks[i]).points.contains(point)
}

/// Every point that a query finds is held by the stripe and is what the query asks for: of its
/// tenant, its series and name where they are given, in its time range and with every label.
/// No held point that the query asks for has the same series and time and a higher offset. The
/// points come by time, offset and series, and are not more than the limit.
pub proof fn found_points_are_asked_for(stripe: StripeModel, query: MetricQuery)
    requires
        all_points(stripe).len() <= usize::MAX,
    ensures
        query_result(stripe, query).len() <= query.limit,
        forall|i: int|
            0 <= i < query_result(stripe, query).len() ==> {
                let point = #[trigger] query_result(stripe, query)[i];
                &&& has_point(stripe, point)
                &&& point.identity.tenant@ == query.tenant@
                &&& query.series is Some ==> point.series == query.series->0
                &&& query.name is Some ==> point.identity.name@ == query.name->0@
                &&& query.start_time_unix_nanos is Some ==> query.start_time_unix_nanos->0
                    <= point.timestamp_unix_nanos
                &&& query.end_time_unix_nanos is Some ==> point.timestamp_unix_nanos
                    <= query.end_time_unix_nanos->0
                &&& forall|k: int|
                    0 <= k < query.exact_labels@.len() ==> attributes_say(
                        point.identity.resource_attributes@ + point.identity.point_attributes@,
                        (#[trigger] query.exact_labels@[k]).0@,
                        query.exact_labels@[k].1@,
                    )
            },
        forall|i: int, other: DurableMetricPoint|
            0 <= i < query_result(stripe, query).len() && #[trigger] has_point(stripe, other)
                && is_asked_for(query, other) && other.series == query_result(
                stripe,
                query,
            )[i].series && other.timestamp_unix_nanos == query_result(
                stripe,
                query,
            )[i].timestamp_unix_nanos ==> other.offset <= (#[trigger] query_result(
                stripe,
                query,
            )[i]).offset,
        forall|i: int, j: int|
            0 <= i < j < query_result(stripe, query).len() ==> earlier(
                #[trigger] query_result(stripe, query)[i],
                #[trigger] query_result(stripe, query)[j],
            ),
{
    let points = all_points(stripe);
    let winners = winners_with(Seq::empty(), points, query);
    let sorted = in_answer_order(winners);
    let result = query_result(stripe, query);
    winners_have_highest_offsets(points, query);
    lemma_winners_len(points, query);
    lemma_answer_order(winners);
    assert forall|i: int| 0 <= i < result.len() implies #[trigger] winners.contains(result[i])
        && has_point(stripe, result[i]) && is_asked_for(query, result[i]) by {
        assert(result[i] == sorted[i]);
        assert(sorted.contains(sorted[i]));
        assert(winners.contains(result[i]));
        let k = choose|k: int| 0 <= k < winners.len() && winners[k] == result[i];
        assert(points.contains(winners[k]) && selects(query, winners[k]));
        lemma_all_points_members(stripe, result[i]);
        lemma_selects(query, result[i]);
    }
    assert forall|i: int| 0 <= i < result.len() implies {
        let point = #[trigger] result[i];
        &&& has_point(stripe, point)
        &&& is_asked_for(query, point)
    } by {
        assert(winners.contains(result[i]));
    }
    assert forall|i: int, other: DurableMetricPoint|
        0 <= i < result.len() && #[trigger] has_point(stripe, other) && is_asked_for(query, other)
            && other.series == result[i].series && other.timestamp_unix_nanos
            == result[i].timestamp_unix_nanos implies other.offset <= (
    #[trigger] result[i]).offset by {
        assert(winners.contains(result[i]));
        let k = choose|k: int| 0 <= k < winners.len() && winners[k] == result[i];
        lemma_selects(query, other);
        lemma_all_points_members(stripe, other);
        let m = choose|m: int| 0 <= m < points.len() && points[m] == other;
        assert(covered(winners, points[m]));
        let n = choose|n: int|
            0 <= n < winners.len() && same_slot(#[trigger] winners[n], other) && winners[n].offset
                >= other.offset;
        if n < k {
            assert(!same_slot(winners[n], winners[k]));
        } else if k < n {
            assert(!same_slot(winners[k], winners[n]));
        }
    }
    assert forall|i: int, j: int| 0 <= i < j < result.len() implies earlier(
        #[trigger] result[i],
        #[trigger] result[j],
    ) by {
        assert(result[i] == sorted[i] && result[j] == sorted[j]);
        assert(answered_before(sorted[i], sorted[j]));
    }
}

/// A query leaves out nothing that it asks for: for every held point of its tenant, series,
/// name, time range and labels the answer has a point of the same series and time with an
/// offset that is not lower, unless the answer is as long as the limit and such a point would
/// come behind all of it.
pub proof fn asked_for_points_are_found(
    stripe: StripeModel,
    query: MetricQuery,
    point: DurableMetricPoint,
)
    requires
        all_points(stripe).len() <= usize::MAX,
        has_point(stripe, point),
        is_asked_for(query, point),
    ensures
        ({
            let result = query_result(stripe, query);
            ||| exists|i: int|
                {
                    &&& 0 <= i < result.len()
                    &&& (#[trigger] result[i]).series == point.series
                    &&& result[i].timestamp_unix_nanos == point.timestamp_unix_nanos
                    &&& result[i].offset >= point.offset
                }
            ||| result.len() == query.limit && exists|better: DurableMetricPoint|
                {
                    &&& #[trigger] has_point(stripe, better)
                    &&& is_asked_for(query, better)
                    &&& better.series == point.series
                    &&& better.timestamp_unix_nanos == point.timestamp_unix_nanos
                    &&& better.offset >= point.offset
                    &&& forall|i: int|
                        0 <= i < result.len() ==> earlier(#[trigger] result[i], better)
                }
        }),
{
    let points = all_points(stripe);
    let winners = winners_with(Seq::empty(), points, query);
    let sorted = in_answer_order(winners);
    let result = query_result(stripe, query);
    winners_have_highest_offsets(points, query);
    lemma_winners_len(points, query);
    lemma_answer_order(winners);
    lemma_selects(query, point);
    lemma_all_points_members(stripe, point);
    let m = choose|m: int| 0 <= m < points.len() && points[m] == point;
    assert(covered(winners, points[m]));
    let n = choose|n: int|
        0 <= n < winners.len() && same_slot(#[trigger] winners[n], point) && winners[n].offset
            >= point.offset;
    let better = winners[n];
    assert(points.contains(winners[n]) && selects(query, winners[n]));
    lemma_selects(query, better);
    lemma_all_points_members(stripe, better);
    assert(has_point(stripe, better));
    assert(winners.contains(better));
    assert(sorted.contains(better));
    let at = choose|at: int| 0 <= at < sorted.len() && sorted[at] == better;
    if at < result.len() {
        assert(result[at] == better);
    } else {
        assert(result.len() == query.limit);
        assert forall|i: int| 0 <= i < result.len() implies earlier(
            #[trigger] result[i],
            better,
        ) by {
            assert(result[i] == sorted[i]);
            assert(answered_before(sorted[i], sorted[at]));
        }
    }
}

} // verus!
