//! Laws of plans made from request parameters, and of rows handed out in batches.
use vstd::prelude::*;

use crate::analytics::{batched, column_of, column_names_are_distinct, columns_of, AnalyticsColumn};
use crate::labels::Pairs;
use crate::loki_query::{label_name, parse_query_text};
use crate::loki_read::{
    all_parameters, bounded_limit, label_values_plan, selectors_of, series_plan_of,
    series_selectors, stream_plan_of, tenant_of, QueryParamsModel,
};
use crate::loki_stats::{label_list, patterns_plan_of, query_or_all, selection_of};
use crate::loki_time::{range_bounds, step_of, TimeModel, TimeRangeModel};
use crate::written_laws::values_named;

verus! {

broadcast use vstd::seq_lib::group_seq_properties;

/// A limit is the wanted one, or the default where none is given, but never above the largest.
pub proof fn limits_are_bounded(limit: Option<usize>, default_limit: usize, largest: usize)
    ensures
        bounded_limit(limit, default_limit, largest) <= largest,
        limit matches Some(wanted) ==> bounded_limit(limit, default_limit, largest) <= wanted && (
        wanted <= largest ==> bounded_limit(limit, default_limit, largest) == wanted),
        limit is None && default_limit <= largest ==> bounded_limit(limit, default_limit, largest)
            == default_limit,
        bounded_limit(limit, default_limit, largest) < largest ==> bounded_limit(
            limit,
            default_limit,
            largest,
        ) == limit.unwrap_or(default_limit),
{
}

/// A stream query is planned where it has a query that can be read and a span that can be
/// read: the plan asks for just those, for at most the allowed number of entries, and newest
/// entries come first unless it asks for the other direction.
pub proof fn stream_plans_follow_their_parameters(
    params: QueryParamsModel,
    largest: usize,
    now: i64,
)
    ensures
        ({
            let plan = stream_plan_of(params, largest, now);
            &&& plan is Ok <==> (params.query matches Some(query) && parse_query_text(query) is Ok)
                && range_bounds(params.range, now) is Ok
            &&& plan matches Ok(plan) ==> {
                &&& parse_query_text(params.query->0)->Ok_0 == plan.selector
                &&& range_bounds(params.range, now)->Ok_0 == (plan.start, plan.end)
                &&& plan.limit <= largest
                &&& params.limit matches Some(wanted) ==> plan.limit <= wanted && (wanted <= largest
                    ==> plan.limit == wanted)
                &&& params.limit is None ==> plan.limit <= 100
                &&& params.limit is None && largest >= 100 ==> plan.limit == 100
                &&& plan.backward <==> !(params.direction matches Some(direction) && direction
                    == "forward"@)
            }
        }),
{
}

/// A pattern query is planned where it has a query, a span and a step that can be read, and
/// its plan holds just those.
pub proof fn pattern_plans_follow_their_parameters(
    params: QueryParamsModel,
    step: Option<TimeModel>,
    now: i64,
)
    ensures
        ({
            let plan = patterns_plan_of(params, step, now);
            &&& plan is Ok <==> (params.query matches Some(query) && parse_query_text(query) is Ok)
                && range_bounds(params.range, now) is Ok && step_of(step) is Ok
            &&& plan matches Ok((selection, width)) ==> {
                &&& parse_query_text(params.query->0)->Ok_0 == selection.selector
                &&& range_bounds(params.range, now)->Ok_0 == (selection.start, selection.end)
                &&& step_of(step)->Ok_0 == width
            }
        }),
{
}

/// A selection asks for its query and its span; without a query it asks for everything.
pub proof fn selections_follow_their_parameters(params: QueryParamsModel, now: i64)
    ensures
        params.query matches Some(query) ==> query_or_all(params) == query,
        params.query is None ==> query_or_all(params) == "{}"@,
        ({
            let query = query_or_all(params);
            let selection = selection_of(query, params, now);
            &&& selection is Ok <==> parse_query_text(query) is Ok && range_bounds(
                params.range,
                now,
            ) is Ok
            &&& selection matches Ok(held) ==> {
                &&& parse_query_text(query)->Ok_0 == held.selector
                &&& range_bounds(params.range, now)->Ok_0 == (held.start, held.end)
            }
        }),
{
}

/// Values of a label are looked for in the given span, and only of a proper name.
pub proof fn label_values_need_a_name(name: Seq<char>, range: TimeRangeModel, now: i64)
    ensures
        label_values_plan(name, range, now) is Ok <==> label_name(name) && range_bounds(
            range,
            now,
        ) is Ok,
        label_values_plan(name, range, now) matches Ok(span) ==> range_bounds(range, now)->Ok_0
            == span,
{
}

/// A request is for the tenant that it names, and else for the default one.
pub proof fn requests_name_their_tenant(header: Option<Seq<char>>, default_tenant: Seq<char>)
    ensures
        header matches Some(name) ==> (name.len() > 0 ==> tenant_of(header, default_tenant)
            == name),
        (header is None || header->0.len() == 0) ==> tenant_of(header, default_tenant)
            == default_tenant,
{
}

/// Values of a parameter are those of the first parameters and those of the others.
pub proof fn parameters_join(first: Pairs, second: Pairs, name: Seq<char>)
    ensures
        all_parameters(first + second, name) == all_parameters(first, name) + all_parameters(
            second,
            name,
        ),
        second.len() == 1 ==> all_parameters(second, name) == if second[0].0 == name {
            seq![second[0].1]
        } else {
            Seq::empty()
        },
    decreases second.len(),
{
    if second.len() == 0 {
        assert(first + second =~= first);
        assert(all_parameters(first, name) + Seq::<Seq<char>>::empty() =~= all_parameters(
            first,
            name,
        ));
    } else {
        let all = first + second;
        parameters_join(first, second.drop_last(), name);
        assert(all.drop_last() =~= first + second.drop_last());
        assert(all.last() == second.last());
        if second.len() == 1 {
            assert(all_parameters(second.drop_last(), name) =~= Seq::<Seq<char>>::empty());
            assert(Seq::<Seq<char>>::empty().push(second[0].1) =~= seq![second[0].1]);
        }
        assert(all_parameters(all, name) =~= all_parameters(first, name) + all_parameters(
            second,
            name,
        ));
    }
}

proof fn lemma_parameters_named(parameters: Pairs, name: Seq<char>)
    ensures
        all_parameters(parameters, name) == values_named(parameters, name),
    decreases parameters.len(),
{
    if parameters.len() > 0 {
        lemma_parameters_named(parameters.drop_last(), name);
    }
}

/// Selectors are read one by one: all of them, in their order, where each can be read.
pub proof fn selectors_are_read_one_by_one(texts: Seq<Seq<char>>)
    ensures
        selectors_of(texts) is Ok <==> forall|i: int|
            0 <= i < texts.len() ==> parse_query_text(#[trigger] texts[i]) is Ok,
        selectors_of(texts) matches Ok(selectors) ==> {
            &&& selectors.len() == texts.len()
            &&& forall|i: int|
                0 <= i < texts.len() ==> parse_query_text(#[trigger] texts[i])->Ok_0
                    == selectors[i]
        },
    decreases texts.len(),
{
    if texts.len() > 0 {
        let early = texts.drop_last();
        selectors_are_read_one_by_one(early);
        assert(texts[texts.len() - 1] == texts.last());
        assert forall|i: int| 0 <= i < early.len() implies #[trigger] texts[i] == early[i] by {}
    }
}

/// The given selectors, or the one of everything.
pub open spec fn asked_selectors(parameters: Pairs) -> Seq<Seq<char>> {
    if values_named(parameters, "match[]"@).len() == 0 {
        seq!["{}"@]
    } else {
        values_named(parameters, "match[]"@)
    }
}

/// Series are asked for by every given selector, or all of them where none is given, in the
/// given span.
pub proof fn series_plans_follow_their_parameters(
    parameters: Pairs,
    range: TimeRangeModel,
    now: i64,
)
    ensures
        ({
            let texts = asked_selectors(parameters);
            let plan = series_plan_of(parameters, range, now);
            &&& plan is Ok <==> range_bounds(range, now) is Ok && forall|i: int|
                0 <= i < texts.len() ==> parse_query_text(#[trigger] texts[i]) is Ok
            &&& plan matches Ok(plan) ==> {
                &&& range_bounds(range, now)->Ok_0 == (plan.start, plan.end)
                &&& plan.selectors.len() == texts.len()
                &&& forall|i: int|
                    0 <= i < texts.len() ==> parse_query_text(#[trigger] texts[i])->Ok_0
                        == plan.selectors[i]
            }
        }),
{
    let texts = asked_selectors(parameters);
    lemma_parameters_named(parameters, "match[]"@);
    assert(series_selectors(parameters) == texts);
    selectors_are_read_one_by_one(texts);
}

/// Columns are read one by one: all of them, in their order, where each name is that of a
/// column.
pub proof fn columns_are_read_by_name(names: Seq<Seq<char>>)
    ensures
        columns_of(names) is Ok <==> forall|i: int|
            0 <= i < names.len() ==> exists|column: AnalyticsColumn|
                (#[trigger] names[i]) == #[trigger] column.text(),
        columns_of(names) matches Ok(columns) ==> {
            &&& columns.len() == names.len()
            &&& forall|i: int| 0 <= i < names.len() ==> #[trigger] names[i] == columns[i].text()
        },
    decreases names.len(),
{
    if names.len() > 0 {
        let early = names.drop_last();
        let last = names.last();
        columns_are_read_by_name(early);
        assert(names[names.len() - 1] == last);
        assert forall|i: int| 0 <= i < early.len() implies #[trigger] names[i] == early[i] by {}
        if column_of(last) is Some {
            assert(last == column_of(last)->0.text());
        }
        if exists|column: AnalyticsColumn| last == #[trigger] column.text() {
            let column = choose|column: AnalyticsColumn| last == #[trigger] column.text();
            column_names_are_distinct(column);
        }
    }
}

/// Batches joined.
pub open spec fn joined<T>(batches: Seq<Seq<T>>) -> Seq<T>
    decreases batches.len(),
{
    if batches.len() == 0 {
        Seq::empty()
    } else {
        batches[0] + joined(batches.subrange(1, batches.len() as int))
    }
}

/// Batches hold all items in their order; none is empty, and only the last is not full.
pub proof fn batches_hold_all_items<T>(items: Seq<T>)
    ensures
        joined(batched(items)) == items,
        forall|i: int|
            0 <= i < batched(items).len() ==> 0 < (#[trigger] batched(items)[i]).len() <= 8_192,
        forall|i: int|
            0 <= i < batched(items).len() - 1 ==> (#[trigger] batched(items)[i]).len() == 8_192,
    decreases items.len(),
{
    let batches = batched(items);
    if items.len() == 0 {
        assert(joined(batches) =~= items);
    } else if items.len() <= 8_192 {
        assert(batches.subrange(1, 1) =~= Seq::<Seq<T>>::empty());
        assert(joined(batches.subrange(1, 1)) =~= Seq::<T>::empty());
        assert(joined(batches) =~= items);
    } else {
        let first = items.subrange(0, 8_192);
        let rest = items.subrange(8_192, items.len() as int);
        batches_hold_all_items(rest);
        assert(batches.subrange(1, batches.len() as int) =~= batched(rest));
        assert(batches[0] == first);
        assert(joined(batches) =~= items);
        assert forall|i: int| 1 <= i < batches.len() implies #[trigger] batches[i] == batched(
            rest,
        )[i - 1] by {}
        assert(batched(rest).len() > 0);
    }
}

/// A list of labels is that of the first ones, a comma and that of the others.
pub proof fn label_lists_join(first: Pairs, second: Pairs)
    requires
        first.len() > 0,
        second.len() > 0,
    ensures
        label_list(first + second) == label_list(first) + ","@ + label_list(second),
    decreases second.len(),
{
    let all = first + second;
    assert(all.last() == second.last());
    assert(all.drop_last() =~= first + second.drop_last());
    if second.len() == 1 {
        assert(all.drop_last() =~= first);
    } else {
        label_lists_join(first, second.drop_last());
    }
    assert(label_list(all) =~= label_list(first) + ","@ + label_list(second));
}

} // verus!
