//! Reads: stream queries, labels, series, statistics, volumes and patterns.
use vstd::prelude::*;
use vstd::utf8::encode_utf8;

use crate::api_error::{bad, same_outcome, ApiFault, LokiApiError};
use crate::codec::same_text;
use crate::labels::{lookup, pairs_view, LabelMap, Pairs};
use crate::loki_entries::{
    group_streams, streams_of, streams_view, ResponseStream, StreamModel,
};
use crate::loki_query::{
    label_name, name_fault, parse_log_query, parse_query_text, selects_entry, validate_label_name,
    LogSelector, SelectorModel,
};
use crate::loki_time::{query_range_bounds, range_bounds, TimeRange, TimeRangeModel};
use crate::native_query::strings_view;
use crate::order::{arranged, lemma_order_exists, order_of, sorting_permutes, stable_order};
use crate::posting::limited;
use crate::record::{entries_view, EntryModel, LokiEntry};
use crate::text_set::{
    add_labels, add_text, insert_labels, insert_text, maps_view,
};

verus! {

broadcast use vstd::seq_lib::group_seq_properties;

/// Entries of a stream query that sets no limit.
pub const DEFAULT_QUERY_LIMIT: usize = 100;

/// Largest number of entries of a stream query, unless configured.
pub const MAX_QUERY_LIMIT: usize = 5_000;

/// Configuration of the HTTP boundary.
#[derive(Debug, PartialEq, Eq)]
pub struct LokiApiConfig {
    /// Tenant of requests that name none.
    pub default_tenant: String,
    /// Largest number of entries in a result.
    pub max_query_limit: usize,
}

impl Default for LokiApiConfig {
    fn default() -> (config: Self)
        ensures
            config.default_tenant@ == "fake"@,
            config.max_query_limit == MAX_QUERY_LIMIT,
    {
        LokiApiConfig { default_tenant: "fake".to_owned(), max_query_limit: MAX_QUERY_LIMIT }
    }
}

/// The tenant of a request.
pub open spec fn tenant_of(header: Option<Seq<char>>, default_tenant: Seq<char>) -> Seq<char> {
    match header {
        Some(name) => if name.len() > 0 {
            name
        } else {
            default_tenant
        },
        None => default_tenant,
    }
}

/// An optional text.
pub open spec fn optional_text(text: Option<String>) -> Option<Seq<char>> {
    match text {
        Some(text) => Some(text@),
        None => None,
    }
}

/// The tenant of a request, given the value of its tenant header.
pub fn tenant(header: &Option<String>, config: &LokiApiConfig) -> (name: String)
    ensures
        name@ == tenant_of(optional_text(*header), config.default_tenant@),
{
    match header {
        Some(name) => {
            if same_text(name, "") {
                proof {
                    reveal_strlit("");
                }
                config.default_tenant.clone()
            } else {
                proof {
                    reveal_strlit("");
                    if name@.len() == 0 {
                        assert(name@ =~= ""@);
                    }
                }
                name.clone()
            }
        },
        None => config.default_tenant.clone(),
    }
}

/// Whether an entry lies in an inclusive span of time.
pub open spec fn in_span(entry: EntryModel, start: i64, end: i64) -> bool {
    start <= entry.timestamp <= end
}

/// Entries in a span of time that a selector selects, in their order.
pub open spec fn matching_entries(
    entries: Seq<EntryModel>,
    selector: SelectorModel,
    start: i64,
    end: i64,
) -> Seq<EntryModel>
    decreases entries.len(),
{
    if entries.len() == 0 {
        Seq::empty()
    } else {
        let front = matching_entries(entries.drop_last(), selector, start, end);
        let last = entries.last();
        if in_span(last, start, end) && selects_entry(selector, last) {
            front.push(last)
        } else {
            front
        }
    }
}

/// Entries in a span of time that a selector selects.
pub fn select_entries(
    entries: &Vec<LokiEntry>,
    selector: &LogSelector,
    start: i64,
    end: i64,
) -> (selected: Vec<LokiEntry>)
    requires
        selector.well_formed(),
    ensures
        entries_view(selected@) == matching_entries(
            entries_view(entries@),
            selector@,
            start,
            end,
        ),
{
    let ghost models = entries_view(entries@);
    let mut selected: Vec<LokiEntry> = Vec::new();
    let mut index: usize = 0;
    proof {
        assert(entries_view(selected@) =~= matching_entries(
            models.subrange(0, 0),
            selector@,
            start,
            end,
        ));
    }
    while index < entries.len()
        invariant
            selector.well_formed(),
            index <= entries@.len(),
            models == entries_view(entries@),
            entries_view(selected@) == matching_entries(
                models.subrange(0, index as int),
                selector@,
                start,
                end,
            ),
        decreases entries@.len() - index,
    {
        proof {
            let part = models.subrange(0, index + 1);
            assert(part.drop_last() =~= models.subrange(0, index as int));
            assert(part.last() == entries@[index as int]@);
        }
        let entry = &entries[index];
        if entry.timestamp_unix_nanos >= start && entry.timestamp_unix_nanos <= end
            && selector.matches(entry) {
            let copy = entry.clone();
            proof {
                assert(entries_view(selected@.push(copy)) =~= entries_view(selected@).push(
                    entry@,
                ));
            }
            selected.push(copy);
        }
        index = index + 1;
    }
    proof {
        assert(models.subrange(0, index as int) =~= models);
    }
    selected
}

/// Sort keys of entries: their timestamps above the least one.
pub open spec fn time_keys(entries: Seq<EntryModel>) -> Seq<u128> {
    entries.map_values(|entry: EntryModel| (entry.timestamp - i64::MIN) as u128)
}

/// Entries in ascending time order; equal times keep their order.
pub open spec fn by_time(entries: Seq<EntryModel>) -> Seq<EntryModel> {
    arranged(entries, order_of(time_keys(entries)))
}

/// Entries by time are the same entries, and their times do not descend.
pub proof fn by_time_sorts(entries: Seq<EntryModel>)
    requires
        entries.len() <= usize::MAX,
    ensures
        by_time(entries).to_multiset() == entries.to_multiset(),
        by_time(entries).len() == entries.len(),
        forall|i: int, j: int|
            0 <= i < j < entries.len() ==> (#[trigger] by_time(entries)[i]).timestamp <= (
            #[trigger] by_time(entries)[j]).timestamp,
{
    let keys = time_keys(entries);
    let order = order_of(keys);
    sorting_permutes(entries, keys);
    lemma_order_exists(keys);
    assert forall|i: int, j: int| 0 <= i < j < entries.len() implies (
    #[trigger] by_time(entries)[i]).timestamp <= (#[trigger] by_time(entries)[j]).timestamp by {
        assert(crate::order::comes_before(keys, order[i] as int, order[j] as int));
    }
}

/// Sorts entries by time.
pub fn sort_by_time(entries: &Vec<LokiEntry>) -> (sorted: Vec<LokiEntry>)
    ensures
        entries_view(sorted@) == by_time(entries_view(entries@)),
{
    let ghost models = entries_view(entries@);
    let mut keys: Vec<u128> = Vec::new();
    let mut index: usize = 0;
    while index < entries.len()
        invariant
            index <= entries@.len(),
            models == entries_view(entries@),
            keys@.len() == index,
            forall|i: int| 0 <= i < index ==> keys@[i] == time_keys(models)[i],
        decreases entries@.len() - index,
    {
        let key: u128 = (entries[index].timestamp_unix_nanos as i128 + 0x8000_0000_0000_0000i128)
            as u128;
        proof {
            assert(models[index as int] == entries@[index as int]@);
        }
        keys.push(key);
        index = index + 1;
    }
    proof {
        assert(keys@ =~= time_keys(models));
    }
    let order = stable_order(&keys);
    let mut sorted: Vec<LokiEntry> = Vec::new();
    let mut place: usize = 0;
    while place < order.len()
        invariant
            place <= order@.len(),
            models == entries_view(entries@),
            order@ == order_of(time_keys(models)),
            crate::order::is_order(time_keys(models), order@),
            order@.len() == entries@.len(),
            sorted@.len() == place,
            forall|i: int| 0 <= i < place ==> (#[trigger] sorted@[i])@ == by_time(models)[i],
        decreases order@.len() - place,
    {
        let at: usize = order[place];
        sorted.push(entries[at].clone());
        proof {
            assert(models[at as int] == entries@[at as int]@);
        }
        place = place + 1;
    }
    proof {
        assert(entries_view(sorted@) =~= by_time(models));
    }
    sorted
}

/// The page of a stream query: entries in time order, newest first unless forward,
/// up to the limit.
pub open spec fn stream_page(
    entries: Seq<EntryModel>,
    backward: bool,
    limit: nat,
) -> Seq<EntryModel> {
    let sorted = by_time(entries);
    limited(
        if backward {
            sorted.reverse()
        } else {
            sorted
        },
        limit,
    )
}

/// Takes the page of a stream query.
fn take_page(entries: &Vec<LokiEntry>, backward: bool, limit: usize) -> (page: Vec<LokiEntry>)
    ensures
        entries_view(page@) == stream_page(entries_view(entries@), backward, limit as nat),
{
    let sorted = sort_by_time(entries);
    let ghost models = entries_view(sorted@);
    let ghost turned = if backward {
        models.reverse()
    } else {
        models
    };
    let total: usize = sorted.len();
    let count: usize = if total < limit {
        total
    } else {
        limit
    };
    let mut page: Vec<LokiEntry> = Vec::new();
    let mut index: usize = 0;
    while index < count
        invariant
            index <= count <= total,
            total == sorted@.len(),
            models == entries_view(sorted@),
            turned == (if backward {
                models.reverse()
            } else {
                models
            }),
            page@.len() == index,
            forall|i: int| 0 <= i < index ==> (#[trigger] page@[i])@ == turned[i],
        decreases count - index,
    {
        let at: usize = if backward {
            total - 1 - index
        } else {
            index
        };
        proof {
            assert(models[at as int] == sorted@[at as int]@);
            assert(turned[index as int] == models[at as int]);
        }
        page.push(sorted[at].clone());
        index = index + 1;
    }
    proof {
        assert(entries_view(page@) =~= limited(turned, limit as nat));
    }
    page
}

/// Bytes of the lines of entries.
pub open spec fn line_bytes(entries: Seq<EntryModel>) -> nat
    decreases entries.len(),
{
    if entries.len() == 0 {
        0
    } else {
        line_bytes(entries.drop_last()) + encode_utf8(entries.last().line).len()
    }
}

/// Bytes of the lines of entries.
pub fn total_line_bytes(entries: &Vec<LokiEntry>) -> (bytes: u128)
    ensures
        bytes == line_bytes(entries_view(entries@)),
{
    let ghost models = entries_view(entries@);
    let mut bytes: u128 = 0;
    let mut index: usize = 0;
    proof {
        assert(models.subrange(0, 0) =~= Seq::<EntryModel>::empty());
    }
    while index < entries.len()
        invariant
            index <= entries@.len(),
            models == entries_view(entries@),
            bytes == line_bytes(models.subrange(0, index as int)),
            bytes <= index * 0xffff_ffff_ffff_ffff,
        decreases entries@.len() - index,
    {
        let length: usize = entries[index].line.as_str().as_bytes().len();
        proof {
            let part = models.subrange(0, index + 1);
            assert(part.drop_last() =~= models.subrange(0, index as int));
            assert(part.last() == entries@[index as int]@);
        }
        bytes = bytes + length as u128;
        index = index + 1;
    }
    proof {
        assert(models.subrange(0, index as int) =~= models);
    }
    bytes
}

/// Parameters of a query.
#[derive(Debug, PartialEq, Eq)]
pub struct QueryParams {
    /// LogQL query.
    pub query: Option<String>,
    /// Span of time.
    pub range: TimeRange,
    /// Limit of entries.
    pub limit: Option<usize>,
    /// Direction: forward, or backward by default.
    pub direction: Option<String>,
    /// Lines looked at for fields.
    pub line_limit: Option<usize>,
    /// Limit of fields or values.
    pub field_limit: Option<usize>,
}

/// Value of the parameters of a query.
#[verifier::ext_equal]
pub struct QueryParamsModel {
    /// LogQL query.
    pub query: Option<Seq<char>>,
    /// Span of time.
    pub range: TimeRangeModel,
    /// Limit of entries.
    pub limit: Option<usize>,
    /// Direction.
    pub direction: Option<Seq<char>>,
    /// Lines looked at for fields.
    pub line_limit: Option<usize>,
    /// Limit of fields or values.
    pub field_limit: Option<usize>,
}

impl View for QueryParams {
    type V = QueryParamsModel;

    open spec fn view(&self) -> QueryParamsModel {
        QueryParamsModel {
            query: optional_text(self.query),
            range: self.range@,
            limit: self.limit,
            direction: optional_text(self.direction),
            line_limit: self.line_limit,
            field_limit: self.field_limit,
        }
    }
}

/// A number or its default, no larger than a maximum.
pub open spec fn bounded_limit(limit: Option<usize>, default_limit: usize, largest: usize) -> usize {
    let wanted = match limit {
        Some(limit) => limit,
        None => default_limit,
    };
    if wanted < largest {
        wanted
    } else {
        largest
    }
}

/// A number or its default, no larger than a maximum.
pub fn limit_or(limit: Option<usize>, default_limit: usize, largest: usize) -> (number: usize)
    ensures
        number == bounded_limit(limit, default_limit, largest),
{
    let wanted: usize = match limit {
        Some(limit) => limit,
        None => default_limit,
    };
    if wanted < largest {
        wanted
    } else {
        largest
    }
}

/// Value of a planned stream query.
#[verifier::ext_equal]
pub struct StreamPlanModel {
    /// Selector.
    pub selector: SelectorModel,
    /// First timestamp.
    pub start: i64,
    /// Last timestamp.
    pub end: i64,
    /// Limit of entries.
    pub limit: usize,
    /// Newest first.
    pub backward: bool,
}

/// Stream query that is ready to run.
#[derive(Debug)]
pub struct StreamPlan {
    /// Selector.
    pub selector: LogSelector,
    /// First timestamp.
    pub start: i64,
    /// Last timestamp.
    pub end: i64,
    /// Limit of entries.
    pub limit: usize,
    /// Newest first.
    pub backward: bool,
}

impl View for StreamPlan {
    type V = StreamPlanModel;

    open spec fn view(&self) -> StreamPlanModel {
        StreamPlanModel {
            selector: self.selector@,
            start: self.start,
            end: self.end,
            limit: self.limit,
            backward: self.backward,
        }
    }
}

/// What a missing query is answered.
pub open spec fn query_missing() -> ApiFault {
    bad("query parameter is required"@)
}

/// The plan of a stream query.
pub open spec fn stream_plan_of(params: QueryParamsModel, largest: usize, now: i64) -> Result<
    StreamPlanModel,
    ApiFault,
> {
    match params.query {
        None => Err(query_missing()),
        Some(query) => match parse_query_text(query) {
            Err(fault) => Err(fault),
            Ok(selector) => match range_bounds(params.range, now) {
                Err(fault) => Err(fault),
                Ok((start, end)) => Ok(
                    StreamPlanModel {
                        selector,
                        start,
                        end,
                        limit: bounded_limit(params.limit, DEFAULT_QUERY_LIMIT, largest),
                        backward: params.direction != Some("forward"@),
                    },
                ),
            },
        },
    }
}

/// Plans a stream query.
pub fn plan_stream_query(params: &QueryParams, config: &LokiApiConfig, now: i64) -> (result: Result<
    StreamPlan,
    LokiApiError,
>)
    ensures
        same_outcome(result, stream_plan_of(params@, config.max_query_limit, now)),
        result matches Ok(plan) ==> plan.selector.well_formed(),
{
    let expression = match &params.query {
        Some(query) => query,
        None => return Err(LokiApiError::bad_request("query parameter is required")),
    };
    let selector = match parse_log_query(expression) {
        Ok(selector) => selector,
        Err(error) => return Err(error),
    };
    let (start, end) = match query_range_bounds(&params.range, now) {
        Ok(bounds) => bounds,
        Err(error) => return Err(error),
    };
    let forward = match &params.direction {
        Some(direction) => same_text(direction, "forward"),
        None => false,
    };
    Ok(
        StreamPlan {
            selector,
            start,
            end,
            limit: limit_or(params.limit, DEFAULT_QUERY_LIMIT, config.max_query_limit),
            backward: !forward,
        },
    )
}

/// Value of the answer of a stream query.
#[verifier::ext_equal]
pub struct StreamAnswerModel {
    /// Streams in ascending label order.
    pub streams: Seq<StreamModel>,
    /// Bytes of all lines.
    pub bytes: nat,
    /// Number of all lines.
    pub lines: nat,
    /// Number of entries returned.
    pub returned: nat,
}

/// Answer of a stream query.
#[derive(Debug)]
pub struct StreamAnswer {
    /// Streams in ascending label order.
    pub streams: Vec<ResponseStream>,
    /// Bytes of all lines looked at.
    pub total_bytes_processed: u128,
    /// Number of lines looked at.
    pub total_lines_processed: usize,
    /// Number of entries returned.
    pub total_entries_returned: usize,
}

impl View for StreamAnswer {
    type V = StreamAnswerModel;

    open spec fn view(&self) -> StreamAnswerModel {
        StreamAnswerModel {
            streams: streams_view(self.streams@),
            bytes: self.total_bytes_processed as nat,
            lines: self.total_lines_processed as nat,
            returned: self.total_entries_returned as nat,
        }
    }
}

/// The entries that a planned stream query returns, in their order.
pub open spec fn returned_entries(
    plan: StreamPlanModel,
    entries: Seq<EntryModel>,
) -> Seq<EntryModel> {
    stream_page(
        matching_entries(entries, plan.selector, plan.start, plan.end),
        plan.backward,
        plan.limit as nat,
    )
}

/// The answer of a planned stream query over the entries of a tenant.
pub open spec fn stream_answer_of(
    plan: StreamPlanModel,
    entries: Seq<EntryModel>,
) -> StreamAnswerModel {
    StreamAnswerModel {
        streams: streams_of(returned_entries(plan, entries)),
        bytes: line_bytes(entries),
        lines: entries.len(),
        returned: returned_entries(plan, entries).len(),
    }
}

/// Runs a planned stream query over the entries of a tenant.
pub fn execute_stream_query(plan: &StreamPlan, entries: &Vec<LokiEntry>) -> (answer: StreamAnswer)
    requires
        plan.selector.well_formed(),
    ensures
        answer@ == stream_answer_of(plan@, entries_view(entries@)),
{
    let selected = select_entries(entries, &plan.selector, plan.start, plan.end);
    let page = take_page(&selected, plan.backward, plan.limit);
    proof {
        assert(entries_view(page@) == returned_entries(plan@, entries_view(entries@)));
        assert(entries_view(page@).len() == page@.len());
        assert(entries_view(entries@).len() == entries@.len());
    }
    let answer = StreamAnswer {
        streams: group_streams(&page),
        total_bytes_processed: total_line_bytes(entries),
        total_lines_processed: entries.len(),
        total_entries_returned: page.len(),
    };
    answer
}

/// Names of labels, added to a set.
pub open spec fn add_keys(names: Seq<Seq<char>>, labels: Pairs) -> Seq<Seq<char>>
    decreases labels.len(),
{
    if labels.len() == 0 {
        names
    } else {
        insert_text(add_keys(names, labels.drop_last()), labels.last().0)
    }
}

/// Names of the labels of entries in a span of time, in ascending order.
pub open spec fn label_names_of(entries: Seq<EntryModel>, start: i64, end: i64) -> Seq<Seq<char>>
    decreases entries.len(),
{
    if entries.len() == 0 {
        Seq::empty()
    } else {
        let front = label_names_of(entries.drop_last(), start, end);
        if in_span(entries.last(), start, end) {
            add_keys(front, entries.last().labels)
        } else {
            front
        }
    }
}

fn push_keys(names: &mut Vec<String>, labels: &LabelMap)
    ensures
        strings_view(final(names)@) == add_keys(strings_view(old(names)@), labels@),
{
    let ghost before = strings_view(names@);
    let total: usize = labels.len();
    let mut index: usize = 0;
    proof {
        assert(labels@.subrange(0, 0) =~= Pairs::empty());
    }
    while index < total
        invariant
            index <= total == labels@.len(),
            strings_view(names@) == add_keys(before, labels@.subrange(0, index as int)),
        decreases total - index,
    {
        proof {
            let part = labels@.subrange(0, index + 1);
            assert(part.drop_last() =~= labels@.subrange(0, index as int));
            assert(part.last() == labels@[index as int]);
        }
        add_text(names, labels.key_at(index).clone());
        index = index + 1;
    }
    proof {
        assert(labels@.subrange(0, index as int) =~= labels@);
    }
}

/// Names of the labels of entries in a span of time.
pub fn labels(entries: &Vec<LokiEntry>, start: i64, end: i64) -> (names: Vec<String>)
    ensures
        strings_view(names@) == label_names_of(entries_view(entries@), start, end),
{
    let ghost models = entries_view(entries@);
    let mut names: Vec<String> = Vec::new();
    let mut index: usize = 0;
    proof {
        assert(strings_view(names@) =~= label_names_of(models.subrange(0, 0), start, end));
    }
    while index < entries.len()
        invariant
            index <= entries@.len(),
            models == entries_view(entries@),
            strings_view(names@) == label_names_of(
                models.subrange(0, index as int),
                start,
                end,
            ),
        decreases entries@.len() - index,
    {
        proof {
            let part = models.subrange(0, index + 1);
            assert(part.drop_last() =~= models.subrange(0, index as int));
            assert(part.last() == entries@[index as int]@);
        }
        let stamp: i64 = entries[index].timestamp_unix_nanos;
        if stamp >= start && stamp <= end {
            push_keys(&mut names, &entries[index].labels);
        }
        index = index + 1;
    }
    proof {
        assert(models.subrange(0, index as int) =~= models);
    }
    names
}

/// Values of a label of entries in a span of time, in ascending order.
pub open spec fn values_of_label(
    entries: Seq<EntryModel>,
    name: Seq<char>,
    start: i64,
    end: i64,
) -> Seq<Seq<char>>
    decreases entries.len(),
{
    if entries.len() == 0 {
        Seq::empty()
    } else {
        let front = values_of_label(entries.drop_last(), name, start, end);
        match lookup(entries.last().labels, name) {
            Some(value) => if in_span(entries.last(), start, end) {
                insert_text(front, value)
            } else {
                front
            },
            None => front,
        }
    }
}

/// Values of a label of entries in a span of time.
pub fn label_values(entries: &Vec<LokiEntry>, name: &str, start: i64, end: i64) -> (values: Vec<
    String,
>)
    ensures
        strings_view(values@) == values_of_label(entries_view(entries@), name@, start, end),
{
    let ghost models = entries_view(entries@);
    let mut values: Vec<String> = Vec::new();
    let mut index: usize = 0;
    proof {
        assert(strings_view(values@) =~= values_of_label(
            models.subrange(0, 0),
            name@,
            start,
            end,
        ));
    }
    while index < entries.len()
        invariant
            index <= entries@.len(),
            models == entries_view(entries@),
            strings_view(values@) == values_of_label(
                models.subrange(0, index as int),
                name@,
                start,
                end,
            ),
        decreases entries@.len() - index,
    {
        proof {
            let part = models.subrange(0, index + 1);
            assert(part.drop_last() =~= models.subrange(0, index as int));
            assert(part.last() == entries@[index as int]@);
        }
        let stamp: i64 = entries[index].timestamp_unix_nanos;
        if stamp >= start && stamp <= end {
            match entries[index].labels.get(name) {
                Some(value) => add_text(&mut values, value.clone()),
                None => {},
            }
        }
        index = index + 1;
    }
    proof {
        assert(models.subrange(0, index as int) =~= models);
    }
    values
}

/// The span of a request for the values of a label, or why it is refused.
pub open spec fn label_values_plan(
    name: Seq<char>,
    range: TimeRangeModel,
    now: i64,
) -> Result<(i64, i64), ApiFault> {
    if !label_name(name) {
        Err(name_fault(name))
    } else {
        range_bounds(range, now)
    }
}

/// Plans a request for the values of a label.
pub fn plan_label_values(name: &str, range: &TimeRange, now: i64) -> (result: Result<
    (i64, i64),
    LokiApiError,
>)
    ensures
        crate::api_error::plain_outcome(result, label_values_plan(name@, range@, now)),
{
    match validate_label_name(name) {
        Ok(_) => {},
        Err(error) => return Err(error),
    }
    query_range_bounds(range, now)
}

/// First value of a parameter.
pub open spec fn first_parameter(parameters: Pairs, name: Seq<char>) -> Option<Seq<char>> {
    lookup(parameters, name)
}

/// All values of a parameter, in order.
pub open spec fn all_parameters(parameters: Pairs, name: Seq<char>) -> Seq<Seq<char>>
    decreases parameters.len(),
{
    if parameters.len() == 0 {
        Seq::empty()
    } else {
        let front = all_parameters(parameters.drop_last(), name);
        if parameters.last().0 == name {
            front.push(parameters.last().1)
        } else {
            front
        }
    }
}

/// First value of a parameter.
pub fn find_parameter(parameters: &Vec<(String, String)>, name: &str) -> (value: Option<String>)
    ensures
        optional_text(value) == first_parameter(pairs_view(parameters@), name@),
{
    let ghost models = pairs_view(parameters@);
    let mut index: usize = 0;
    proof {
        assert(models.subrange(0, models.len() as int) =~= models);
    }
    while index < parameters.len()
        invariant
            index <= parameters@.len(),
            models == pairs_view(parameters@),
            lookup(models, name@) == lookup(
                models.subrange(index as int, models.len() as int),
                name@,
            ),
        decreases parameters@.len() - index,
    {
        proof {
            let rest = models.subrange(index as int, models.len() as int);
            assert(rest[0] == (parameters@[index as int].0@, parameters@[index as int].1@));
            assert(rest.drop_first() =~= models.subrange(index + 1, models.len() as int));
        }
        if same_text(&parameters[index].0, name) {
            return Some(parameters[index].1.clone());
        }
        index = index + 1;
    }
    None
}

/// Selector texts of a request for series: those given, or one that selects all.
pub open spec fn series_selectors(parameters: Pairs) -> Seq<Seq<char>> {
    let given = all_parameters(parameters, "match[]"@);
    if given.len() == 0 {
        seq!["{}"@]
    } else {
        given
    }
}

/// Selector texts of a request for series.
fn collect_selectors(parameters: &Vec<(String, String)>) -> (texts: Vec<String>)
    ensures
        strings_view(texts@) == series_selectors(pairs_view(parameters@)),
{
    let ghost models = pairs_view(parameters@);
    let mut texts: Vec<String> = Vec::new();
    let mut index: usize = 0;
    proof {
        assert(strings_view(texts@) =~= all_parameters(models.subrange(0, 0), "match[]"@));
    }
    while index < parameters.len()
        invariant
            index <= parameters@.len(),
            models == pairs_view(parameters@),
            strings_view(texts@) == all_parameters(
                models.subrange(0, index as int),
                "match[]"@,
            ),
        decreases parameters@.len() - index,
    {
        let ghost before = strings_view(texts@);
        proof {
            let part = models.subrange(0, index + 1);
            assert(part.drop_last() =~= models.subrange(0, index as int));
            assert(part.last() == (parameters@[index as int].0@, parameters@[index as int].1@));
        }
        if same_text(&parameters[index].0, "match[]") {
            texts.push(parameters[index].1.clone());
            proof {
                assert(strings_view(texts@) =~= before.push(parameters@[index as int].1@));
            }
        }
        index = index + 1;
    }
    proof {
        assert(models.subrange(0, index as int) =~= models);
    }
    if texts.len() == 0 {
        texts.push("{}".to_owned());
        proof {
            assert(strings_view(texts@) =~= seq!["{}"@]);
        }
    }
    texts
}

/// Selectors of texts.
pub open spec fn selectors_of(texts: Seq<Seq<char>>) -> Result<Seq<SelectorModel>, ApiFault>
    decreases texts.len(),
{
    if texts.len() == 0 {
        Ok(Seq::empty())
    } else {
        match selectors_of(texts.drop_last()) {
            Err(fault) => Err(fault),
            Ok(front) => match parse_query_text(texts.last()) {
                Err(fault) => Err(fault),
                Ok(selector) => Ok(front.push(selector)),
            },
        }
    }
}

proof fn lemma_selectors_fault(texts: Seq<Seq<char>>, n: int)
    requires
        0 <= n <= texts.len(),
        selectors_of(texts.subrange(0, n)) is Err,
    ensures
        selectors_of(texts) == selectors_of(texts.subrange(0, n)),
    decreases texts.len(),
{
    if n < texts.len() {
        assert(texts.drop_last().subrange(0, n) =~= texts.subrange(0, n));
        lemma_selectors_fault(texts.drop_last(), n);
    } else {
        assert(texts.subrange(0, n) =~= texts);
    }
}

/// Values of selectors.
pub open spec fn selectors_view(selectors: Seq<LogSelector>) -> Seq<SelectorModel> {
    selectors.map_values(|selector: LogSelector| selector@)
}

/// All compiled patterns of selectors are those of their values.
pub open spec fn selectors_formed(selectors: Seq<LogSelector>) -> bool {
    forall|i: int| 0 <= i < selectors.len() ==> (#[trigger] selectors[i]).well_formed()
}

/// Reads selectors.
fn parse_selectors(texts: &Vec<String>) -> (result: Result<Vec<LogSelector>, LokiApiError>)
    ensures
        match (result, selectors_of(strings_view(texts@))) {
            (Ok(selectors), Ok(models)) => selectors_view(selectors@) == models
                && selectors_formed(selectors@),
            (Err(error), Err(fault)) => error@ == fault,
            _ => false,
        },
{
    let ghost models = strings_view(texts@);
    let mut selectors: Vec<LogSelector> = Vec::new();
    let mut index: usize = 0;
    proof {
        assert(models.subrange(0, 0) =~= Seq::<Seq<char>>::empty());
        assert(selectors_view(selectors@) =~= Seq::<SelectorModel>::empty());
    }
    while index < texts.len()
        invariant
            index <= texts@.len(),
            models == strings_view(texts@),
            selectors_formed(selectors@),
            selectors_of(models.subrange(0, index as int)) == Ok::<_, ApiFault>(
                selectors_view(selectors@),
            ),
        decreases texts@.len() - index,
    {
        proof {
            let part = models.subrange(0, index + 1);
            assert(part.drop_last() =~= models.subrange(0, index as int));
            assert(part.last() == texts@[index as int]@);
        }
        match parse_log_query(&texts[index]) {
            Ok(selector) => {
                proof {
                    assert(selectors_view(selectors@.push(selector)) =~= selectors_view(
                        selectors@,
                    ).push(selector@));
                }
                selectors.push(selector);
            },
            Err(error) => {
                proof {
                    lemma_selectors_fault(models, index + 1);
                }
                return Err(error);
            },
        }
        index = index + 1;
    }
    proof {
        assert(models.subrange(0, index as int) =~= models);
    }
    Ok(selectors)
}

/// Selectors and span of a request for series.
#[derive(Debug)]
pub struct SeriesPlan {
    /// Selectors, one of which must select an entry.
    pub selectors: Vec<LogSelector>,
    /// First timestamp.
    pub start: i64,
    /// Last timestamp.
    pub end: i64,
}

/// Value of a planned request for series.
#[verifier::ext_equal]
pub struct SeriesPlanModel {
    /// Selectors.
    pub selectors: Seq<SelectorModel>,
    /// First timestamp.
    pub start: i64,
    /// Last timestamp.
    pub end: i64,
}

impl View for SeriesPlan {
    type V = SeriesPlanModel;

    open spec fn view(&self) -> SeriesPlanModel {
        SeriesPlanModel {
            selectors: selectors_view(self.selectors@),
            start: self.start,
            end: self.end,
        }
    }
}

/// The plan of a request for series, given its decoded parameters and its span.
pub open spec fn series_plan_of(parameters: Pairs, range: TimeRangeModel, now: i64) -> Result<
    SeriesPlanModel,
    ApiFault,
> {
    match range_bounds(range, now) {
        Err(fault) => Err(fault),
        Ok((start, end)) => match selectors_of(series_selectors(parameters)) {
            Err(fault) => Err(fault),
            Ok(selectors) => Ok(SeriesPlanModel { selectors, start, end }),
        },
    }
}

/// Plans a request for series.
pub fn plan_series(parameters: &Vec<(String, String)>, range: &TimeRange, now: i64) -> (result:
    Result<SeriesPlan, LokiApiError>)
    ensures
        same_outcome(result, series_plan_of(pairs_view(parameters@), range@, now)),
        result matches Ok(plan) ==> selectors_formed(plan.selectors@),
{
    let (start, end) = match query_range_bounds(range, now) {
        Ok(bounds) => bounds,
        Err(error) => return Err(error),
    };
    match parse_selectors(&collect_selectors(parameters)) {
        Ok(selectors) => Ok(SeriesPlan { selectors, start, end }),
        Err(error) => Err(error),
    }
}

/// Whether one of several selectors selects an entry.
pub open spec fn any_selects(selectors: Seq<SelectorModel>, entry: EntryModel) -> bool {
    exists|i: int| 0 <= i < selectors.len() && selects_entry(#[trigger] selectors[i], entry)
}

fn any_matches(selectors: &Vec<LogSelector>, entry: &LokiEntry) -> (matches: bool)
    requires
        selectors_formed(selectors@),
    ensures
        matches == any_selects(selectors_view(selectors@), entry@),
{
    let ghost models = selectors_view(selectors@);
    let mut index: usize = 0;
    while index < selectors.len()
        invariant
            index <= selectors@.len(),
            selectors_formed(selectors@),
            models == selectors_view(selectors@),
            forall|i: int| 0 <= i < index ==> !selects_entry(#[trigger] models[i], entry@),
        decreases selectors@.len() - index,
    {
        proof {
            assert(models[index as int] == selectors@[index as int]@);
        }
        if selectors[index].matches(entry) {
            return true;
        }
        index = index + 1;
    }
    false
}

/// Label sets of the entries that a request for series selects, in ascending order.
pub open spec fn series_of(plan: SeriesPlanModel, entries: Seq<EntryModel>) -> Seq<Pairs>
    decreases entries.len(),
{
    if entries.len() == 0 {
        Seq::empty()
    } else {
        let front = series_of(plan, entries.drop_last());
        if in_span(entries.last(), plan.start, plan.end) && any_selects(
            plan.selectors,
            entries.last(),
        ) {
            insert_labels(front, entries.last().labels)
        } else {
            front
        }
    }
}

/// Label sets of the entries that a request for series selects.
pub fn series(plan: &SeriesPlan, entries: &Vec<LokiEntry>) -> (sets: Vec<LabelMap>)
    requires
        selectors_formed(plan.selectors@),
    ensures
        maps_view(sets@) == series_of(plan@, entries_view(entries@)),
{
    let ghost models = entries_view(entries@);
    let mut sets: Vec<LabelMap> = Vec::new();
    let mut index: usize = 0;
    proof {
        assert(maps_view(sets@) =~= series_of(plan@, models.subrange(0, 0)));
    }
    while index < entries.len()
        invariant
            index <= entries@.len(),
            selectors_formed(plan.selectors@),
            models == entries_view(entries@),
            maps_view(sets@) == series_of(plan@, models.subrange(0, index as int)),
        decreases entries@.len() - index,
    {
        proof {
            let part = models.subrange(0, index + 1);
            assert(part.drop_last() =~= models.subrange(0, index as int));
            assert(part.last() == entries@[index as int]@);
        }
        let stamp: i64 = entries[index].timestamp_unix_nanos;
        if stamp >= plan.start && stamp <= plan.end && any_matches(
            &plan.selectors,
            &entries[index],
        ) {
            add_labels(&mut sets, &entries[index].labels);
        }
        index = index + 1;
    }
    proof {
        assert(models.subrange(0, index as int) =~= models);
    }
    sets
}

} // verus!
