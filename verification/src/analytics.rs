//! Analytical scans: their requests, and the rows that they give.
use vstd::prelude::*;

use crate::api_error::{bad, same_outcome, ApiFault, LokiApiError};
use crate::codec::same_text;
use crate::labels::{fields_view, lookup, pairs_view, LabelMap, MetadataField, Pairs};
use crate::log_query::holds_text;
use crate::loki_time::{read_u64_text, read_usize_text, unsigned_value};
use crate::native_query::strings_view;
use crate::posting::limited;
use crate::record::{entries_view, EntryModel, LokiEntry};
use crate::text::{
    chars_of, debug_string, debug_text, holds_part, normal_term, normal_terms, normalize_term,
    normalize_terms, part_at,
    text_between, text_of,
};

verus! {

broadcast use vstd::seq_lib::group_seq_properties;

/// Version of the columns offered to analytical engines.
pub const ANALYTICS_SCHEMA_VERSION: u16 = 1;

/// ClickHouse release that reads the analytical stream.
pub const CLICKHOUSE_COMPATIBILITY_TARGET: &'static str = "26.3.17.56-lts";

/// Rows of a full batch.
pub const SCAN_BATCH_ROWS: usize = 8_192;

/// Column of an analytical scan.
#[derive(Debug, Clone, Copy, PartialEq, Eq, PartialOrd, Ord, Hash, Structural)]
pub enum AnalyticsColumn {
    /// Tenant owning the record.
    Tenant,
    /// Nanosecond timestamp in UTC.
    Timestamp,
    /// Logical partition number.
    Partition,
    /// Durable logical offset inside the partition.
    Offset,
    /// Original log message.
    Message,
    /// Stream labels.
    Labels,
    /// Structured metadata.
    Metadata,
}

impl AnalyticsColumn {
    /// Name of the column on the wire.
    pub open spec fn text(self) -> Seq<char> {
        match self {
            AnalyticsColumn::Tenant => "tenant"@,
            AnalyticsColumn::Timestamp => "timestamp"@,
            AnalyticsColumn::Partition => "partition"@,
            AnalyticsColumn::Offset => "offset"@,
            AnalyticsColumn::Message => "message"@,
            AnalyticsColumn::Labels => "labels"@,
            AnalyticsColumn::Metadata => "metadata"@,
        }
    }

    /// Name of the column on the wire.
    pub fn name(self) -> (name: &'static str)
        ensures
            name@ == self.text(),
    {
        match self {
            AnalyticsColumn::Tenant => "tenant",
            AnalyticsColumn::Timestamp => "timestamp",
            AnalyticsColumn::Partition => "partition",
            AnalyticsColumn::Offset => "offset",
            AnalyticsColumn::Message => "message",
            AnalyticsColumn::Labels => "labels",
            AnalyticsColumn::Metadata => "metadata",
        }
    }

    /// All columns in wire order.
    pub fn all() -> (columns: Vec<AnalyticsColumn>)
        ensures
            columns@ == all_columns(),
    {
        let columns: Vec<AnalyticsColumn> = vec![
            AnalyticsColumn::Tenant,
            AnalyticsColumn::Timestamp,
            AnalyticsColumn::Partition,
            AnalyticsColumn::Offset,
            AnalyticsColumn::Message,
            AnalyticsColumn::Labels,
            AnalyticsColumn::Metadata,
        ];
        proof {
            assert(columns@ =~= all_columns());
        }
        columns
    }

    /// The column of a name.
    pub fn parse(value: &str) -> (column: Option<AnalyticsColumn>)
        ensures
            column == column_of(value@),
    {
        if same_text(value, "tenant") {
            Some(AnalyticsColumn::Tenant)
        } else if same_text(value, "timestamp") {
            Some(AnalyticsColumn::Timestamp)
        } else if same_text(value, "partition") {
            Some(AnalyticsColumn::Partition)
        } else if same_text(value, "offset") {
            Some(AnalyticsColumn::Offset)
        } else if same_text(value, "message") {
            Some(AnalyticsColumn::Message)
        } else if same_text(value, "labels") {
            Some(AnalyticsColumn::Labels)
        } else if same_text(value, "metadata") {
            Some(AnalyticsColumn::Metadata)
        } else {
            None
        }
    }
}

/// All columns in wire order.
pub open spec fn all_columns() -> Seq<AnalyticsColumn> {
    seq![
        AnalyticsColumn::Tenant,
        AnalyticsColumn::Timestamp,
        AnalyticsColumn::Partition,
        AnalyticsColumn::Offset,
        AnalyticsColumn::Message,
        AnalyticsColumn::Labels,
        AnalyticsColumn::Metadata,
    ]
}

/// The column of a name.
pub open spec fn column_of(name: Seq<char>) -> Option<AnalyticsColumn> {
    if name == "tenant"@ {
        Some(AnalyticsColumn::Tenant)
    } else if name == "timestamp"@ {
        Some(AnalyticsColumn::Timestamp)
    } else if name == "partition"@ {
        Some(AnalyticsColumn::Partition)
    } else if name == "offset"@ {
        Some(AnalyticsColumn::Offset)
    } else if name == "message"@ {
        Some(AnalyticsColumn::Message)
    } else if name == "labels"@ {
        Some(AnalyticsColumn::Labels)
    } else if name == "metadata"@ {
        Some(AnalyticsColumn::Metadata)
    } else {
        None
    }
}

/// Every column is found by its name.
pub proof fn column_names_are_distinct(column: AnalyticsColumn)
    ensures
        column_of(column.text()) == Some(column),
{
    reveal_strlit("tenant");
    reveal_strlit("timestamp");
    reveal_strlit("partition");
    reveal_strlit("offset");
    reveal_strlit("message");
    reveal_strlit("labels");
    reveal_strlit("metadata");
    assert("tenant"@[0] == 't' && "tenant"@[1] == 'e');
    assert("timestamp"@[0] == 't' && "timestamp"@[1] == 'i');
    assert("partition"@[0] == 'p');
    assert("offset"@[0] == 'o');
    assert("message"@[0] == 'm' && "message"@[2] == 's');
    assert("labels"@[0] == 'l');
    assert("metadata"@[0] == 'm' && "metadata"@[2] == 't');
}

/// Value of a scan request.
#[verifier::ext_equal]
pub struct ScanModel {
    /// Tenant to scan.
    pub tenant: Seq<char>,
    /// Inclusive timestamp lower bound.
    pub start: Option<u64>,
    /// Exclusive timestamp upper bound.
    pub end: Option<u64>,
    /// Terms that a message must have.
    pub terms: Seq<Seq<char>>,
    /// Stream labels that an entry must have.
    pub labels: Pairs,
    /// Structured metadata that an entry must have.
    pub metadata: Pairs,
    /// Columns in request order.
    pub projection: Seq<AnalyticsColumn>,
    /// Row limit.
    pub limit: Option<usize>,
}

/// Scan requested by an analytical query engine.
#[derive(Debug, PartialEq, Eq)]
pub struct AnalyticsScanRequest {
    /// Tenant to scan.
    pub tenant: String,
    /// Inclusive event timestamp lower bound.
    pub start_timestamp_unix_nanos: Option<u64>,
    /// Exclusive event timestamp upper bound.
    pub end_timestamp_unix_nanos: Option<u64>,
    /// Case-insensitive message terms, all of which must occur.
    pub terms: Vec<String>,
    /// Exact stream-label constraints, all of which must hold.
    pub labels: Vec<MetadataField>,
    /// Exact structured-metadata constraints, all of which must hold.
    pub metadata: Vec<MetadataField>,
    /// Columns emitted in request order.
    pub projection: Vec<AnalyticsColumn>,
    /// Optional global row limit.
    pub limit: Option<usize>,
}

impl View for AnalyticsScanRequest {
    type V = ScanModel;

    open spec fn view(&self) -> ScanModel {
        ScanModel {
            tenant: self.tenant@,
            start: self.start_timestamp_unix_nanos,
            end: self.end_timestamp_unix_nanos,
            terms: strings_view(self.terms@),
            labels: fields_view(self.labels@),
            metadata: fields_view(self.metadata@),
            projection: self.projection@,
            limit: self.limit,
        }
    }
}

/// A scan of all columns of a tenant without bounds.
pub open spec fn full_scan(tenant: Seq<char>) -> ScanModel {
    ScanModel {
        tenant,
        start: None,
        end: None,
        terms: Seq::empty(),
        labels: Seq::empty(),
        metadata: Seq::empty(),
        projection: all_columns(),
        limit: None,
    }
}

/// What is wrong with a scan request, if anything.
pub open spec fn scan_fault(request: ScanModel) -> Option<ApiFault> {
    if request.tenant.len() == 0 {
        Some(bad("analytics tenant must not be empty"@))
    } else if request.projection.len() == 0 {
        Some(bad("analytics projection must contain at least one column"@))
    } else if !request.projection.no_duplicates() {
        Some(bad("analytics projection contains a duplicate column"@))
    } else if request.start is Some && request.end is Some && request.start->0 >= request.end->0 {
        Some(bad("analytics timestamp range must be non-empty"@))
    } else {
        None
    }
}

/// Whether no column occurs twice.
fn columns_distinct(columns: &Vec<AnalyticsColumn>) -> (distinct: bool)
    ensures
        distinct == columns@.no_duplicates(),
{
    let mut index: usize = 0;
    while index < columns.len()
        invariant
            index <= columns@.len(),
            forall|i: int, j: int|
                0 <= i < index && 0 <= j < index && i != j ==> columns@[i] != columns@[j],
        decreases columns@.len() - index,
    {
        let mut earlier: usize = 0;
        while earlier < index
            invariant
                earlier <= index < columns@.len(),
                forall|i: int| 0 <= i < earlier ==> columns@[i] != columns@[index as int],
            decreases index - earlier,
        {
            if columns[earlier] == columns[index] {
                return false;
            }
            earlier = earlier + 1;
        }
        index = index + 1;
    }
    true
}

impl AnalyticsScanRequest {
    /// Creates a full-column scan of one tenant without bounds.
    pub fn new(tenant: String) -> (request: Self)
        ensures
            request@ == full_scan(tenant@),
    {
        let request = AnalyticsScanRequest {
            tenant,
            start_timestamp_unix_nanos: None,
            end_timestamp_unix_nanos: None,
            terms: Vec::new(),
            labels: Vec::new(),
            metadata: Vec::new(),
            projection: AnalyticsColumn::all(),
            limit: None,
        };
        proof {
            assert(request@ =~= full_scan(tenant@));
        }
        request
    }

    /// Tests that the request can be answered.
    pub fn validate(&self) -> (result: Result<(), LokiApiError>)
        ensures
            match (result, scan_fault(self@)) {
                (Ok(_), None) => true,
                (Err(error), Some(fault)) => error@ == fault,
                _ => false,
            },
    {
        if chars_of(&self.tenant).len() == 0 {
            return Err(LokiApiError::bad_request("analytics tenant must not be empty"));
        }
        if self.projection.len() == 0 {
            return Err(
                LokiApiError::bad_request("analytics projection must contain at least one column"),
            );
        }
        if !columns_distinct(&self.projection) {
            return Err(
                LokiApiError::bad_request("analytics projection contains a duplicate column"),
            );
        }
        match (self.start_timestamp_unix_nanos, self.end_timestamp_unix_nanos) {
            (Some(start), Some(end)) => {
                if start >= end {
                    return Err(
                        LokiApiError::bad_request("analytics timestamp range must be non-empty"),
                    );
                }
            },
            _ => {},
        }
        Ok(())
    }
}

/// The parts of a text between commas.
pub open spec fn comma_parts(text: Seq<char>) -> Seq<Seq<char>>
    decreases text.len(),
{
    if text.len() == 0 {
        seq![Seq::empty()]
    } else {
        let front = comma_parts(text.drop_last());
        if text.last() == ',' {
            front.push(Seq::empty())
        } else {
            front.drop_last().push(front.last().push(text.last()))
        }
    }
}

proof fn lemma_comma_parts(text: Seq<char>)
    ensures
        comma_parts(text).len() > 0,
    decreases text.len(),
{
    if text.len() > 0 {
        lemma_comma_parts(text.drop_last());
    }
}

/// Splits a text at commas.
fn split_commas(text: &Vec<char>) -> (parts: Vec<String>)
    ensures
        strings_view(parts@) == comma_parts(text@),
{
    let mut done: Vec<String> = Vec::new();
    let mut current: Vec<char> = Vec::new();
    let mut index: usize = 0;
    proof {
        assert(text@.subrange(0, 0) =~= Seq::<char>::empty());
        assert(strings_view(done@).push(current@) =~= comma_parts(text@.subrange(0, 0)));
    }
    while index < text.len()
        invariant
            index <= text@.len(),
            strings_view(done@).push(current@) == comma_parts(text@.subrange(0, index as int)),
        decreases text@.len() - index,
    {
        let ghost before = strings_view(done@);
        let ghost held = current@;
        proof {
            let part = text@.subrange(0, index + 1);
            assert(part.drop_last() =~= text@.subrange(0, index as int));
            assert(part.last() == text@[index as int]);
            assert(before.push(held).drop_last() =~= before);
        }
        if text[index] == ',' {
            done.push(text_of(&current));
            current = Vec::new();
            proof {
                assert(strings_view(done@) =~= before.push(held));
                assert(current@ =~= Seq::<char>::empty());
            }
        } else {
            current.push(text[index]);
        }
        index = index + 1;
    }
    proof {
        assert(text@.subrange(0, index as int) =~= text@);
    }
    let ghost before = strings_view(done@);
    done.push(text_of(&current));
    proof {
        assert(strings_view(done@) =~= before.push(current@));
    }
    done
}

/// The columns of names.
pub open spec fn columns_of(names: Seq<Seq<char>>) -> Result<Seq<AnalyticsColumn>, ApiFault>
    decreases names.len(),
{
    if names.len() == 0 {
        Ok(Seq::empty())
    } else {
        match columns_of(names.drop_last()) {
            Err(fault) => Err(fault),
            Ok(front) => match column_of(names.last()) {
                Some(column) => Ok(front.push(column)),
                None => Err(bad("unknown analytics column "@ + debug_text(names.last()))),
            },
        }
    }
}

proof fn lemma_columns_fault(names: Seq<Seq<char>>, n: int)
    requires
        0 <= n <= names.len(),
        columns_of(names.subrange(0, n)) is Err,
    ensures
        columns_of(names) == columns_of(names.subrange(0, n)),
    decreases names.len(),
{
    if n < names.len() {
        assert(names.drop_last().subrange(0, n) =~= names.subrange(0, n));
        lemma_columns_fault(names.drop_last(), n);
    } else {
        assert(names.subrange(0, n) =~= names);
    }
}

/// Reads the names of columns.
fn parse_columns(names: &Vec<String>) -> (result: Result<Vec<AnalyticsColumn>, LokiApiError>)
    ensures
        same_outcome(result, columns_of(strings_view(names@))),
{
    let ghost models = strings_view(names@);
    let mut columns: Vec<AnalyticsColumn> = Vec::new();
    let mut index: usize = 0;
    proof {
        assert(models.subrange(0, 0) =~= Seq::<Seq<char>>::empty());
    }
    while index < names.len()
        invariant
            index <= names@.len(),
            models == strings_view(names@),
            columns_of(models.subrange(0, index as int)) == Ok::<_, ApiFault>(columns@),
        decreases names@.len() - index,
    {
        proof {
            let part = models.subrange(0, index + 1);
            assert(part.drop_last() =~= models.subrange(0, index as int));
            assert(part.last() == names@[index as int]@);
        }
        match AnalyticsColumn::parse(&names[index]) {
            Some(column) => columns.push(column),
            None => {
                proof {
                    lemma_columns_fault(models, index + 1);
                }
                let message = "unknown analytics column ".to_owned().concat(
                    &debug_string(&names[index]),
                );
                return Err(LokiApiError::bad_request(&message));
            },
        }
        index = index + 1;
    }
    proof {
        assert(models.subrange(0, index as int) =~= models);
    }
    Ok(columns)
}

/// A number in a parameter.
pub open spec fn parameter_number(name: Seq<char>, value: Seq<char>) -> Result<u64, ApiFault> {
    match unsigned_value(value) {
        Some(number) => if number <= u64::MAX {
            Ok(number as u64)
        } else {
            Err(bad(name + " is not a u64"@))
        },
        None => Err(bad(name + " is not a u64"@)),
    }
}

/// Reads a number in a parameter.
fn parse_u64(name: &str, value: &str) -> (result: Result<u64, LokiApiError>)
    ensures
        crate::api_error::plain_outcome(result, parameter_number(name@, value@)),
{
    match read_u64_text(&chars_of(value)) {
        Some(number) => Ok(number),
        None => {
            let message = name.to_owned().concat(" is not a u64");
            Err(LokiApiError::bad_request(&message))
        },
    }
}

/// Request read so far, and whether its columns were given.
#[verifier::ext_equal]
pub struct ScanState {
    /// Request.
    pub request: ScanModel,
    /// Whether columns were given.
    pub columns_given: bool,
}

/// The request after one more parameter.
pub open spec fn with_parameter(state: ScanState, key: Seq<char>, value: Seq<char>) -> Result<
    ScanState,
    ApiFault,
> {
    let request = state.request;
    let given = state.columns_given;
    if key == "start_ns"@ {
        match parameter_number("start_ns"@, value) {
            Ok(number) => Ok(
                ScanState {
                    request: ScanModel { start: Some(number), ..request },
                    columns_given: given,
                },
            ),
            Err(fault) => Err(fault),
        }
    } else if key == "end_ns"@ {
        match parameter_number("end_ns"@, value) {
            Ok(number) => Ok(
                ScanState {
                    request: ScanModel { end: Some(number), ..request },
                    columns_given: given,
                },
            ),
            Err(fault) => Err(fault),
        }
    } else if key == "limit"@ {
        match unsigned_value(value) {
            Some(number) => if number <= usize::MAX {
                Ok(
                    ScanState {
                        request: ScanModel { limit: Some(number as usize), ..request },
                        columns_given: given,
                    },
                )
            } else {
                Err(bad("limit is not a usize"@))
            },
            None => Err(bad("limit is not a usize"@)),
        }
    } else if key == "term"@ {
        Ok(
            ScanState {
                request: ScanModel { terms: request.terms.push(value), ..request },
                columns_given: given,
            },
        )
    } else if key == "columns"@ {
        if given {
            Err(bad("columns may be specified only once"@))
        } else {
            match columns_of(comma_parts(value)) {
                Ok(columns) => Ok(
                    ScanState {
                        request: ScanModel { projection: columns, ..request },
                        columns_given: true,
                    },
                ),
                Err(fault) => Err(fault),
            }
        }
    } else if part_at(key, 0, "label."@) {
        if key.len() == "label."@.len() {
            Err(bad("label name must not be empty"@))
        } else {
            let name = key.subrange("label."@.len() as int, key.len() as int);
            Ok(
                ScanState {
                    request: ScanModel { labels: request.labels.push((name, value)), ..request },
                    columns_given: given,
                },
            )
        }
    } else if part_at(key, 0, "metadata."@) {
        if key.len() == "metadata."@.len() {
            Err(bad("metadata name must not be empty"@))
        } else {
            let name = key.subrange("metadata."@.len() as int, key.len() as int);
            Ok(
                ScanState {
                    request: ScanModel {
                        metadata: request.metadata.push((name, value)),
                        ..request
                    },
                    columns_given: given,
                },
            )
        }
    } else {
        Err(bad("unknown analytics parameter "@ + debug_text(key)))
    }
}

/// The request after parameters.
pub open spec fn with_parameters(tenant: Seq<char>, parameters: Pairs) -> Result<
    ScanState,
    ApiFault,
>
    decreases parameters.len(),
{
    if parameters.len() == 0 {
        Ok(ScanState { request: full_scan(tenant), columns_given: false })
    } else {
        match with_parameters(tenant, parameters.drop_last()) {
            Err(fault) => Err(fault),
            Ok(front) => with_parameter(front, parameters.last().0, parameters.last().1),
        }
    }
}

proof fn lemma_parameters_fault(tenant: Seq<char>, parameters: Pairs, n: int)
    requires
        0 <= n <= parameters.len(),
        with_parameters(tenant, parameters.subrange(0, n)) is Err,
    ensures
        with_parameters(tenant, parameters) == with_parameters(tenant, parameters.subrange(0, n)),
    decreases parameters.len(),
{
    if n < parameters.len() {
        assert(parameters.drop_last().subrange(0, n) =~= parameters.subrange(0, n));
        lemma_parameters_fault(tenant, parameters.drop_last(), n);
    } else {
        assert(parameters.subrange(0, n) =~= parameters);
    }
}

/// The request that parameters ask for.
pub open spec fn scan_request_of(tenant: Seq<char>, parameters: Pairs) -> Result<
    ScanModel,
    ApiFault,
> {
    match with_parameters(tenant, parameters) {
        Err(fault) => Err(fault),
        Ok(state) => match scan_fault(state.request) {
            Some(fault) => Err(fault),
            None => Ok(state.request),
        },
    }
}

/// What follows a prefix of a key, where it begins with that prefix.
fn after_prefix(key: &str, prefix: &str) -> (rest: Option<String>)
    ensures
        rest is Some == part_at(key@, 0, prefix@),
        rest is Some ==> rest->0@ == key@.subrange(prefix@.len() as int, key@.len() as int),
{
    let characters = chars_of(key);
    let wanted = chars_of(prefix);
    if holds_part(&characters, 0, &wanted) {
        Some(text_between(&characters, wanted.len(), characters.len()))
    } else {
        None
    }
}

/// Takes one more parameter into a request.
fn apply_parameter(
    request: &mut AnalyticsScanRequest,
    columns_given: &mut bool,
    key: &str,
    value: &str,
) -> (result: Result<(), LokiApiError>)
    ensures
        match (
            result,
            with_parameter(
                (ScanState { request: old(request)@, columns_given: *old(columns_given) }),
                key@,
                value@,
            ),
        ) {
            (Ok(_), Ok(state)) => final(request)@ == state.request && *final(columns_given)
                == state.columns_given,
            (Err(error), Err(fault)) => error@ == fault,
            _ => false,
        },
{
    let ghost before = request@;
    if same_text(key, "start_ns") {
        match parse_u64("start_ns", value) {
            Ok(number) => request.start_timestamp_unix_nanos = Some(number),
            Err(error) => return Err(error),
        }
    } else if same_text(key, "end_ns") {
        match parse_u64("end_ns", value) {
            Ok(number) => request.end_timestamp_unix_nanos = Some(number),
            Err(error) => return Err(error),
        }
    } else if same_text(key, "limit") {
        match read_usize_text(&chars_of(value)) {
            Some(number) => request.limit = Some(number),
            None => return Err(LokiApiError::bad_request("limit is not a usize")),
        }
    } else if same_text(key, "term") {
        request.terms.push(value.to_owned());
        proof {
            assert(strings_view(request.terms@) =~= before.terms.push(value@));
        }
    } else if same_text(key, "columns") {
        if *columns_given {
            return Err(LokiApiError::bad_request("columns may be specified only once"));
        }
        match parse_columns(&split_commas(&chars_of(value))) {
            Ok(columns) => {
                request.projection = columns;
                *columns_given = true;
            },
            Err(error) => return Err(error),
        }
    } else if let Some(name) = after_prefix(key, "label.") {
        if chars_of(&name).len() == 0 {
            return Err(LokiApiError::bad_request("label name must not be empty"));
        }
        request.labels.push(MetadataField::new(name, value.to_owned()));
        proof {
            assert(fields_view(request.labels@) =~= before.labels.push((name@, value@)));
        }
    } else if let Some(name) = after_prefix(key, "metadata.") {
        if chars_of(&name).len() == 0 {
            return Err(LokiApiError::bad_request("metadata name must not be empty"));
        }
        request.metadata.push(MetadataField::new(name, value.to_owned()));
        proof {
            assert(fields_view(request.metadata@) =~= before.metadata.push((name@, value@)));
        }
    } else {
        let message = "unknown analytics parameter ".to_owned().concat(&debug_string(key));
        return Err(LokiApiError::bad_request(&message));
    }
    Ok(())
}

/// Reads a scan request from decoded parameters.
pub fn scan_request_from(tenant: String, parameters: &Vec<(String, String)>) -> (result: Result<
    AnalyticsScanRequest,
    LokiApiError,
>)
    ensures
        same_outcome(result, scan_request_of(tenant@, pairs_view(parameters@))),
{
    let ghost models = pairs_view(parameters@);
    let ghost name = tenant@;
    let mut request = AnalyticsScanRequest::new(tenant);
    let mut columns_given = false;
    let mut index: usize = 0;
    proof {
        assert(models.subrange(0, 0) =~= Pairs::empty());
    }
    while index < parameters.len()
        invariant
            index <= parameters@.len(),
            models == pairs_view(parameters@),
            name == tenant@,
            with_parameters(name, models.subrange(0, index as int)) == Ok::<_, ApiFault>(
                (ScanState { request: request@, columns_given }),
            ),
        decreases parameters@.len() - index,
    {
        proof {
            let part = models.subrange(0, index + 1);
            assert(part.drop_last() =~= models.subrange(0, index as int));
            assert(part.last() == (parameters@[index as int].0@, parameters@[index as int].1@));
            if with_parameters(name, part) is Err {
                lemma_parameters_fault(name, models, index + 1);
            }
        }
        match apply_parameter(
            &mut request,
            &mut columns_given,
            &parameters[index].0,
            &parameters[index].1,
        ) {
            Ok(_) => {},
            Err(error) => return Err(error),
        }
        index = index + 1;
    }
    proof {
        assert(models.subrange(0, index as int) =~= models);
    }
    match request.validate() {
        Ok(_) => Ok(request),
        Err(error) => Err(error),
    }
}

/// The decoded names and values of a form-encoded query.
pub uninterp spec fn form_pairs(query: Seq<char>) -> Seq<(Seq<char>, Seq<char>)>;

/// Decodes a form-encoded query.
///
/// Calls `form_urlencoded::parse`, whose pairs depend on the query alone.
#[verifier::external_body]
fn decode_form(query: &str) -> (parameters: Vec<(String, String)>)
    ensures
        pairs_view(parameters@) == form_pairs(query@),
{
    form_urlencoded::parse(query.as_bytes()).into_owned().collect()
}

/// Decodes the parameters of a raw query.
pub fn decode_query(raw_query: Option<&str>) -> (parameters: Vec<(String, String)>)
    ensures
        pairs_view(parameters@) == form_pairs(
            match raw_query {
                Some(query) => query@,
                None => ""@,
            },
        ),
{
    match raw_query {
        Some(query) => decode_form(query),
        None => decode_form(""),
    }
}

/// Reads a scan request from a raw query.
pub fn parse_scan_request(tenant: String, raw_query: Option<&str>) -> (result: Result<
    AnalyticsScanRequest,
    LokiApiError,
>)
    ensures
        same_outcome(
            result,
            scan_request_of(
                tenant@,
                form_pairs(
                    match raw_query {
                        Some(query) => query@,
                        None => ""@,
                    },
                ),
            ),
        ),
{
    scan_request_from(tenant, &decode_query(raw_query))
}

/// Value of a scanned row.
#[verifier::ext_equal]
pub struct RowModel {
    /// Tenant owning the record.
    pub tenant: Seq<char>,
    /// Timestamp in Unix nanoseconds.
    pub timestamp: i64,
    /// Logical partition number.
    pub partition: u32,
    /// Durable logical offset.
    pub offset: u64,
    /// Original message.
    pub message: Seq<char>,
    /// Stream labels.
    pub labels: Pairs,
    /// Structured metadata.
    pub metadata: Pairs,
}

/// Row given by an analytical scan.
#[derive(Debug, PartialEq, Eq)]
pub struct AnalyticsLogRow {
    /// Tenant owning the record.
    pub tenant: String,
    /// Event timestamp in Unix nanoseconds.
    pub timestamp_unix_nanos: i64,
    /// Logical partition number.
    pub partition: u32,
    /// Durable logical offset.
    pub offset: u64,
    /// Original message.
    pub message: String,
    /// Stream labels.
    pub labels: LabelMap,
    /// Structured metadata.
    pub metadata: LabelMap,
}

impl View for AnalyticsLogRow {
    type V = RowModel;

    open spec fn view(&self) -> RowModel {
        RowModel {
            tenant: self.tenant@,
            timestamp: self.timestamp_unix_nanos,
            partition: self.partition,
            offset: self.offset,
            message: self.message@,
            labels: self.labels@,
            metadata: self.metadata@,
        }
    }
}

/// Values of rows.
pub open spec fn rows_view(rows: Seq<AnalyticsLogRow>) -> Seq<RowModel> {
    rows.map_values(|row: AnalyticsLogRow| row@)
}

/// Whether a timestamp lies in the bounds of a scan.
pub open spec fn in_scan_range(request: ScanModel, timestamp: i64) -> bool {
    &&& request.start is Some ==> timestamp >= request.start->0
    &&& request.end is Some ==> 0 <= timestamp < request.end->0
}

/// Whether labels hold every constraint.
pub open spec fn holds_fields(labels: Pairs, fields: Pairs) -> bool {
    forall|i: int|
        0 <= i < fields.len() ==> lookup(labels, (#[trigger] fields[i]).0) == Some(fields[i].1)
}

/// Whether a scan selects an entry whose message has the given terms; case does not matter.
pub open spec fn scan_selects(
    request: ScanModel,
    entry: EntryModel,
    terms: Seq<Seq<char>>,
) -> bool {
    &&& in_scan_range(request, entry.timestamp)
    &&& holds_fields(entry.labels, request.labels)
    &&& holds_fields(entry.metadata, request.metadata)
    &&& forall|i: int|
        0 <= i < request.terms.len() ==> normal_terms(terms).contains(
            normal_term(#[trigger] request.terms[i]),
        )
}

/// Whether labels hold every constraint.
fn labels_hold(labels: &LabelMap, fields: &Vec<MetadataField>) -> (hold: bool)
    ensures
        hold == holds_fields(labels@, fields_view(fields@)),
{
    let ghost models = fields_view(fields@);
    let mut index: usize = 0;
    while index < fields.len()
        invariant
            index <= fields@.len(),
            models == fields_view(fields@),
            forall|i: int|
                0 <= i < index ==> lookup(labels@, (#[trigger] models[i]).0) == Some(models[i].1),
        decreases fields@.len() - index,
    {
        proof {
            assert(models[index as int] == (
                fields@[index as int].key@,
                fields@[index as int].value@,
            ));
        }
        let holds = match labels.get(&fields[index].key) {
            Some(value) => same_text(value, &fields[index].value),
            None => false,
        };
        if !holds {
            return false;
        }
        index = index + 1;
    }
    true
}

/// Whether a scan selects an entry whose message has the given terms.
pub fn entry_matches(entry: &LokiEntry, terms: &Vec<String>, request: &AnalyticsScanRequest) -> (
    matches: bool)
    ensures
        matches == scan_selects(request@, entry@, strings_view(terms@)),
{
    let timestamp: i64 = entry.timestamp_unix_nanos;
    match request.start_timestamp_unix_nanos {
        Some(start) => {
            if timestamp < 0 || (timestamp as u64) < start {
                return false;
            }
        },
        None => {},
    }
    match request.end_timestamp_unix_nanos {
        Some(end) => {
            if timestamp < 0 || (timestamp as u64) >= end {
                return false;
            }
        },
        None => {},
    }
    if !labels_hold(&entry.labels, &request.labels) {
        return false;
    }
    if !labels_hold(&entry.structured_metadata, &request.metadata) {
        return false;
    }
    let ghost wanted = strings_view(request.terms@);
    let known = normalize_terms(terms);
    let mut index: usize = 0;
    while index < request.terms.len()
        invariant
            index <= request.terms@.len(),
            wanted == strings_view(request.terms@),
            strings_view(known@) == normal_terms(strings_view(terms@)),
            in_scan_range(request@, entry@.timestamp),
            holds_fields(entry@.labels, request@.labels),
            holds_fields(entry@.metadata, request@.metadata),
            forall|i: int|
                0 <= i < index ==> strings_view(known@).contains(
                    normal_term(#[trigger] wanted[i]),
                ),
        decreases request.terms@.len() - index,
    {
        proof {
            assert(wanted[index as int] == request.terms@[index as int]@);
            assert(request@.terms[index as int] == wanted[index as int]);
            assert(strings_view(known@) =~= known@.map_values(|item: String| item@));
        }
        if !holds_text(&known, &normalize_term(&request.terms[index])) {
            return false;
        }
        index = index + 1;
    }
    true
}

/// Terms of the messages of entries.
pub open spec fn term_lists(terms: Seq<Vec<String>>) -> Seq<Seq<Seq<char>>> {
    terms.map_values(|list: Vec<String>| strings_view(list@))
}

/// Rows of the first `count` entries that a scan selects.
pub open spec fn selected_rows(
    request: ScanModel,
    entries: Seq<EntryModel>,
    terms: Seq<Seq<Seq<char>>>,
    count: int,
) -> Seq<RowModel>
    decreases count,
{
    if count <= 0 {
        Seq::empty()
    } else {
        let front = selected_rows(request, entries, terms, count - 1);
        let entry = entries[count - 1];
        if scan_selects(request, entry, terms[count - 1]) {
            front.push(
                RowModel {
                    tenant: request.tenant,
                    timestamp: entry.timestamp,
                    partition: 0,
                    offset: (count - 1) as u64,
                    message: entry.line,
                    labels: entry.labels,
                    metadata: entry.metadata,
                },
            )
        } else {
            front
        }
    }
}

proof fn lemma_selected_grow(
    request: ScanModel,
    entries: Seq<EntryModel>,
    terms: Seq<Seq<Seq<char>>>,
    from: int,
    to: int,
)
    requires
        0 <= from <= to,
    ensures
        selected_rows(request, entries, terms, from).len() <= selected_rows(
            request,
            entries,
            terms,
            to,
        ).len(),
        selected_rows(request, entries, terms, to).subrange(
            0,
            selected_rows(request, entries, terms, from).len() as int,
        ) == selected_rows(request, entries, terms, from),
    decreases to - from,
{
    let base = selected_rows(request, entries, terms, from);
    if from < to {
        lemma_selected_grow(request, entries, terms, from, to - 1);
        let middle = selected_rows(request, entries, terms, to - 1);
        let all = selected_rows(request, entries, terms, to);
        assert(all.subrange(0, base.len() as int) =~= middle.subrange(0, base.len() as int));
    } else {
        assert(base.subrange(0, base.len() as int) =~= base);
    }
}

/// Number of rows that a scan gives at most.
pub open spec fn scan_limit(request: ScanModel) -> nat {
    match request.limit {
        Some(limit) => limit as nat,
        None => usize::MAX as nat,
    }
}

/// Rows that a scan gives.
pub open spec fn scan_rows(
    request: ScanModel,
    entries: Seq<EntryModel>,
    terms: Seq<Seq<Seq<char>>>,
) -> Seq<RowModel> {
    limited(
        selected_rows(request, entries, terms, entries.len() as int),
        scan_limit(request),
    )
}

/// Items in batches: every batch but the last is full, and none is empty.
pub open spec fn batched<T>(items: Seq<T>) -> Seq<Seq<T>>
    decreases items.len(),
{
    if items.len() == 0 {
        Seq::empty()
    } else if items.len() <= SCAN_BATCH_ROWS {
        seq![items]
    } else {
        seq![items.subrange(0, SCAN_BATCH_ROWS as int)] + batched(
            items.subrange(SCAN_BATCH_ROWS as int, items.len() as int),
        )
    }
}

/// Values of batches of rows.
pub open spec fn batches_view(batches: Seq<Vec<AnalyticsLogRow>>) -> Seq<Seq<RowModel>> {
    batches.map_values(|batch: Vec<AnalyticsLogRow>| rows_view(batch@))
}

/// Cuts rows into batches.
fn into_batches(rows: Vec<AnalyticsLogRow>) -> (batches: Vec<Vec<AnalyticsLogRow>>)
    ensures
        batches_view(batches@) == batched(rows_view(rows@)),
{
    let ghost all = batched(rows_view(rows@));
    let mut rest = rows;
    let mut batches: Vec<Vec<AnalyticsLogRow>> = Vec::new();
    proof {
        assert(batches_view(batches@) + all =~= all);
    }
    while rest.len() > SCAN_BATCH_ROWS
        invariant
            batches_view(batches@) + batched(rows_view(rest@)) == all,
        decreases rest@.len(),
    {
        let ghost before = rows_view(rest@);
        let ghost done = batches_view(batches@);
        let tail = rest.split_off(SCAN_BATCH_ROWS);
        proof {
            assert(rows_view(rest@) =~= before.subrange(0, SCAN_BATCH_ROWS as int));
            assert(rows_view(tail@) =~= before.subrange(
                SCAN_BATCH_ROWS as int,
                before.len() as int,
            ));
            assert(batches_view(batches@.push(rest)) =~= done.push(rows_view(rest@)));
            assert(done.push(rows_view(rest@)) + batched(rows_view(tail@)) =~= done + batched(
                before,
            ));
        }
        batches.push(rest);
        rest = tail;
    }
    let ghost done = batches_view(batches@);
    let ghost last = rows_view(rest@);
    if rest.len() > 0 {
        proof {
            assert(batches_view(batches@.push(rest)) =~= done.push(last));
            assert(done.push(last) =~= done + batched(last));
        }
        batches.push(rest);
    } else {
        proof {
            assert(done + batched(last) =~= done);
        }
    }
    batches
}

/// The rows of entries that a scan selects, in batches, given the terms of each
/// entry's message.
pub fn scan_entries(
    entries: &Vec<LokiEntry>,
    terms: &Vec<Vec<String>>,
    request: &AnalyticsScanRequest,
) -> (result: Result<Vec<Vec<AnalyticsLogRow>>, LokiApiError>)
    requires
        terms@.len() == entries@.len(),
    ensures
        match (result, scan_fault(request@)) {
            (Ok(batches), None) => batches_view(batches@) == batched(
                scan_rows(request@, entries_view(entries@), term_lists(terms@)),
            ),
            (Err(error), Some(fault)) => error@ == fault,
            _ => false,
        },
{
    match request.validate() {
        Ok(_) => {},
        Err(error) => return Err(error),
    }
    let limit: usize = match request.limit {
        Some(limit) => limit,
        None => usize::MAX,
    };
    let ghost models = entries_view(entries@);
    let ghost lists = term_lists(terms@);
    let mut rows: Vec<AnalyticsLogRow> = Vec::new();
    let mut index: usize = 0;
    proof {
        assert(rows_view(rows@) =~= Seq::<RowModel>::empty());
    }
    while index < entries.len() && rows.len() < limit
        invariant
            index <= entries@.len(),
            terms@.len() == entries@.len(),
            models == entries_view(entries@),
            lists == term_lists(terms@),
            rows@.len() <= limit,
            rows_view(rows@) == selected_rows(request@, models, lists, index as int),
        decreases entries@.len() - index,
    {
        let ghost before = rows_view(rows@);
        proof {
            assert(models[index as int] == entries@[index as int]@);
            assert(lists[index as int] == strings_view(terms@[index as int]@));
        }
        if entry_matches(&entries[index], &terms[index], request) {
            let row = AnalyticsLogRow {
                tenant: request.tenant.clone(),
                timestamp_unix_nanos: entries[index].timestamp_unix_nanos,
                partition: 0,
                offset: index as u64,
                message: entries[index].line.clone(),
                labels: entries[index].labels.clone(),
                metadata: entries[index].structured_metadata.clone(),
            };
            proof {
                assert(rows_view(rows@.push(row)) =~= before.push(row@));
            }
            rows.push(row);
        }
        index = index + 1;
    }
    proof {
        lemma_selected_grow(request@, models, lists, index as int, models.len() as int);
        let all = selected_rows(request@, models, lists, models.len() as int);
        assert(rows_view(rows@) =~= limited(all, scan_limit(request@)));
    }
    Ok(into_batches(rows))
}

/// A scan gives no more rows than its limit, in their order, and skips no selected
/// entry before the limit is reached.
pub proof fn scan_keeps_prefix(
    request: ScanModel,
    entries: Seq<EntryModel>,
    terms: Seq<Seq<Seq<char>>>,
)
    ensures
        scan_rows(request, entries, terms).len() <= scan_limit(request),
        scan_rows(request, entries, terms).is_prefix_of(
            selected_rows(request, entries, terms, entries.len() as int),
        ),
        scan_rows(request, entries, terms).len() < scan_limit(request) ==> scan_rows(
            request,
            entries,
            terms,
        ) == selected_rows(request, entries, terms, entries.len() as int),
{
}

} // verus!
