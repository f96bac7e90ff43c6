//! Normalization of OpenTelemetry log exports.
use opentelemetry_proto::tonic::collector::logs::v1::ExportLogsServiceRequest;
use opentelemetry_proto::tonic::common::v1::any_value::Value;
use opentelemetry_proto::tonic::common::v1::AnyValue;
use opentelemetry_proto::tonic::logs::v1::{LogRecord, ResourceLogs, ScopeLogs};
use prost::Message;
use vstd::prelude::*;
use vstd::utf8::*;

use crate::codec::{decimal_string, decimal_text, push_char, same_text};
use crate::error::{LogDbError, LogDbFault};
use crate::hash::{fnv_bytes, fnv_extend, fnv_push, fnv_step, FNV_OFFSET};
use crate::labels::{clone_fields, fields_view, MetadataField, Pairs};
use crate::log_query::{durable, records_view, DurableLogRecord, RecordModel};
use crate::log_stripe::batch_offset;
use crate::record::{
    events_view, CompressionCohortId, EventModel, LogicalOffset, OtlpLogEvent, ShardId,
    TopicPartition,
};

verus! {

broadcast use vstd::seq_lib::group_seq_properties;

/// Levels of nested values that are rendered. Requests nest less deeply: the
/// protobuf decoder refuses messages of more than a hundred levels.
pub const MAX_VALUE_DEPTH: u32 = 100;

/// Attribute with its encoded value.
pub struct OtlpAttribute {
    /// Attribute name.
    pub key: String,
    /// Encoded `AnyValue`, where there is one.
    pub value: Option<Vec<u8>>,
}

/// Value of an attribute.
#[verifier::ext_equal]
pub struct AttributeModel {
    /// Attribute name.
    pub key: Seq<char>,
    /// Encoded `AnyValue`, where there is one.
    pub value: Option<Seq<u8>>,
}

/// Bytes behind an option.
pub open spec fn bytes_option(value: Option<Vec<u8>>) -> Option<Seq<u8>> {
    match value {
        Some(bytes) => Some(bytes@),
        None => None,
    }
}

impl View for OtlpAttribute {
    type V = AttributeModel;

    open spec fn view(&self) -> AttributeModel {
        AttributeModel { key: self.key@, value: bytes_option(self.value) }
    }
}

/// Values of attributes.
pub open spec fn attributes_view(attributes: Seq<OtlpAttribute>) -> Seq<AttributeModel> {
    attributes.map_values(|attribute: OtlpAttribute| attribute@)
}

/// Byte strings.
pub open spec fn bytes_list(list: Seq<Vec<u8>>) -> Seq<Seq<u8>> {
    list.map_values(|bytes: Vec<u8>| bytes@)
}

/// Instrumentation scope.
pub struct OtlpScope {
    /// Scope name.
    pub name: String,
    /// Scope version.
    pub version: String,
    /// Scope attributes.
    pub attributes: Vec<OtlpAttribute>,
}

/// Value of a scope.
#[verifier::ext_equal]
pub struct ScopeModel {
    /// Scope name.
    pub name: Seq<char>,
    /// Scope version.
    pub version: Seq<char>,
    /// Scope attributes.
    pub attributes: Seq<AttributeModel>,
}

impl View for OtlpScope {
    type V = ScopeModel;

    open spec fn view(&self) -> ScopeModel {
        ScopeModel {
            name: self.name@,
            version: self.version@,
            attributes: attributes_view(self.attributes@),
        }
    }
}

/// A scope behind an option.
pub open spec fn scope_option(scope: Option<OtlpScope>) -> Option<ScopeModel> {
    match scope {
        Some(found) => Some(found@),
        None => None,
    }
}

/// Log record.
pub struct OtlpRecord {
    /// Event time.
    pub time_unix_nano: u64,
    /// Time of observation.
    pub observed_time_unix_nano: u64,
    /// Severity number; zero for none.
    pub severity_number: i32,
    /// Severity text.
    pub severity_text: String,
    /// Trace identifier.
    pub trace_id: Vec<u8>,
    /// Span identifier.
    pub span_id: Vec<u8>,
    /// Event name.
    pub event_name: String,
    /// Record attributes.
    pub attributes: Vec<OtlpAttribute>,
    /// Encoded body, where there is one.
    pub body: Option<Vec<u8>>,
}

/// Value of a log record.
#[verifier::ext_equal]
pub struct LogRecordModel {
    /// Event time.
    pub time: u64,
    /// Time of observation.
    pub observed: u64,
    /// Severity number; zero for none.
    pub severity_number: i32,
    /// Severity text.
    pub severity_text: Seq<char>,
    /// Trace identifier.
    pub trace_id: Seq<u8>,
    /// Span identifier.
    pub span_id: Seq<u8>,
    /// Event name.
    pub event_name: Seq<char>,
    /// Record attributes.
    pub attributes: Seq<AttributeModel>,
    /// Encoded body, where there is one.
    pub body: Option<Seq<u8>>,
}

impl View for OtlpRecord {
    type V = LogRecordModel;

    open spec fn view(&self) -> LogRecordModel {
        LogRecordModel {
            time: self.time_unix_nano,
            observed: self.observed_time_unix_nano,
            severity_number: self.severity_number,
            severity_text: self.severity_text@,
            trace_id: self.trace_id@,
            span_id: self.span_id@,
            event_name: self.event_name@,
            attributes: attributes_view(self.attributes@),
            body: bytes_option(self.body),
        }
    }
}

/// One level of an `AnyValue`.
pub enum OtlpNode {
    /// No value.
    Empty,
    /// Text.
    Text(String),
    /// Truth value.
    Flag(bool),
    /// Integer.
    Integer(i64),
    /// Floating-point number in decimal.
    Double(String),
    /// Bytes.
    Bytes(Vec<u8>),
    /// Encoded values of a list.
    Items(Vec<Vec<u8>>),
    /// Fields of a list of fields.
    Fields(Vec<OtlpAttribute>),
    /// Reference that other signals use.
    Reserved,
}

/// Value of one level of an `AnyValue`.
#[verifier::ext_equal]
pub enum NodeModel {
    /// No value.
    Empty,
    /// Text.
    Text(Seq<char>),
    /// Truth value.
    Flag(bool),
    /// Integer.
    Integer(i64),
    /// Floating-point number in decimal.
    Double(Seq<char>),
    /// Bytes.
    Bytes(Seq<u8>),
    /// Encoded values of a list.
    Items(Seq<Seq<u8>>),
    /// Fields of a list of fields.
    Fields(Seq<AttributeModel>),
    /// Reference that other signals use.
    Reserved,
}

impl View for OtlpNode {
    type V = NodeModel;

    open spec fn view(&self) -> NodeModel {
        match self {
            OtlpNode::Empty => NodeModel::Empty,
            OtlpNode::Text(text) => NodeModel::Text(text@),
            OtlpNode::Flag(flag) => NodeModel::Flag(*flag),
            OtlpNode::Integer(number) => NodeModel::Integer(*number),
            OtlpNode::Double(text) => NodeModel::Double(text@),
            OtlpNode::Bytes(bytes) => NodeModel::Bytes(bytes@),
            OtlpNode::Items(items) => NodeModel::Items(bytes_list(items@)),
            OtlpNode::Fields(fields) => NodeModel::Fields(attributes_view(fields@)),
            OtlpNode::Reserved => NodeModel::Reserved,
        }
    }
}

/// The encoded `ResourceLogs` of an export request, or the text of the decoder's error.
pub uninterp spec fn decoded_export(payload: Seq<u8>) -> Result<Seq<Seq<u8>>, Seq<char>>;

/// The attributes of the resource, where there is one, and the encoded `ScopeLogs` of a
/// `ResourceLogs` message.
pub uninterp spec fn decoded_resource_logs(message: Seq<u8>) -> Option<
    (Option<Seq<AttributeModel>>, Seq<Seq<u8>>),
>;

/// Attributes behind an option.
pub open spec fn attributes_option(attributes: Option<Vec<OtlpAttribute>>) -> Option<
    Seq<AttributeModel>,
> {
    match attributes {
        Some(list) => Some(attributes_view(list@)),
        None => None,
    }
}

/// Attributes of a resource; a missing one has none.
pub open spec fn known_attributes(attributes: Option<Seq<AttributeModel>>) -> Seq<AttributeModel> {
    match attributes {
        Some(list) => list,
        None => Seq::empty(),
    }
}

/// The scope and encoded records of a `ScopeLogs` message.
pub uninterp spec fn decoded_scope_logs(message: Seq<u8>) -> Option<
    (Option<ScopeModel>, Seq<Seq<u8>>),
>;

/// The parts of a `LogRecord` message.
pub uninterp spec fn decoded_log_record(message: Seq<u8>) -> Option<LogRecordModel>;

/// The outermost level of an `AnyValue` message.
pub uninterp spec fn decoded_any_value(message: Seq<u8>) -> Option<NodeModel>;

/// Decodes an export request.
///
/// Calls `prost::Message::decode` for `ExportLogsServiceRequest` and encodes each of
/// its `ResourceLogs` with `encode_to_vec`; both, and the text of an error, depend on the
/// bytes alone.
#[verifier::external_body]
fn export_parts(payload: &[u8]) -> (parts: Result<Vec<Vec<u8>>, String>)
    ensures
        match parts {
            Ok(list) => decoded_export(payload@) == Ok::<_, Seq<char>>(bytes_list(list@)),
            Err(text) => decoded_export(payload@) == Err::<Seq<Seq<u8>>, _>(text@),
        },
{
    let request = ExportLogsServiceRequest::decode(payload).map_err(|error| error.to_string())?;
    Ok(request.resource_logs.iter().map(|logs| logs.encode_to_vec()).collect())
}

/// Decodes a `ResourceLogs` message.
///
/// Calls `prost::Message::decode` for `ResourceLogs` and encodes the attribute
/// values and each `ScopeLogs`; all depend on the bytes alone.
#[verifier::external_body]
fn resource_logs_parts(message: &[u8]) -> (parts: Option<
    (Option<Vec<OtlpAttribute>>, Vec<Vec<u8>>),
>)
    ensures
        match parts {
            Some((attributes, scopes)) => decoded_resource_logs(message@) == Some(
                (attributes_option(attributes), bytes_list(scopes@)),
            ),
            None => decoded_resource_logs(message@) is None,
        },
{
    let logs = ResourceLogs::decode(message).ok()?;
    let attributes = logs.resource.map(|resource| resource.attributes.into_iter().map(
        |item| OtlpAttribute { key: item.key, value: item.value.map(|v| v.encode_to_vec()) },
    ).collect());
    Some((attributes, logs.scope_logs.iter().map(|scope| scope.encode_to_vec()).collect()))
}

/// Decodes a `ScopeLogs` message.
///
/// Calls `prost::Message::decode` for `ScopeLogs` and encodes the attribute values
/// and each `LogRecord`; all depend on the bytes alone.
#[verifier::external_body]
fn scope_logs_parts(message: &[u8]) -> (parts: Option<(Option<OtlpScope>, Vec<Vec<u8>>)>)
    ensures
        match parts {
            Some((scope, records)) => decoded_scope_logs(message@) == Some(
                (scope_option(scope), bytes_list(records@)),
            ),
            None => decoded_scope_logs(message@) is None,
        },
{
    let logs = ScopeLogs::decode(message).ok()?;
    let scope = logs.scope.map(|scope| OtlpScope {
        name: scope.name,
        version: scope.version,
        attributes: scope.attributes.into_iter().map(
            |item| OtlpAttribute { key: item.key, value: item.value.map(|v| v.encode_to_vec()) },
        ).collect(),
    });
    Some((scope, logs.log_records.iter().map(|record| record.encode_to_vec()).collect()))
}

/// Decodes a `LogRecord` message.
///
/// Calls `prost::Message::decode` for `LogRecord` and encodes the attribute values
/// and the body; all depend on the bytes alone.
#[verifier::external_body]
fn log_record_parts(message: &[u8]) -> (parts: Option<OtlpRecord>)
    ensures
        match parts {
            Some(record) => decoded_log_record(message@) == Some(record@),
            None => decoded_log_record(message@) is None,
        },
{
    LogRecord::decode(message).ok().map(|r| OtlpRecord {
        time_unix_nano: r.time_unix_nano,
        observed_time_unix_nano: r.observed_time_unix_nano,
        severity_number: r.severity_number,
        severity_text: r.severity_text,
        trace_id: r.trace_id,
        span_id: r.span_id,
        event_name: r.event_name,
        attributes: r.attributes.into_iter().map(
            |item| OtlpAttribute { key: item.key, value: item.value.map(|v| v.encode_to_vec()) },
        ).collect(),
        body: r.body.map(|body| body.encode_to_vec()),
    })
}

/// Decodes the outermost level of an `AnyValue` message.
///
/// Calls `prost::Message::decode` for `AnyValue`, encodes nested values and renders
/// a double with `to_string`; all depend on the bytes alone.
#[verifier::external_body]
fn any_value_node(message: &[u8]) -> (node: Option<OtlpNode>)
    ensures
        match node {
            Some(found) => decoded_any_value(message@) == Some(found@),
            None => decoded_any_value(message@) is None,
        },
{
    Some(AnyValue::decode(message).ok()?.value.map_or(OtlpNode::Empty, |value| match value {
        Value::StringValue(text) => OtlpNode::Text(text),
        Value::BoolValue(flag) => OtlpNode::Flag(flag),
        Value::IntValue(number) => OtlpNode::Integer(number),
        Value::DoubleValue(number) => OtlpNode::Double(number.to_string()),
        Value::BytesValue(bytes) => OtlpNode::Bytes(bytes),
        Value::ArrayValue(list) => OtlpNode::Items(
            list.values.iter().map(Message::encode_to_vec).collect()),
        Value::KvlistValue(list) => OtlpNode::Fields(list.values.into_iter().map(
            |i| OtlpAttribute { key: i.key, value: i.value.map(|v| v.encode_to_vec()) }).collect()),
        _ => OtlpNode::Reserved,
    }))
}

/// Lowercase hexadecimal digit.
pub open spec fn hex_digit(value: int) -> char {
    if value < 10 {
        (48 + value) as char
    } else {
        (87 + value) as char
    }
}

/// Bytes in lowercase hexadecimal.
pub open spec fn hex_text(bytes: Seq<u8>) -> Seq<char>
    decreases bytes.len(),
{
    if bytes.len() == 0 {
        Seq::empty()
    } else {
        hex_text(bytes.drop_last()).push(hex_digit(bytes.last() as int / 16)).push(
            hex_digit(bytes.last() as int % 16),
        )
    }
}

pub(crate) fn hex_char(value: u8) -> (digit: char)
    requires
        value < 16,
    ensures
        digit == hex_digit(value as int),
{
    if value < 10 {
        (48 + value) as char
    } else {
        (87 + value) as char
    }
}

/// Renders bytes in lowercase hexadecimal.
pub fn hex(bytes: &[u8]) -> (text: String)
    ensures
        text@ == hex_text(bytes@),
{
    let mut text = String::new();
    let mut index: usize = 0;
    proof {
        assert(text@ =~= hex_text(bytes@.subrange(0, 0)));
    }
    while index < bytes.len()
        invariant
            index <= bytes@.len(),
            text@ == hex_text(bytes@.subrange(0, index as int)),
        decreases bytes@.len() - index,
    {
        proof {
            let part = bytes@.subrange(0, index + 1);
            assert(part.drop_last() =~= bytes@.subrange(0, index as int));
            assert(part.last() == bytes@[index as int]);
        }
        push_char(&mut text, hex_char(bytes[index] / 16));
        push_char(&mut text, hex_char(bytes[index] % 16));
        index = index + 1;
    }
    proof {
        assert(bytes@.subrange(0, index as int) =~= bytes@);
    }
    text
}

/// A signed number in decimal.
pub open spec fn signed_text(value: int) -> Seq<char> {
    if value < 0 {
        seq!['-'] + decimal_text((-value) as nat)
    } else {
        decimal_text(value as nat)
    }
}

/// Renders a signed number in decimal.
pub fn signed_string(value: i64) -> (text: String)
    ensures
        text@ == signed_text(value as int),
{
    if value >= 0 {
        return decimal_string(value as u128);
    }
    let magnitude: u128 = (-(value as i128)) as u128;
    let mut sign = String::new();
    push_char(&mut sign, '-');
    let digits = decimal_string(magnitude);
    let text = sign.concat(&digits);
    proof {
        assert(sign@ =~= seq!['-']);
        assert(text@ =~= signed_text(value as int));
    }
    text
}

/// Text of an encoded value, of at most `depth` nested levels.
pub open spec fn value_text(value: Option<Seq<u8>>, depth: nat) -> Seq<char>
    decreases depth, 0nat,
{
    match value {
        None => "null"@,
        Some(message) => match decoded_any_value(message) {
            None => "null"@,
            Some(node) => match node {
                NodeModel::Empty => "null"@,
                NodeModel::Text(text) => text,
                NodeModel::Flag(flag) => if flag {
                    "true"@
                } else {
                    "false"@
                },
                NodeModel::Integer(number) => signed_text(number as int),
                NodeModel::Double(text) => text,
                NodeModel::Bytes(bytes) => hex_text(bytes),
                NodeModel::Items(items) => if depth == 0 {
                    Seq::empty()
                } else {
                    "["@ + items_text(items, (depth - 1) as nat) + "]"@
                },
                NodeModel::Fields(fields) => if depth == 0 {
                    Seq::empty()
                } else {
                    "{"@ + fields_text(fields, (depth - 1) as nat) + "}"@
                },
                NodeModel::Reserved => Seq::empty(),
            },
        },
    }
}

/// Texts of values, separated by commas.
pub open spec fn items_text(items: Seq<Seq<u8>>, depth: nat) -> Seq<char>
    decreases depth, items.len() + 1,
{
    if items.len() == 0 {
        Seq::empty()
    } else if items.len() == 1 {
        value_text(Some(items.last()), depth)
    } else {
        items_text(items.drop_last(), depth) + ","@ + value_text(Some(items.last()), depth)
    }
}

/// Text of a field.
pub open spec fn field_text(field: AttributeModel, depth: nat) -> Seq<char>
    decreases depth, 1nat,
{
    field.key + "="@ + value_text(field.value, depth)
}

/// Texts of fields, separated by commas.
pub open spec fn fields_text(fields: Seq<AttributeModel>, depth: nat) -> Seq<char>
    decreases depth, fields.len() + 2,
{
    if fields.len() == 0 {
        Seq::empty()
    } else if fields.len() == 1 {
        field_text(fields.last(), depth)
    } else {
        fields_text(fields.drop_last(), depth) + ","@ + field_text(fields.last(), depth)
    }
}

/// Renders an encoded value, of at most `depth` nested levels.
fn any_value_text(value: &Option<Vec<u8>>, depth: u32) -> (text: String)
    ensures
        text@ == value_text(bytes_option(*value), depth as nat),
    decreases depth, 2nat,
{
    match value {
        None => "null".to_owned(),
        Some(message) => message_text(message, depth),
    }
}

/// Renders an encoded value, of at most `depth` nested levels.
fn message_text(message: &Vec<u8>, depth: u32) -> (text: String)
    ensures
        text@ == value_text(Some(message@), depth as nat),
    decreases depth, 1nat,
{
    match any_value_node(message) {
        None => "null".to_owned(),
        Some(node) => match node {
            OtlpNode::Empty => "null".to_owned(),
            OtlpNode::Text(text) => text,
            OtlpNode::Flag(flag) => if flag {
                "true".to_owned()
            } else {
                "false".to_owned()
            },
            OtlpNode::Integer(number) => signed_string(number),
            OtlpNode::Double(text) => text,
            OtlpNode::Bytes(bytes) => hex(&bytes),
            OtlpNode::Items(items) => {
                if depth == 0 {
                    return String::new();
                }
                let inner = render_items(&items, depth - 1);
                "[".to_owned().concat(&inner).concat("]")
            },
            OtlpNode::Fields(fields) => {
                if depth == 0 {
                    return String::new();
                }
                let inner = render_fields(&fields, depth - 1);
                "{".to_owned().concat(&inner).concat("}")
            },
            OtlpNode::Reserved => String::new(),
        },
    }
}

/// Renders values, separated by commas.
fn render_items(items: &Vec<Vec<u8>>, depth: u32) -> (text: String)
    ensures
        text@ == items_text(bytes_list(items@), depth as nat),
    decreases depth, 3nat,
{
    let ghost list = bytes_list(items@);
    let mut text = String::new();
    let mut index: usize = 0;
    proof {
        assert(text@ =~= items_text(list.subrange(0, 0), depth as nat));
    }
    while index < items.len()
        invariant
            index <= items@.len(),
            list == bytes_list(items@),
            text@ == items_text(list.subrange(0, index as int), depth as nat),
        decreases items@.len() - index,
    {
        let item = message_text(&items[index], depth);
        proof {
            let part = list.subrange(0, index + 1);
            assert(part.drop_last() =~= list.subrange(0, index as int));
            assert(part.last() == items@[index as int]@);
        }
        text = if index == 0 {
            item
        } else {
            text.concat(",").concat(&item)
        };
        index = index + 1;
    }
    proof {
        assert(list.subrange(0, index as int) =~= list);
    }
    text
}

/// Renders fields, separated by commas.
fn render_fields(fields: &Vec<OtlpAttribute>, depth: u32) -> (text: String)
    ensures
        text@ == fields_text(attributes_view(fields@), depth as nat),
    decreases depth, 3nat,
{
    let ghost list = attributes_view(fields@);
    let mut text = String::new();
    let mut index: usize = 0;
    proof {
        assert(text@ =~= fields_text(list.subrange(0, 0), depth as nat));
    }
    while index < fields.len()
        invariant
            index <= fields@.len(),
            list == attributes_view(fields@),
            text@ == fields_text(list.subrange(0, index as int), depth as nat),
        decreases fields@.len() - index,
    {
        let value = any_value_text(&fields[index].value, depth);
        let field = fields[index].key.clone().concat("=").concat(&value);
        proof {
            let part = list.subrange(0, index + 1);
            assert(part.drop_last() =~= list.subrange(0, index as int));
            assert(part.last() == fields@[index as int]@);
            assert(field@ =~= field_text(part.last(), depth as nat));
        }
        text = if index == 0 {
            field
        } else {
            text.concat(",").concat(&field)
        };
        index = index + 1;
    }
    proof {
        assert(list.subrange(0, index as int) =~= list);
    }
    text
}

/// Text of a value at the top of a request.
pub open spec fn top_text(value: Option<Seq<u8>>) -> Seq<char> {
    value_text(value, MAX_VALUE_DEPTH as nat)
}

/// Fields of attributes: nameless ones are dropped, the others get a prefix.
pub open spec fn attribute_fields(prefix: Seq<char>, attributes: Seq<AttributeModel>) -> Pairs
    decreases attributes.len(),
{
    if attributes.len() == 0 {
        Seq::empty()
    } else {
        let front = attribute_fields(prefix, attributes.drop_last());
        let last = attributes.last();
        if last.key.len() == 0 {
            front
        } else {
            front.push((prefix + last.key, top_text(last.value)))
        }
    }
}

/// Service names among attributes.
pub open spec fn service_fields(attributes: Seq<AttributeModel>) -> Pairs
    decreases attributes.len(),
{
    if attributes.len() == 0 {
        Seq::empty()
    } else {
        let front = service_fields(attributes.drop_last());
        if attributes.last().key == "service.name"@ {
            front.push(("service.name"@, top_text(attributes.last().value)))
        } else {
            front
        }
    }
}

/// Fields of a resource.
pub open spec fn resource_fields_of(attributes: Seq<AttributeModel>) -> Pairs {
    attribute_fields("resource."@, attributes) + service_fields(attributes)
}

/// One field, unless its text is empty.
pub open spec fn text_field(name: Seq<char>, text: Seq<char>) -> Pairs {
    if text.len() == 0 {
        Seq::empty()
    } else {
        seq![(name, text)]
    }
}

/// Fields of a scope.
pub open spec fn scope_fields_of(scope: Option<ScopeModel>) -> Pairs {
    match scope {
        None => Seq::empty(),
        Some(scope) => text_field("otel.scope.name"@, scope.name) + text_field(
            "otel.scope.version"@,
            scope.version,
        ) + attribute_fields("scope."@, scope.attributes),
    }
}

/// Fields of a record.
pub open spec fn record_fields_of(record: LogRecordModel) -> Pairs {
    (if record.severity_number == 0 {
        Seq::empty()
    } else {
        seq![("otel.severity_number"@, signed_text(record.severity_number as int))]
    }) + text_field("otel.severity_text"@, record.severity_text) + text_field(
        "otel.trace_id"@,
        hex_text(record.trace_id),
    ) + text_field("otel.span_id"@, hex_text(record.span_id)) + text_field(
        "otel.event_name"@,
        record.event_name,
    ) + attribute_fields("attr."@, record.attributes)
}

/// Value of the first field of a name; empty where there is none.
pub open spec fn first_value(fields: Pairs, name: Seq<char>) -> Seq<char>
    decreases fields.len(),
{
    if fields.len() == 0 {
        Seq::empty()
    } else {
        let front = fields.drop_last();
        if has_field(front, name) {
            first_value(front, name)
        } else if fields.last().0 == name {
            fields.last().1
        } else {
            Seq::empty()
        }
    }
}

/// Whether a field has a name.
pub open spec fn has_field(fields: Pairs, name: Seq<char>) -> bool {
    exists|i: int| 0 <= i < fields.len() && (#[trigger] fields[i]).0 == name
}

/// Hash state after one part and its separator.
pub open spec fn hash_part(state: u64, part: Seq<char>) -> u64 {
    fnv_step(fnv_bytes(state, encode_utf8(part)), 0xff)
}

/// Compression cohort of a service and scope.
pub open spec fn cohort_hash(
    service: Seq<char>,
    scope_name: Seq<char>,
    scope_version: Seq<char>,
) -> u64 {
    hash_part(hash_part(hash_part(FNV_OFFSET, service), scope_name), scope_version)
}

/// Compression cohort of the records of a scope.
pub open spec fn scope_cohort(resource_fields: Pairs, scope: Option<ScopeModel>) -> u64 {
    cohort_hash(
        first_value(resource_fields, "service.name"@),
        match scope {
            Some(scope) => scope.name,
            None => Seq::empty(),
        },
        match scope {
            Some(scope) => scope.version,
            None => Seq::empty(),
        },
    )
}

/// The event of a record.
pub open spec fn record_event(
    record: LogRecordModel,
    resource_fields: Pairs,
    scope: Option<ScopeModel>,
) -> EventModel {
    EventModel {
        timestamp: if record.time < record.observed {
            record.observed
        } else {
            record.time
        },
        message: top_text(record.body),
        fields: resource_fields + scope_fields_of(scope) + record_fields_of(record),
        cohort: scope_cohort(resource_fields, scope),
    }
}

/// Events of encoded records.
pub open spec fn records_events(
    records: Seq<Seq<u8>>,
    resource_fields: Pairs,
    scope: Option<ScopeModel>,
) -> Seq<EventModel>
    decreases records.len(),
{
    if records.len() == 0 {
        Seq::empty()
    } else {
        let front = records_events(records.drop_last(), resource_fields, scope);
        match decoded_log_record(records.last()) {
            Some(record) => front.push(record_event(record, resource_fields, scope)),
            None => front,
        }
    }
}

/// Events of encoded scopes.
pub open spec fn scopes_events(scopes: Seq<Seq<u8>>, resource_fields: Pairs) -> Seq<EventModel>
    decreases scopes.len(),
{
    if scopes.len() == 0 {
        Seq::empty()
    } else {
        let front = scopes_events(scopes.drop_last(), resource_fields);
        match decoded_scope_logs(scopes.last()) {
            Some((scope, records)) => front + records_events(records, resource_fields, scope),
            None => front,
        }
    }
}

/// Events of encoded resources.
pub open spec fn resources_events(resources: Seq<Seq<u8>>) -> Seq<EventModel>
    decreases resources.len(),
{
    if resources.len() == 0 {
        Seq::empty()
    } else {
        let front = resources_events(resources.drop_last());
        match decoded_resource_logs(resources.last()) {
            Some((attributes, scopes)) => front + scopes_events(
                scopes,
                resource_fields_of(known_attributes(attributes)),
            ),
            None => front,
        }
    }
}

/// The events of an export request.
pub open spec fn export_events(payload: Seq<u8>) -> Result<Seq<EventModel>, LogDbFault> {
    match decoded_export(payload) {
        Err(text) => Err(LogDbFault::InvalidOtlpPayload(text)),
        Ok(resources) => Ok(resources_events(resources)),
    }
}

fn append_fields(fields: &mut Vec<MetadataField>, more: Vec<MetadataField>)
    ensures
        fields_view(final(fields)@) == fields_view(old(fields)@) + fields_view(more@),
{
    let ghost before = fields@;
    let ghost added = more@;
    let mut more = more;
    fields.append(&mut more);
    proof {
        assert(fields_view(fields@) =~= fields_view(before) + fields_view(added));
    }
}

fn push_field(fields: &mut Vec<MetadataField>, name: &str, text: String)
    ensures
        fields_view(final(fields)@) == fields_view(old(fields)@).push((name@, text@)),
{
    let ghost before = fields@;
    let field = MetadataField::new(name.to_owned(), text);
    fields.push(field);
    proof {
        assert(fields_view(fields@) =~= fields_view(before).push((name@, text@)));
    }
}

fn push_text_field(fields: &mut Vec<MetadataField>, name: &str, text: String)
    ensures
        fields_view(final(fields)@) == fields_view(old(fields)@) + text_field(name@, text@),
{
    let ghost before = fields_view(fields@);
    if text.as_str().is_empty() {
        proof {
            assert(before + text_field(name@, text@) =~= before);
        }
    } else {
        let ghost content = text@;
        push_field(fields, name, text);
        proof {
            assert(fields_view(fields@) =~= before + text_field(name@, content));
        }
    }
}

/// Fields of attributes with a prefix.
fn prefixed_fields(prefix: &str, attributes: &Vec<OtlpAttribute>) -> (fields: Vec<MetadataField>)
    ensures
        fields_view(fields@) == attribute_fields(prefix@, attributes_view(attributes@)),
{
    let ghost list = attributes_view(attributes@);
    let mut fields: Vec<MetadataField> = Vec::new();
    let mut index: usize = 0;
    proof {
        assert(fields_view(fields@) =~= attribute_fields(prefix@, list.subrange(0, 0)));
    }
    while index < attributes.len()
        invariant
            index <= attributes@.len(),
            list == attributes_view(attributes@),
            fields_view(fields@) == attribute_fields(prefix@, list.subrange(0, index as int)),
        decreases attributes@.len() - index,
    {
        proof {
            let part = list.subrange(0, index + 1);
            assert(part.drop_last() =~= list.subrange(0, index as int));
            assert(part.last() == attributes@[index as int]@);
        }
        if !attributes[index].key.as_str().is_empty() {
            let name = prefix.to_owned().concat(&attributes[index].key);
            push_field(
                &mut fields,
                &name,
                any_value_text(&attributes[index].value, MAX_VALUE_DEPTH),
            );
        }
        index = index + 1;
    }
    proof {
        assert(list.subrange(0, index as int) =~= list);
    }
    fields
}

/// Fields of a resource.
fn resource_fields(list: &Vec<OtlpAttribute>) -> (fields: Vec<MetadataField>)
    ensures
        fields_view(fields@) == resource_fields_of(attributes_view(list@)),
{
    let ghost models = attributes_view(list@);
    let mut fields = prefixed_fields("resource.", list);
    let ghost base = fields_view(fields@);
    let mut index: usize = 0;
    proof {
        assert(base + service_fields(models.subrange(0, 0)) =~= base);
    }
    while index < list.len()
        invariant
            index <= list@.len(),
            models == attributes_view(list@),
            fields_view(fields@) == base + service_fields(models.subrange(0, index as int)),
        decreases list@.len() - index,
    {
        proof {
            let part = models.subrange(0, index + 1);
            assert(part.drop_last() =~= models.subrange(0, index as int));
            assert(part.last() == list@[index as int]@);
            let early = service_fields(models.subrange(0, index as int));
            let item = ("service.name"@, top_text(list@[index as int]@.value));
            assert((base + early).push(item) =~= base + early.push(item));
        }
        if same_text(&list[index].key, "service.name") {
            push_field(
                &mut fields,
                "service.name",
                any_value_text(&list[index].value, MAX_VALUE_DEPTH),
            );
        }
        index = index + 1;
    }
    proof {
        assert(models.subrange(0, index as int) =~= models);
    }
    fields
}

/// Fields of a scope.
fn scope_fields(scope: &Option<OtlpScope>) -> (fields: Vec<MetadataField>)
    ensures
        fields_view(fields@) == scope_fields_of(scope_option(*scope)),
{
    let mut fields: Vec<MetadataField> = Vec::new();
    proof {
        assert(fields_view(fields@) =~= Pairs::empty());
    }
    match scope {
        None => {},
        Some(scope) => {
            push_text_field(&mut fields, "otel.scope.name", scope.name.clone());
            push_text_field(&mut fields, "otel.scope.version", scope.version.clone());
            append_fields(&mut fields, prefixed_fields("scope.", &scope.attributes));
            proof {
                assert(fields_view(fields@) =~= scope_fields_of(Some(scope@)));
            }
        },
    }
    fields
}

/// Fields of a record.
fn record_fields(record: &OtlpRecord) -> (fields: Vec<MetadataField>)
    ensures
        fields_view(fields@) == record_fields_of(record@),
{
    let mut fields: Vec<MetadataField> = Vec::new();
    if record.severity_number != 0 {
        push_field(
            &mut fields,
            "otel.severity_number",
            signed_string(record.severity_number as i64),
        );
    }
    push_text_field(&mut fields, "otel.severity_text", record.severity_text.clone());
    push_text_field(&mut fields, "otel.trace_id", hex(&record.trace_id));
    push_text_field(&mut fields, "otel.span_id", hex(&record.span_id));
    push_text_field(&mut fields, "otel.event_name", record.event_name.clone());
    append_fields(&mut fields, prefixed_fields("attr.", &record.attributes));
    proof {
        assert(fields_view(fields@) =~= record_fields_of(record@));
    }
    fields
}

/// Value of the first field of a name; empty where there is none.
fn find_field(fields: &Vec<MetadataField>, name: &str) -> (value: String)
    ensures
        value@ == first_value(fields_view(fields@), name@),
{
    let ghost pairs = fields_view(fields@);
    let mut index: usize = 0;
    while index < fields.len()
        invariant
            index <= fields@.len(),
            pairs == fields_view(fields@),
            !has_field(pairs.subrange(0, index as int), name@),
        decreases fields@.len() - index,
    {
        proof {
            assert(pairs[index as int] == (fields@[index as int].key@, fields@[index as int].value@));
        }
        if same_text(&fields[index].key, name) {
            let value = fields[index].value.clone();
            proof {
                lemma_first_value(pairs, name@, index as int, pairs.len() as int);
                assert(pairs.subrange(0, pairs.len() as int) =~= pairs);
            }
            return value;
        }
        proof {
            let part = pairs.subrange(0, index + 1);
            assert forall|i: int| 0 <= i < part.len() implies (#[trigger] part[i]).0 != name@ by {
                if i < index {
                    assert(pairs.subrange(0, index as int)[i] == part[i]);
                }
            }
        }
        index = index + 1;
    }
    let none = String::new();
    proof {
        assert(pairs.subrange(0, index as int) =~= pairs);
        lemma_no_value(pairs, name@);
        assert(none@ =~= Seq::<char>::empty());
    }
    none
}

proof fn lemma_no_value(fields: Pairs, name: Seq<char>)
    requires
        !has_field(fields, name),
    ensures
        first_value(fields, name) == Seq::<char>::empty(),
{
    if fields.len() > 0 {
        let front = fields.drop_last();
        assert(fields.last() == fields[fields.len() - 1]);
        assert(!has_field(front, name)) by {
            assert forall|i: int| 0 <= i < front.len() implies (#[trigger] front[i]).0 != name by {
                assert(front[i] == fields[i]);
            }
        }
    }
}

proof fn lemma_first_value(fields: Pairs, name: Seq<char>, at: int, n: int)
    requires
        0 <= at < n <= fields.len(),
        fields[at].0 == name,
        !has_field(fields.subrange(0, at), name),
    ensures
        first_value(fields.subrange(0, n), name) == fields[at].1,
    decreases n,
{
    let part = fields.subrange(0, n);
    let front = part.drop_last();
    assert(front =~= fields.subrange(0, n - 1));
    if n - 1 == at {
        assert(part.last() == fields[at]);
    } else {
        assert(front[at] == fields[at]);
        assert(has_field(front, name));
        lemma_first_value(fields, name, at, n - 1);
    }
}

/// Hashes one part and its separator.
fn hash_text(state: u64, part: &str) -> (next: u64)
    ensures
        next == hash_part(state, part@),
{
    fnv_push(fnv_extend(state, part.as_bytes()), 0xff)
}

/// Compression cohort of the records of a scope.
fn compression_cohort(fields: &Vec<MetadataField>, scope: &Option<OtlpScope>) -> (cohort:
    CompressionCohortId)
    ensures
        cohort.0 == scope_cohort(fields_view(fields@), scope_option(*scope)),
{
    let service = find_field(fields, "service.name");
    let empty = String::new();
    proof {
        assert(empty@ =~= Seq::<char>::empty());
    }
    let state: u64 = hash_text(FNV_OFFSET, &service);
    match scope {
        Some(scope) => CompressionCohortId(
            hash_text(hash_text(state, &scope.name), &scope.version),
        ),
        None => CompressionCohortId(hash_text(hash_text(state, &empty), &empty)),
    }
}

/// The event of a record whose scope has this cohort.
fn event_in_cohort(
    record: &OtlpRecord,
    resource: &Vec<MetadataField>,
    scope: &Option<OtlpScope>,
    cohort: CompressionCohortId,
) -> (event: OtlpLogEvent)
    requires
        cohort.0 == scope_cohort(fields_view(resource@), scope_option(*scope)),
    ensures
        event@ == record_event(record@, fields_view(resource@), scope_option(*scope)),
{
    let mut fields = clone_fields(resource);
    append_fields(&mut fields, scope_fields(scope));
    append_fields(&mut fields, record_fields(record));
    let timestamp: u64 = if record.time_unix_nano < record.observed_time_unix_nano {
        record.observed_time_unix_nano
    } else {
        record.time_unix_nano
    };
    OtlpLogEvent {
        timestamp_unix_nanos: timestamp,
        message: any_value_text(&record.body, MAX_VALUE_DEPTH),
        fields,
        compression_cohort: cohort,
    }
}

/// The event of a record with the fields of its resource and its scope.
pub fn record_event_of(
    record: &OtlpRecord,
    resource: &Vec<MetadataField>,
    scope: &Option<OtlpScope>,
) -> (event: OtlpLogEvent)
    ensures
        event@ == record_event(record@, fields_view(resource@), scope_option(*scope)),
{
    event_in_cohort(record, resource, scope, compression_cohort(resource, scope))
}

/// Decodes the records of a scope.
fn decode_records(
    records: &Vec<Vec<u8>>,
    resource: &Vec<MetadataField>,
    scope: &Option<OtlpScope>,
) -> (events: Vec<OtlpLogEvent>)
    ensures
        events_view(events@) == records_events(
            bytes_list(records@),
            fields_view(resource@),
            scope_option(*scope),
        ),
{
    let ghost list = bytes_list(records@);
    let ghost resource_pairs = fields_view(resource@);
    let ghost scope_model = scope_option(*scope);
    let cohort = compression_cohort(resource, scope);
    let mut events: Vec<OtlpLogEvent> = Vec::new();
    let mut index: usize = 0;
    proof {
        assert(events_view(events@) =~= records_events(
            list.subrange(0, 0),
            resource_pairs,
            scope_model,
        ));
    }
    while index < records.len()
        invariant
            index <= records@.len(),
            list == bytes_list(records@),
            resource_pairs == fields_view(resource@),
            scope_model == scope_option(*scope),
            cohort.0 == scope_cohort(resource_pairs, scope_model),
            events_view(events@) == records_events(
                list.subrange(0, index as int),
                resource_pairs,
                scope_model,
            ),
        decreases records@.len() - index,
    {
        proof {
            let part = list.subrange(0, index + 1);
            assert(part.drop_last() =~= list.subrange(0, index as int));
            assert(part.last() == records@[index as int]@);
        }
        match log_record_parts(&records[index]) {
            None => {},
            Some(record) => {
                let event = event_in_cohort(&record, resource, scope, cohort);
                proof {
                    assert(events_view(events@.push(event)) =~= events_view(events@).push(event@));
                }
                events.push(event);
            },
        }
        index = index + 1;
    }
    proof {
        assert(list.subrange(0, index as int) =~= list);
    }
    events
}

fn append_events(events: &mut Vec<OtlpLogEvent>, more: Vec<OtlpLogEvent>)
    ensures
        events_view(final(events)@) == events_view(old(events)@) + events_view(more@),
{
    let ghost before = events@;
    let ghost added = more@;
    let mut more = more;
    events.append(&mut more);
    proof {
        assert(events_view(events@) =~= events_view(before) + events_view(added));
    }
}

/// Decodes the scopes of a resource.
fn decode_scope_logs(scopes: &Vec<Vec<u8>>, resource: &Vec<MetadataField>) -> (events: Vec<
    OtlpLogEvent,
>)
    ensures
        events_view(events@) == scopes_events(bytes_list(scopes@), fields_view(resource@)),
{
    let ghost list = bytes_list(scopes@);
    let mut events: Vec<OtlpLogEvent> = Vec::new();
    let mut index: usize = 0;
    proof {
        assert(events_view(events@) =~= scopes_events(
            list.subrange(0, 0),
            fields_view(resource@),
        ));
    }
    while index < scopes.len()
        invariant
            index <= scopes@.len(),
            list == bytes_list(scopes@),
            events_view(events@) == scopes_events(
                list.subrange(0, index as int),
                fields_view(resource@),
            ),
        decreases scopes@.len() - index,
    {
        proof {
            let part = list.subrange(0, index + 1);
            assert(part.drop_last() =~= list.subrange(0, index as int));
            assert(part.last() == scopes@[index as int]@);
        }
        match scope_logs_parts(&scopes[index]) {
            None => {},
            Some((scope, records)) => {
                append_events(&mut events, decode_records(&records, resource, &scope));
            },
        }
        index = index + 1;
    }
    proof {
        assert(list.subrange(0, index as int) =~= list);
    }
    events
}

/// Decodes the resources of a request.
fn decode_resource_logs(resources: &Vec<Vec<u8>>) -> (events: Vec<OtlpLogEvent>)
    ensures
        events_view(events@) == resources_events(bytes_list(resources@)),
{
    let ghost list = bytes_list(resources@);
    let mut events: Vec<OtlpLogEvent> = Vec::new();
    let mut index: usize = 0;
    proof {
        assert(events_view(events@) =~= resources_events(list.subrange(0, 0)));
    }
    while index < resources.len()
        invariant
            index <= resources@.len(),
            list == bytes_list(resources@),
            events_view(events@) == resources_events(list.subrange(0, index as int)),
        decreases resources@.len() - index,
    {
        proof {
            let part = list.subrange(0, index + 1);
            assert(part.drop_last() =~= list.subrange(0, index as int));
            assert(part.last() == resources@[index as int]@);
        }
        match resource_logs_parts(&resources[index]) {
            None => {},
            Some((attributes, scopes)) => {
                let known: Vec<OtlpAttribute> = match attributes {
                    Some(list) => list,
                    None => Vec::new(),
                };
                proof {
                    assert(attributes_view(known@) =~= known_attributes(
                        attributes_option(attributes),
                    ));
                }
                let fields = resource_fields(&known);
                append_events(&mut events, decode_scope_logs(&scopes, &fields));
            },
        }
        index = index + 1;
    }
    proof {
        assert(list.subrange(0, index as int) =~= list);
    }
    events
}

/// The records of events at contiguous offsets.
pub open spec fn durable_events(
    events: Seq<EventModel>,
    shard: ShardId,
    partition: TopicPartition,
    first_offset: LogicalOffset,
) -> Result<Seq<RecordModel>, LogDbError> {
    if events.len() > 0 && first_offset.0 + (events.len() - 1) > u64::MAX {
        Err(LogDbError::OffsetExhausted(partition))
    } else {
        Ok(
            Seq::new(
                events.len(),
                |i: int|
                    durable(
                        events[i],
                        shard,
                        partition,
                        LogicalOffset((first_offset.0 + i) as u64),
                    ),
            ),
        )
    }
}

/// Assigns events contiguous offsets.
pub fn assign_offsets(
    events: &Vec<OtlpLogEvent>,
    stream_shard_id: ShardId,
    topic_partition: TopicPartition,
    first_offset: LogicalOffset,
) -> (result: Result<Vec<DurableLogRecord>, LogDbError>)
    ensures
        match (
            durable_events(
                events_view(events@),
                stream_shard_id,
                topic_partition,
                first_offset,
            ),
            result,
        ) {
            (Ok(models), Ok(records)) => records_view(records@) == models,
            (Err(error), Err(reported)) => error == reported,
            _ => false,
        },
{
    let ghost models = events_view(events@);
    let mut records: Vec<DurableLogRecord> = Vec::new();
    let mut index: usize = 0;
    while index < events.len()
        invariant
            index <= events@.len(),
            models == events_view(events@),
            index > 0 ==> first_offset.0 + (index - 1) <= u64::MAX,
            records@.len() == index,
            forall|i: int|
                0 <= i < index ==> (#[trigger] records@[i])@ == durable(
                    models[i],
                    stream_shard_id,
                    topic_partition,
                    LogicalOffset((first_offset.0 + i) as u64),
                ),
        decreases events@.len() - index,
    {
        let offset = match batch_offset(topic_partition, first_offset, index) {
            Ok(offset) => offset,
            Err(error) => return Err(error),
        };
        proof {
            assert(models[index as int] == events@[index as int]@);
        }
        records.push(events[index].clone().into_durable(stream_shard_id, topic_partition, offset));
        index = index + 1;
    }
    proof {
        let wanted = durable_events(models, stream_shard_id, topic_partition, first_offset)->Ok_0;
        assert(records_view(records@) =~= wanted);
    }
    Ok(records)
}

/// Decoder for binary OTLP `ExportLogsServiceRequest` payloads.
#[derive(Debug, Clone, Copy)]
pub struct OtlpLogDecoder;

impl OtlpLogDecoder {
    /// Decodes one binary OTLP Logs export request into normalized log events.
    pub fn decode(&self, payload: &[u8]) -> (result: Result<Vec<OtlpLogEvent>, LogDbError>)
        ensures
            match (export_events(payload@), result) {
                (Ok(models), Ok(events)) => events_view(events@) == models,
                (Err(fault), Err(error)) => error@ == fault,
                _ => false,
            },
    {
        match export_parts(payload) {
            Err(text) => Err(LogDbError::InvalidOtlpPayload(text)),
            Ok(resources) => Ok(decode_resource_logs(&resources)),
        }
    }

    /// Decodes an OTLP export and assigns its events contiguous offsets.
    pub fn decode_durable(
        &self,
        stream_shard_id: ShardId,
        topic_partition: TopicPartition,
        first_offset: LogicalOffset,
        payload: &[u8],
    ) -> (result: Result<Vec<DurableLogRecord>, LogDbError>)
        ensures
            match export_events(payload@) {
                Err(fault) => result matches Err(error) && error@ == fault,
                Ok(events) => match (
                    durable_events(events, stream_shard_id, topic_partition, first_offset),
                    result,
                ) {
                    (Ok(models), Ok(records)) => records_view(records@) == models,
                    (Err(error), Err(reported)) => error == reported,
                    _ => false,
                },
            },
    {
        let events = match self.decode(payload) {
            Ok(events) => events,
            Err(error) => return Err(error),
        };
        assign_offsets(&events, stream_shard_id, topic_partition, first_offset)
    }
}

} // verus!
