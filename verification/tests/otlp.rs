use opentelemetry_proto::tonic::{
    collector::logs::v1::ExportLogsServiceRequest,
    common::v1::{
        any_value::Value, AnyValue, ArrayValue, InstrumentationScope, KeyValue, KeyValueList,
    },
    logs::v1::{LogRecord, ResourceLogs, ScopeLogs},
    resource::v1::Resource,
};
use prost::Message;
use shard_log::otlp::{record_event_of, OtlpRecord, OtlpScope};
use shard_log::{
    LogDbError, LogicalOffset, LogicalPartitionId, MetadataField, OtlpLogDecoder, ShardId, TopicId,
    TopicPartition,
};

fn string_attribute(key: &str, value: &str) -> KeyValue {
    attribute(key, Value::StringValue(value.into()))
}

fn attribute(key: &str, value: Value) -> KeyValue {
    KeyValue { key: key.into(), value: Some(AnyValue { value: Some(value) }), key_strindex: 0 }
}

fn field(key: &str, value: &str) -> MetadataField {
    MetadataField::new(key.to_owned(), value.to_owned())
}

fn request(record: LogRecord) -> ExportLogsServiceRequest {
    ExportLogsServiceRequest {
        resource_logs: vec![ResourceLogs {
            resource: Some(Resource {
                attributes: vec![string_attribute("service.name", "checkout")],
                dropped_attributes_count: 0,
                entity_refs: Vec::new(),
            }),
            scope_logs: vec![ScopeLogs {
                scope: Some(InstrumentationScope {
                    name: "checkout-api".into(),
                    version: "1.0.0".into(),
                    attributes: Vec::new(),
                    dropped_attributes_count: 0,
                }),
                log_records: vec![record],
                schema_url: String::new(),
            }],
            schema_url: String::new(),
        }],
    }
}

fn record() -> LogRecord {
    LogRecord {
        time_unix_nano: 11,
        observed_time_unix_nano: 12,
        severity_number: 17,
        severity_text: "ERROR".into(),
        body: Some(AnyValue { value: Some(Value::StringValue("payment declined".into())) }),
        attributes: vec![string_attribute("http.status_code", "402")],
        dropped_attributes_count: 0,
        flags: 0,
        trace_id: vec![1, 2],
        span_id: vec![3],
        event_name: String::new(),
    }
}

#[test]
fn decodes_resource_scope_and_record_metadata() {
    let payload = request(record()).encode_to_vec();
    let events = OtlpLogDecoder.decode(&payload).expect("payload decodes");
    assert_eq!(events.len(), 1);
    let event = &events[0];
    assert_eq!(event.timestamp_unix_nanos, 12);
    assert_eq!(event.message, "payment declined");
    assert!(event.fields.contains(&field("service.name", "checkout")));
    assert!(event.fields.contains(&field("resource.service.name", "checkout")));
    assert!(event.fields.contains(&field("otel.scope.name", "checkout-api")));
    assert!(event.fields.contains(&field("attr.http.status_code", "402")));
    assert!(event.fields.contains(&field("otel.trace_id", "0102")));

    let place = TopicPartition { topic_id: TopicId(1), partition_id: LogicalPartitionId(2) };
    let durable = event.clone().into_durable(ShardId(7), place, LogicalOffset(3));
    assert_eq!(durable.record_ref.offset, LogicalOffset(3));

    let durable = OtlpLogDecoder
        .decode_durable(ShardId(7), place, LogicalOffset(3), &payload)
        .expect("durable records decode");
    assert_eq!(durable.len(), 1);
    assert_eq!(durable[0].record_ref.offset, LogicalOffset(3));
}

#[test]
fn rejects_non_protobuf_payloads() {
    let error = OtlpLogDecoder.decode(b"not a protobuf request").expect_err("invalid input");
    assert!(matches!(error, LogDbError::InvalidOtlpPayload(_)));
    let cause = ExportLogsServiceRequest::decode(b"not a protobuf request".as_slice())
        .expect_err("invalid input");
    assert_eq!(error, LogDbError::InvalidOtlpPayload(cause.to_string()));
}

#[test]
fn nested_values_are_rendered() {
    let mut sample = record();
    sample.attributes = vec![
        attribute("count", Value::IntValue(-5)),
        attribute("flag", Value::BoolValue(true)),
        attribute("ratio", Value::DoubleValue(0.5)),
        attribute("raw", Value::BytesValue(vec![0xab, 0x01])),
        attribute(
            "list",
            Value::ArrayValue(ArrayValue {
                values: vec![AnyValue { value: Some(Value::IntValue(1)) }],
            }),
        ),
        attribute(
            "map",
            Value::KvlistValue(KeyValueList { values: vec![string_attribute("a", "b")] }),
        ),
    ];
    let events = OtlpLogDecoder.decode(&request(sample).encode_to_vec()).expect("decodes");
    let fields = &events[0].fields;
    assert!(fields.contains(&field("attr.count", "-5")));
    assert!(fields.contains(&field("attr.flag", "true")));
    assert!(fields.contains(&field("attr.ratio", "0.5")));
    assert!(fields.contains(&field("attr.raw", "ab01")));
    assert_eq!(fields.iter().filter(|item| item.key == "attr.list").count(), 1);
    assert_eq!(fields.iter().filter(|item| item.key == "attr.map").count(), 1);
}

#[test]
fn offsets_of_a_batch_may_run_out() {
    let mut export = request(record());
    export.resource_logs[0].scope_logs[0].log_records.push(record());
    let place = TopicPartition { topic_id: TopicId(1), partition_id: LogicalPartitionId(2) };
    assert_eq!(
        OtlpLogDecoder.decode_durable(
            ShardId(7),
            place,
            LogicalOffset(u64::MAX),
            &export.encode_to_vec()
        ),
        Err(LogDbError::OffsetExhausted(place))
    );
}

#[test]
fn a_record_becomes_an_event_with_the_fields_around_it() {
    let sample = |time: u64, observed: u64| OtlpRecord {
        time_unix_nano: time,
        observed_time_unix_nano: observed,
        severity_number: 0,
        severity_text: "INFO".to_owned(),
        trace_id: vec![1, 2],
        span_id: Vec::new(),
        event_name: String::new(),
        attributes: Vec::new(),
        body: None,
    };
    let resource = vec![field("service.name", "checkout")];
    let scope = Some(OtlpScope {
        name: "checkout-api".to_owned(),
        version: "1.0.0".to_owned(),
        attributes: Vec::new(),
    });
    let event = record_event_of(&sample(11, 12), &resource, &scope);
    assert_eq!(event.timestamp_unix_nanos, 12);
    assert_eq!(event.message, "null");
    assert_eq!(event.fields[0], field("service.name", "checkout"));
    assert!(event.fields.contains(&field("otel.scope.name", "checkout-api")));
    assert!(event.fields.contains(&field("otel.trace_id", "0102")));
    assert_eq!(record_event_of(&sample(13, 12), &resource, &scope).timestamp_unix_nanos, 13);
    let payload = request(record()).encode_to_vec();
    let decoded = OtlpLogDecoder.decode(&payload).expect("payload decodes");
    assert_eq!(event.compression_cohort, decoded[0].compression_cohort);
    let bare = record_event_of(&sample(11, 12), &resource, &None);
    assert_ne!(bare.compression_cohort, event.compression_cohort);
    assert!(!bare.fields.contains(&field("otel.scope.name", "checkout-api")));
}
