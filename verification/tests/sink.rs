use opentelemetry_proto::tonic::{
    collector::logs::v1::ExportLogsServiceRequest,
    common::v1::{any_value::Value, AnyValue},
    logs::v1::{LogRecord, ResourceLogs, ScopeLogs},
};
use prost::Message;
use shard_log::durable_store::SinkCheckpoint;
use shard_log::log_sink::{
    append_events, check_transaction, decode_log_events, index_durable_append,
    record_count_message, recovery_order, validate_append, AppendFault, DurableAppend, SinkApply,
    SinkCheckpoints, SinkFault,
};
use shard_log::{
    encode_native_log_batch, LabelMap, LogDbError, LogQuery, LogStripe, LogicalOffset,
    LogicalPartitionId, LokiEntry, OtlpSinkConfig, ShardId, TopicId, TopicPartition,
};

fn partition(id: u32) -> TopicPartition {
    TopicPartition { topic_id: TopicId(1), partition_id: LogicalPartitionId(id) }
}

fn checkpoint(id: u32, sequence: u64, offset: u64) -> SinkCheckpoint {
    SinkCheckpoint {
        topic_partition: partition(id),
        next_placement_sequence: sequence,
        next_offset: offset,
    }
}

fn payload() -> Vec<u8> {
    ExportLogsServiceRequest {
        resource_logs: vec![ResourceLogs {
            scope_logs: vec![ScopeLogs {
                log_records: vec![LogRecord {
                    time_unix_nano: 1,
                    severity_number: 9,
                    severity_text: "INFO".into(),
                    body: Some(AnyValue {
                        value: Some(Value::StringValue("sink message".into())),
                    }),
                    ..Default::default()
                }],
                ..Default::default()
            }],
            ..Default::default()
        }],
    }
    .encode_to_vec()
}

fn append(payload: Vec<u8>) -> DurableAppend {
    DurableAppend {
        physical_shard_id: ShardId(0),
        topic_partition: partition(0),
        first_offset: LogicalOffset(0),
        record_count: 1,
        payload,
        transient_context: None,
    }
}

fn native() -> Vec<u8> {
    encode_native_log_batch(
        "tenant-a",
        vec![LokiEntry {
            timestamp_unix_nanos: 5,
            labels: LabelMap::new(),
            line: "native message".to_owned(),
            structured_metadata: LabelMap::new(),
        }],
    )
    .expect("native batch")
}

#[test]
fn durable_otlp_sink_commits_its_checkpoint_with_the_index_update() {
    let payload = payload();
    validate_append(&payload, 1).expect("payload validates");
    let mut stripe = LogStripe::new(ShardId(0));
    let mut checkpoints = SinkCheckpoints::new();
    let append = append(payload);
    let expected = checkpoint(0, 1, 0);
    let next = checkpoint(0, 2, 1);
    check_transaction(expected, &vec![append.topic_partition], next).expect("one partition");
    assert_eq!(checkpoints.actual(expected), expected);
    let events = append_events(&append, ShardId(0)).expect("events");
    let terms = vec![vec!["sink".to_owned(), "message".to_owned()]];
    let indexed = index_durable_append(&mut stripe, &append, events, &terms);
    let applied = checkpoints.commit(expected, true, indexed, next).expect("indexed");
    assert!(matches!(applied, SinkApply::Applied));
    assert_eq!(checkpoints.load(partition(0)), Some(next));
    let matches = stripe.query(&LogQuery::new(partition(0)).with_term("message"));
    assert_eq!(matches.len(), 1);
    assert_eq!(matches[0].message, "sink message");
}

#[test]
fn stream_engine_acks_only_after_the_otlp_sink_indexes_the_append() {
    let fault = validate_append(&payload(), 2).expect_err("mismatched record count");
    assert_eq!(fault, AppendFault::RecordCount { decoded: 1, reserved: 2 });
    assert_eq!(record_count_message(1, 2), "log batch contains 1 records, request reserved 2");
    let mut checkpoints = SinkCheckpoints::new();
    let expected = checkpoint(0, 1, 0);
    let next = checkpoint(0, 2, 1);
    let failed = checkpoints.commit(expected, true, Err(LogDbError::CorruptSinkJournal), next);
    assert!(failed.is_err());
    assert_eq!(checkpoints.load(partition(0)), None);
    let conflict = checkpoints.commit(expected, false, Ok(()), next).expect("conflict");
    assert!(matches!(conflict, SinkApply::CheckpointConflict(actual) if actual == expected));
    assert_eq!(checkpoints.load(partition(0)), None);
}

#[test]
fn recovered_transactions_are_taken_in_order() {
    let order = recovery_order(&vec![
        checkpoint(1, 1, 0),
        checkpoint(0, 2, 1),
        checkpoint(0, 1, 0),
        checkpoint(0, 2, 5),
    ]);
    assert_eq!(order, vec![2, 1, 3, 0]);
    let mut checkpoints = SinkCheckpoints::new();
    checkpoints.recover(true, checkpoint(0, 2, 1)).expect("follows");
    assert_eq!(
        checkpoints.recover(false, checkpoint(0, 9, 9)),
        Err(LogDbError::CorruptSinkJournal)
    );
    assert_eq!(checkpoints.load(partition(0)), Some(checkpoint(0, 2, 1)));
    checkpoints.store(checkpoint(0, 3, 2));
    assert_eq!(checkpoints.load(partition(0)), Some(checkpoint(0, 3, 2)));
    assert_eq!(checkpoints.load(partition(1)), None);
}

#[test]
fn transactions_stay_in_one_partition() {
    let fault = check_transaction(checkpoint(0, 1, 0), &Vec::new(), checkpoint(1, 2, 1))
        .expect_err("partitions");
    assert_eq!(fault, SinkFault::CheckpointPartitions);
    assert_eq!(
        fault.message(),
        "expected and next checkpoints refer to different partitions"
    );
    let fault =
        check_transaction(checkpoint(0, 1, 0), &vec![partition(0), partition(1)], checkpoint(0, 2, 1))
            .expect_err("append");
    assert_eq!(fault, SinkFault::AppendPartition);
}

#[test]
fn native_context_takes_the_place_of_the_payload() {
    let mut carried = append(vec![0xff; 3]);
    assert!(append_events(&carried, ShardId(0)).is_err());
    carried.transient_context = Some(native());
    let events = append_events(&carried, ShardId(0)).expect("events");
    assert_eq!(events[0].message, "native message");
    assert_eq!(decode_log_events(&native()).expect("events"), events);
    assert!(matches!(
        append_events(&carried, ShardId(1)),
        Err(LogDbError::WrongStripe { expected: ShardId(1), observed: ShardId(0) })
    ));
    carried.record_count = 2;
    assert!(append_events(&carried, ShardId(0)).is_err());
    assert!(matches!(validate_append(&[0xff; 3], 1), Err(AppendFault::Payload(_))));
    assert!(validate_append(&native(), 1).is_ok());
}

#[test]
fn sink_configurations_are_tested() {
    let mut config = OtlpSinkConfig::default();
    assert!(config.validate().is_ok());
    config.max_journal_bytes = 7;
    assert!(config.validate().is_err());
    config.queue_slots = 0;
    assert!(config.validate().is_err());
}
