use shard_log::labels::LabelMap;
use shard_log::metric_chunk::{
    assemble_chunk, check_sidecars, decode_metric_chunk, encode_metric_chunk, sort_key, ChunkOwner,
    ChunkPoint, TelemetrySignal,
};
use shard_log::metric_codec::{
    decode_metric_values, encode_metric_values, ChunkValue, MetricFault, NumberValue,
    TelemetryError,
};
use shard_log::metric_point::{
    is_repeat, prometheus_string_labels, DurableMetricPoint, MetricIdentity, MetricKind,
    MetricValue, TelemetryAttribute, TelemetryValue,
};
use shard_log::metric_publish::describe_chunk;
use shard_log::metric_query::{metric_query_matches, MetricQuery};
use shard_log::metric_stripe::{MetricApplyOutcome, MetricIngestProtocol, MetricStripe};
use shard_log::metric_timestamps::{
    decode_timestamp_delta_of_delta, encode_timestamp_delta_of_delta,
};
use shard_log::{LogicalPartitionId, ShardId, TopicId, TopicPartition};

const METRICS_TOPIC: TopicId = TopicId(2);

fn text_attribute(key: &str, value: &str) -> TelemetryAttribute {
    TelemetryAttribute {
        key: key.to_owned(),
        value: Some(TelemetryValue::Text(value.to_owned())),
        canonical: format!("{key}={value}").into_bytes(),
    }
}

fn integer_attribute(key: &str, value: i64) -> TelemetryAttribute {
    TelemetryAttribute {
        key: key.to_owned(),
        value: Some(TelemetryValue::Integer(value)),
        canonical: format!("{key}={value}").into_bytes(),
    }
}

fn identity(kind: MetricKind, attributes: Vec<TelemetryAttribute>) -> MetricIdentity {
    MetricIdentity {
        tenant: "tenant-a".to_owned(),
        resource_identity: vec![1],
        resource_attributes: Vec::new(),
        scope_identity: vec![2],
        name: "http.server.duration".to_owned(),
        unit: "ms".to_owned(),
        kind,
        kind_bytes: format!("{kind:?}").into_bytes(),
        point_attributes: attributes,
    }
}

fn partition() -> TopicPartition {
    TopicPartition { topic_id: METRICS_TOPIC, partition_id: LogicalPartitionId(11) }
}

fn point(offset: u64, timestamp: u64, value: NumberValue) -> DurableMetricPoint {
    DurableMetricPoint {
        stream_shard_id: ShardId(2),
        signal: TelemetrySignal::Metrics,
        topic_partition: partition(),
        offset,
        series: 77,
        identity: identity(MetricKind::Gauge, vec![text_attribute("service", "api")]),
        description: "request latency".to_owned(),
        metadata: Vec::new(),
        start_time_unix_nanos: 0,
        timestamp_unix_nanos: timestamp,
        flags: 0,
        value: MetricValue::Gauge(value),
        exemplars: Vec::new(),
        estimated_head_bytes: 100,
    }
}

fn sum_point(offset: u64, timestamp: u64, value: i64) -> DurableMetricPoint {
    let mut sample = point(offset, timestamp, NumberValue::Integer(value));
    sample.identity = identity(
        MetricKind::Sum { temporality: 1, monotonic: true },
        vec![text_attribute("service", "api")],
    );
    sample.value = MetricValue::Sum(NumberValue::Integer(value));
    sample
}

fn everything() -> MetricQuery {
    MetricQuery {
        tenant: "tenant-a".to_owned(),
        series: Some(77),
        name: None,
        exact_labels: Vec::new(),
        start_time_unix_nanos: None,
        end_time_unix_nanos: None,
        limit: usize::MAX,
    }
}

fn chunk_point(offset: u64, timestamp: u64, bits: u64) -> ChunkPoint {
    ChunkPoint {
        signal: TelemetrySignal::Metrics,
        owner: ChunkOwner { stream_shard_id: ShardId(2), topic_partition: partition(), series: 77 },
        offset,
        timestamp_unix_nanos: timestamp,
        value: ChunkValue::Gauge(NumberValue::DoubleBits(bits)),
    }
}

#[test]
fn series_fingerprint_is_attribute_order_independent() {
    let second = identity(
        MetricKind::Gauge,
        vec![integer_attribute("z", 1), integer_attribute("a", 2)],
    );
    let third = identity(
        MetricKind::Gauge,
        vec![integer_attribute("a", 2), integer_attribute("z", 1)],
    );
    assert_eq!(second.canonical_bytes(), third.canonical_bytes());
    let other = identity(MetricKind::Gauge, vec![integer_attribute("a", 2)]);
    assert_ne!(second.canonical_bytes(), other.canonical_bytes());
}

#[test]
fn metric_chunk_round_trips_nan_payloads_and_out_of_order_input() {
    let points = vec![
        chunk_point(2, 200, 0x7ff8_0000_0000_0042),
        chunk_point(1, 100, (-0.0f64).to_bits()),
    ];
    let encoded = encode_metric_chunk(&points, b"identity").unwrap();
    let decoded = decode_metric_chunk(&encoded).unwrap();
    assert_eq!(decoded.owner, points[0].owner);
    assert_eq!(decoded.offsets, vec![1, 2]);
    assert_eq!(decoded.timestamps, vec![100, 200]);
    assert_eq!(
        decoded.values,
        vec![
            ChunkValue::Gauge(NumberValue::DoubleBits((-0.0f64).to_bits())),
            ChunkValue::Gauge(NumberValue::DoubleBits(0x7ff8_0000_0000_0042)),
        ]
    );
    assert_eq!(decoded.sidecars, b"identity".to_vec());
    assert!(check_sidecars(&decoded, 2, 77).is_ok());
    assert!(check_sidecars(&decoded, 1, 77).is_err());
}

#[test]
fn corrupt_chunks_are_refused() {
    let encoded = encode_metric_chunk(&vec![chunk_point(1, 1, 0)], b"x").unwrap();
    for end in 0..encoded.len() {
        assert!(decode_metric_chunk(&encoded[..end]).is_err());
    }
    let mut changed = encoded.clone();
    changed[0] ^= 1;
    assert!(decode_metric_chunk(&changed).is_err());
    assert_eq!(
        encode_metric_chunk(&Vec::new(), b""),
        Err(TelemetryError::InvalidBlockEncoding(MetricFault::EmptyChunk))
    );
}

#[test]
fn remote_write_rejects_conflicts_while_otlp_uses_offset() {
    let mut stripe = MetricStripe::new(1024 * 1024).unwrap();
    let first = point(1, 100, NumberValue::Integer(1));
    stripe.apply(first, MetricIngestProtocol::RemoteWrite, 0).unwrap();
    let conflicting = || point(2, 100, NumberValue::Integer(2));
    assert!(matches!(
        stripe.apply(conflicting(), MetricIngestProtocol::RemoteWrite, 0),
        Err(TelemetryError::MetricSampleConflict { .. })
    ));
    assert_eq!(
        stripe.apply(conflicting(), MetricIngestProtocol::Otlp, 0).unwrap(),
        MetricApplyOutcome::Replaced
    );
}

#[test]
fn sealed_metric_conflicts_preserve_remote_write_and_offset_semantics() {
    let mut stripe = MetricStripe::new(1024 * 1024).unwrap();
    stripe.limits.chunk_points = 1;
    assert_eq!(
        stripe
            .apply(point(1, 100, NumberValue::Integer(1)), MetricIngestProtocol::RemoteWrite, 0)
            .unwrap(),
        MetricApplyOutcome::Inserted
    );
    assert!(stripe.series[0].points.is_empty());
    assert_eq!(
        stripe
            .apply(point(2, 100, NumberValue::Integer(1)), MetricIngestProtocol::RemoteWrite, 0)
            .unwrap(),
        MetricApplyOutcome::Duplicate
    );
    assert!(matches!(
        stripe.apply(point(2, 100, NumberValue::Integer(2)), MetricIngestProtocol::RemoteWrite, 0),
        Err(TelemetryError::MetricSampleConflict { .. })
    ));
    assert_eq!(
        stripe
            .apply(point(0, 100, NumberValue::Integer(2)), MetricIngestProtocol::Otlp, 0)
            .unwrap(),
        MetricApplyOutcome::Obsolete
    );
    assert_eq!(
        stripe
            .apply(point(2, 100, NumberValue::Integer(2)), MetricIngestProtocol::Otlp, 0)
            .unwrap(),
        MetricApplyOutcome::Replaced
    );
    let queried = stripe.query(&everything());
    assert_eq!(queried, vec![&point(2, 100, NumberValue::Integer(2))]);
}

#[test]
fn timestamp_delta_of_delta_round_trips_wide_changes() {
    let timestamps = [1, 2, 1_000_000_000_000, 1_000_000_000_001];
    let encoded = encode_timestamp_delta_of_delta(&timestamps).unwrap();
    assert_eq!(
        decode_timestamp_delta_of_delta(&encoded, timestamps.len()).unwrap(),
        timestamps
    );
}

#[test]
fn delta_accumulator_restarts_before_accepting_the_next_point() {
    let mut stripe = MetricStripe::new(1024 * 1024).unwrap();
    stripe.apply(sum_point(1, 100, 5), MetricIngestProtocol::Otlp, 0).unwrap();
    let checkpoint = stripe.accumulator_checkpoints();

    let mut recovered = MetricStripe::new(1024 * 1024).unwrap();
    recovered.restore_accumulator_checkpoints(&checkpoint, METRICS_TOPIC).unwrap();
    recovered.apply(sum_point(2, 200, 7), MetricIngestProtocol::Otlp, 0).unwrap();
    let checkpoints = recovered.accumulator_checkpoints();
    assert_eq!(checkpoints.len(), 1);
    assert_eq!(checkpoints[0].cumulative, Some(NumberValue::Integer(12)));
    assert_eq!(checkpoints[0].reset_generation, 0);
}

#[test]
fn stripe_limits_and_signals_are_enforced() {
    assert!(matches!(MetricStripe::new(0), Err(TelemetryError::ZeroHeadBudget)));
    let mut stripe = MetricStripe::new(150).unwrap();
    let mut log = point(1, 1, NumberValue::Integer(1));
    log.signal = TelemetrySignal::Logs;
    assert_eq!(
        stripe.apply(log, MetricIngestProtocol::Otlp, 0),
        Err(TelemetryError::InvalidBlockEncoding(MetricFault::WrongSignal))
    );
    let mut large = point(1, 1, NumberValue::Integer(1));
    large.estimated_head_bytes = 151;
    assert_eq!(
        stripe.apply(large, MetricIngestProtocol::Otlp, 0),
        Err(TelemetryError::RecordTooLarge)
    );
    assert_eq!(
        stripe.apply(point(1, 1, NumberValue::Integer(1)), MetricIngestProtocol::Otlp, 0),
        Ok(MetricApplyOutcome::Inserted)
    );
    let mut other = point(2, 2, NumberValue::Integer(1));
    other.identity.name = "another".to_owned();
    assert_eq!(
        stripe.apply(other, MetricIngestProtocol::Otlp, 0),
        Err(TelemetryError::InvalidBlockEncoding(MetricFault::FingerprintCollision))
    );
}

#[test]
fn a_query_gives_points_in_time_order_up_to_its_limit() {
    let mut stripe = MetricStripe::new(1024 * 1024).unwrap();
    for (offset, timestamp) in [(1, 100), (2, 300), (3, 200)] {
        stripe
            .apply(
                point(offset, timestamp, NumberValue::Integer(offset as i64)),
                MetricIngestProtocol::Otlp,
                0,
            )
            .unwrap();
    }
    let mut query = everything();
    let times: Vec<u64> =
        stripe.query(&query).iter().map(|found| found.timestamp_unix_nanos).collect();
    assert_eq!(times, vec![100, 200, 300]);
    query.limit = 2;
    assert_eq!(stripe.query(&query).len(), 2);
    query.limit = 0;
    assert!(stripe.query(&query).is_empty());
    query.limit = usize::MAX;
    query.start_time_unix_nanos = Some(200);
    query.end_time_unix_nanos = Some(200);
    assert_eq!(stripe.query(&query).len(), 1);
    query.exact_labels.push(("service".to_owned(), "api".to_owned()));
    assert!(metric_query_matches(&query, &point(3, 200, NumberValue::Integer(3))));
    query.exact_labels.push(("service".to_owned(), "web".to_owned()));
    assert!(!metric_query_matches(&query, &point(3, 200, NumberValue::Integer(3))));
}

#[test]
fn labels_of_a_series_carry_its_name() {
    let sample = point(1, 1, NumberValue::Integer(1));
    let labels: LabelMap = prometheus_string_labels(&sample.identity);
    assert_eq!(labels.get("service").map(String::as_str), Some("api"));
    assert!(is_repeat(&sample, &point(9, 1, NumberValue::Integer(1))));
    assert!(!is_repeat(&sample, &point(1, 1, NumberValue::Integer(2))));
    assert_eq!(sort_key(1, 2), (1u128 << 64) + 2);
}

#[test]
fn published_chunks_are_released() {
    let mut stripe = MetricStripe::new(1024 * 1024).unwrap();
    stripe
        .apply(point(1, 100, NumberValue::Integer(1)), MetricIngestProtocol::Otlp, 0)
        .unwrap();
    stripe.seal_partition(partition());
    assert_eq!(stripe.chunks(77).len(), 1);
    let ids: Vec<u64> =
        stripe.pending_partition(partition()).iter().map(|chunk| chunk.resident_id).collect();
    assert_eq!(ids.len(), 1);
    stripe.release_published_chunks(&ids);
    assert_eq!(stripe.pending_partition(partition()).len(), 0);
}

#[test]
fn value_lanes_read_back() {
    let values = vec![
        ChunkValue::Gauge(NumberValue::Integer(-3)),
        ChunkValue::Gauge(NumberValue::DoubleBits(1.5f64.to_bits())),
        ChunkValue::Sum(NumberValue::DoubleBits(1.75f64.to_bits())),
        ChunkValue::Summary(vec![1, 2, 3]),
    ];
    let encoded = encode_metric_values(&values).unwrap();
    assert_eq!(decode_metric_values(&encoded, 4).unwrap(), values);
    assert!(decode_metric_values(&encoded, 5).is_err());
    assert!(decode_metric_values(&encoded[..encoded.len() - 1], 4).is_err());
}

#[test]
fn chunks_and_protocols_are_described() {
    let mut stripe = MetricStripe::new(1024 * 1024).unwrap();
    for (offset, timestamp) in [(4, 300), (2, 100), (3, 200)] {
        stripe
            .apply(
                point(offset, timestamp, NumberValue::Integer(1)),
                MetricIngestProtocol::Otlp,
                0,
            )
            .unwrap();
    }
    stripe.seal_partition(partition());
    let chunks = stripe.pending_partition(partition());
    let payload = describe_chunk(chunks[0]).unwrap();
    assert_eq!(payload.signal_identity, 77);
    assert_eq!((payload.first_offset, payload.last_offset, payload.record_count), (2, 4, 3));
    assert_eq!((payload.min_timestamp_unix_nanos, payload.max_timestamp_unix_nanos), (100, 300));
    assert_eq!(MetricIngestProtocol::from_wire(1), Ok(MetricIngestProtocol::Otlp));
    assert_eq!(MetricIngestProtocol::RemoteWrite.to_wire(), 2);
    assert_eq!(MetricIngestProtocol::from_wire(3), Err(TelemetryError::UnknownProtocol));

    assert_eq!(
        stripe.apply(sum_point(5, 400, 5), MetricIngestProtocol::Otlp, 0),
        Err(TelemetryError::InvalidBlockEncoding(MetricFault::FingerprintCollision))
    );
    let mut sum = sum_point(5, 400, 5);
    sum.series = 78;
    stripe.apply(sum, MetricIngestProtocol::Otlp, 0).unwrap();
    let checkpoints = stripe.accumulator_checkpoints_for_partition(partition());
    assert_eq!(
        checkpoints.iter().map(|item| (item.series, item.cumulative)).collect::<Vec<_>>(),
        vec![(77, None), (78, Some(NumberValue::Integer(5)))]
    );
    let other = TopicPartition { topic_id: METRICS_TOPIC, partition_id: LogicalPartitionId(12) };
    assert!(stripe.accumulator_checkpoints_for_partition(other).is_empty());
}

#[test]
fn chunks_are_assembled_from_their_lanes() {
    let points = vec![chunk_point(2, 200, 5), chunk_point(1, 100, 4)];
    let encoded = encode_metric_chunk(&points, b"identity").unwrap();
    let assembled = assemble_chunk(&points, b"offsets", b"sidecars").unwrap();
    assert_eq!(assembled[..4], encoded[..4]);
    let holds = |part: &[u8]| assembled.windows(part.len()).any(|window| window == part);
    assert!(holds(b"offsets"));
    assert!(holds(b"sidecars"));
    assert_eq!(
        assemble_chunk(&Vec::new(), b"offsets", b"sidecars"),
        Err(TelemetryError::InvalidBlockEncoding(MetricFault::EmptyChunk))
    );
    let mut stranger = chunk_point(3, 300, 6);
    stranger.owner.series = 78;
    let mixed = vec![chunk_point(1, 100, 4), stranger];
    assert!(assemble_chunk(&mixed, b"", b"").is_err());
    assert_eq!(assemble_chunk(&mixed, b"", b""), encode_metric_chunk(&mixed, b""));
}

#[test]
fn points_that_are_not_stored_leave_no_trace() {
    let mut stripe = MetricStripe::new(250).unwrap();
    stripe.apply(point(5, 100, NumberValue::Integer(1)), MetricIngestProtocol::Otlp, 0).unwrap();
    stripe.apply(point(6, 101, NumberValue::Integer(2)), MetricIngestProtocol::Otlp, 0).unwrap();
    let before: Vec<(u64, u64)> = stripe
        .query(&everything())
        .iter()
        .map(|found| (found.timestamp_unix_nanos, found.offset))
        .collect();
    assert_eq!(before, vec![(100, 5), (101, 6)]);
    let checkpoints = stripe.accumulator_checkpoints();
    assert_eq!(
        stripe.apply(point(4, 100, NumberValue::Integer(1)), MetricIngestProtocol::Otlp, 0),
        Ok(MetricApplyOutcome::Duplicate)
    );
    assert_eq!(
        stripe.apply(point(4, 100, NumberValue::Integer(9)), MetricIngestProtocol::Otlp, 0),
        Ok(MetricApplyOutcome::Obsolete)
    );
    assert!(matches!(
        stripe.apply(point(9, 100, NumberValue::Integer(9)), MetricIngestProtocol::RemoteWrite, 0),
        Err(TelemetryError::MetricSampleConflict { .. })
    ));
    let after: Vec<(u64, u64)> = stripe
        .query(&everything())
        .iter()
        .map(|found| (found.timestamp_unix_nanos, found.offset))
        .collect();
    assert_eq!(after, before);
    assert_eq!(stripe.accumulator_checkpoints(), checkpoints);
}

#[test]
fn ignored_repeats_do_not_reorder_equal_samples() {
    let other = TopicPartition { topic_id: METRICS_TOPIC, partition_id: LogicalPartitionId(12) };
    let first = || point(1, 100, NumberValue::Integer(1));
    let mut second = point(1, 100, NumberValue::Integer(2));
    second.series = 78;
    second.topic_partition = other;
    second.estimated_head_bytes = 50;
    let mut stripe = MetricStripe::new(200).unwrap();
    stripe.apply(first(), MetricIngestProtocol::Otlp, 0).unwrap();
    stripe.apply(second, MetricIngestProtocol::Otlp, 0).unwrap();
    let mut query = everything();
    query.series = None;
    query.limit = 1;
    let seen = |stripe: &MetricStripe| {
        stripe.query(&query).iter().map(|found| found.series).collect::<Vec<_>>()
    };
    let before = seen(&stripe);
    assert_eq!(before, vec![77]);
    assert_eq!(
        stripe.apply(first(), MetricIngestProtocol::Otlp, 0),
        Ok(MetricApplyOutcome::Duplicate)
    );
    assert_eq!(stripe.chunks.len(), 1);
    assert_eq!(seen(&stripe), before);
}

#[test]
fn samples_beside_a_point_decide_its_outcome() {
    for sealed in [false, true] {
        let mut stripe = MetricStripe::new(1024 * 1024).unwrap();
        stripe.apply(point(5, 100, NumberValue::Integer(1)), MetricIngestProtocol::Otlp, 0).unwrap();
        if sealed {
            stripe.seal_partition(partition());
        }
        for protocol in [MetricIngestProtocol::Otlp, MetricIngestProtocol::RemoteWrite] {
            assert_eq!(
                stripe.apply(point(9, 100, NumberValue::Integer(1)), protocol, 0),
                Ok(MetricApplyOutcome::Duplicate)
            );
        }
        assert_eq!(
            stripe.apply(point(9, 100, NumberValue::Integer(2)), MetricIngestProtocol::RemoteWrite, 0),
            Err(TelemetryError::MetricSampleConflict { series: 77, timestamp_unix_nanos: 100 })
        );
        assert_eq!(
            stripe.apply(point(5, 100, NumberValue::Integer(2)), MetricIngestProtocol::Otlp, 0),
            Ok(MetricApplyOutcome::Obsolete)
        );
        assert_eq!(
            stripe.apply(point(6, 100, NumberValue::Integer(2)), MetricIngestProtocol::Otlp, 0),
            Ok(MetricApplyOutcome::Replaced)
        );
    }
}
