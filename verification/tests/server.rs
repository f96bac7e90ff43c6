use shard_log::native_server::{
    append_reply, dispatch, error_frame, query_reply, store_error_frame, NativeAction,
    NativeServerFault,
};
use shard_log::{
    decode_native_log_batch, encode_native_log_batch, encode_native_query, LabelMap, LokiEntry,
    NativeAppendAck, NativeFrame, NativeOpcode, NativeQuery, NativeQueryDirection,
    NativeServerConfig, NativeStatus, MAX_NATIVE_FRAME_BYTES,
};

fn map(pairs: &[(&str, &str)]) -> LabelMap {
    LabelMap::from_pairs(
        pairs.iter().map(|(key, value)| (key.to_string(), value.to_string())).collect(),
    )
}

fn request(opcode: NativeOpcode, id: u128, payload: Vec<u8>) -> NativeFrame {
    NativeFrame::request(opcode, id, payload).expect("request frame")
}

#[test]
fn tcp_protocol_pings_appends_and_queries_with_request_ids() {
    let config = NativeServerConfig::default();
    let ping = request(NativeOpcode::Ping, 7, b"hello".to_vec());
    let accepted = config.accept_header(&ping.header.encode()).expect("header");
    assert_eq!(accepted, ping.header);
    match dispatch(ping.header, ping.payload) {
        NativeAction::Reply(response) => {
            assert_eq!(response.header.request_id, 7);
            assert_eq!(response.header.status, NativeStatus::Success);
            assert_eq!(response.payload, b"hello");
        }
        _ => panic!("unexpected action"),
    }

    let entry = LokiEntry {
        timestamp_unix_nanos: 100,
        labels: map(&[("app", "api")]),
        line: "native timeout".to_owned(),
        structured_metadata: map(&[("trace", "abc")]),
    };
    let batch = encode_native_log_batch("tenant-a", vec![entry.clone()]).expect("batch");
    let append = request(NativeOpcode::Append, 8, batch.clone());
    match dispatch(append.header, append.payload) {
        NativeAction::Append(payload) => assert_eq!(payload, batch),
        _ => panic!("unexpected action"),
    }
    let ack = NativeAppendAck { partition_id: 3, first_offset: 0, last_offset: 0 };
    let response = append_reply(append.header, ack);
    assert_eq!(response.header.request_id, 8);
    assert_eq!(response.header.status, NativeStatus::Success);
    assert_eq!(NativeAppendAck::decode(&response.payload).expect("ack").first_offset, 0);

    let query = NativeQuery {
        tenant: "tenant-a".to_owned(),
        labels: map(&[("app", "api")]),
        terms: vec!["timeout".to_owned()],
        start_timestamp_unix_nanos: None,
        end_timestamp_unix_nanos: None,
        limit: 10,
        direction: NativeQueryDirection::OldestFirst,
    };
    let frame = request(NativeOpcode::Query, 9, encode_native_query(&query).expect("query"));
    match dispatch(frame.header, frame.payload) {
        NativeAction::Query(asked) => {
            assert_eq!(asked.tenant, "tenant-a");
            assert_eq!(asked.terms, vec!["timeout"]);
        }
        _ => panic!("unexpected action"),
    }
    let response = query_reply(frame.header, "tenant-a", vec![entry.clone()]);
    assert_eq!(response.header.request_id, 9);
    assert_eq!(response.header.status, NativeStatus::Success);
    let results = decode_native_log_batch(&response.payload).expect("results");
    assert_eq!(results.tenant, "tenant-a");
    assert_eq!(results.entries, vec![entry]);
}

#[test]
fn refused_frames_are_answered() {
    let mut ping = request(NativeOpcode::Ping, 1, Vec::new());
    ping.header.status = NativeStatus::Internal;
    match dispatch(ping.header, Vec::new()) {
        NativeAction::Reply(response) => {
            assert_eq!(response.header.status, NativeStatus::BadRequest);
            assert_eq!(
                response.payload,
                b"clients must send request frames with status OK".to_vec()
            );
        }
        _ => panic!("unexpected action"),
    }
    let query = request(NativeOpcode::Query, 2, b"broken".to_vec());
    match dispatch(query.header, query.payload) {
        NativeAction::Reply(response) => {
            assert_eq!(response.header.status, NativeStatus::BadRequest)
        }
        _ => panic!("unexpected action"),
    }
    let long = "x".repeat(10_000);
    assert!(error_frame(query.header, NativeStatus::Internal, &long).payload.len() < 10_000);
    assert_eq!(
        store_error_frame(query.header, false, "m").header.status,
        NativeStatus::Internal
    );
    assert_eq!(
        store_error_frame(query.header, true, "m").header.status,
        NativeStatus::BadRequest
    );
}

#[test]
fn server_limits_are_tested() {
    let mut config = NativeServerConfig::default();
    config.max_frame_bytes = MAX_NATIVE_FRAME_BYTES + 1;
    assert_eq!(config.validate().err(), Some(NativeServerFault::FrameLimit));
    let mut config = NativeServerConfig::default();
    config.max_in_flight_per_connection = 0;
    assert_eq!(config.validate().err(), Some(NativeServerFault::InFlightLimit));
    let mut config = NativeServerConfig::default();
    config.max_frame_bytes = 4;
    let ping = request(NativeOpcode::Ping, 7, b"hello".to_vec());
    assert_eq!(
        config.accept_header(&ping.header.encode()).err(),
        Some(NativeServerFault::FrameOverLimit)
    );
}
