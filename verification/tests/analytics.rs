use shard_log::analytics::{
    decode_query, entry_matches, parse_scan_request, scan_entries, scan_request_from,
    SCAN_BATCH_ROWS,
};
use shard_log::{
    AnalyticsColumn, AnalyticsScanRequest, LabelMap, LokiEntry, MetadataField,
    ANALYTICS_SCHEMA_VERSION,
};

fn map(pairs: &[(&str, &str)]) -> LabelMap {
    LabelMap::from_pairs(
        pairs.iter().map(|(key, value)| (key.to_string(), value.to_string())).collect(),
    )
}

fn field(key: &str, value: &str) -> MetadataField {
    MetadataField::new(key.to_owned(), value.to_owned())
}

fn words(line: &str) -> Vec<String> {
    line.split(' ').map(str::to_owned).collect()
}

#[test]
fn scan_query_parses_projection_and_pushdown_constraints() {
    let request = parse_scan_request(
        "tenant-a".to_owned(),
        Some("start_ns=10&end_ns=20&term=error&label.app=api&metadata.code=500&columns=timestamp,message&limit=7"),
    )
    .expect("valid scan");
    assert_eq!(request.tenant, "tenant-a");
    assert_eq!(request.start_timestamp_unix_nanos, Some(10));
    assert_eq!(request.end_timestamp_unix_nanos, Some(20));
    assert_eq!(request.terms[0], "error");
    assert_eq!(request.labels[0], field("app", "api"));
    assert_eq!(request.metadata[0], field("code", "500"));
    assert_eq!(request.projection, vec![AnalyticsColumn::Timestamp, AnalyticsColumn::Message]);
    assert_eq!(request.limit, Some(7));
}

#[test]
fn in_memory_scan_applies_all_storage_constraints() {
    let entries = vec![
        LokiEntry {
            timestamp_unix_nanos: 11,
            labels: map(&[("app", "api")]),
            line: "request completed".to_owned(),
            structured_metadata: map(&[("code", "200")]),
        },
        LokiEntry {
            timestamp_unix_nanos: 12,
            labels: map(&[("app", "api")]),
            line: "request ERROR".to_owned(),
            structured_metadata: map(&[("code", "500")]),
        },
    ];
    let mut request = AnalyticsScanRequest::new("tenant-a".to_owned());
    request.start_timestamp_unix_nanos = Some(10);
    request.end_timestamp_unix_nanos = Some(20);
    request.terms.push("error".to_owned());
    request.labels.push(field("app", "api"));
    request.metadata.push(field("code", "500"));
    let terms = entries.iter().map(|entry| words(&entry.line)).collect::<Vec<_>>();
    let observed = scan_entries(&entries, &terms, &request).expect("scan");
    assert_eq!(observed.len(), 1);
    assert_eq!(observed[0].len(), 1);
    assert_eq!(observed[0][0].message, "request ERROR");
    assert_eq!(observed[0][0].offset, 1);
    assert_eq!(observed[0][0].partition, 0);
    request.end_timestamp_unix_nanos = Some(12);
    assert!(!entry_matches(&entries[1], &terms[1], &request));
}

#[test]
fn batches_are_full_but_the_last() {
    let entries: Vec<LokiEntry> = (0..SCAN_BATCH_ROWS + 2)
        .map(|index| LokiEntry {
            timestamp_unix_nanos: index as i64,
            labels: LabelMap::new(),
            line: "x".to_owned(),
            structured_metadata: LabelMap::new(),
        })
        .collect();
    let terms = vec![Vec::new(); entries.len()];
    let mut request = AnalyticsScanRequest::new("t".to_owned());
    let sizes: Vec<usize> =
        scan_entries(&entries, &terms, &request).expect("scan").iter().map(Vec::len).collect();
    assert_eq!(sizes, vec![SCAN_BATCH_ROWS, 2]);
    request.limit = Some(3);
    assert_eq!(scan_entries(&entries, &terms, &request).expect("scan")[0].len(), 3);
    request.limit = Some(0);
    assert!(scan_entries(&entries, &terms, &request).expect("scan").is_empty());
}

#[test]
fn scan_errors_name_their_cause() {
    for (query, message) in [
        ("start_ns=x", "start_ns is not a u64"),
        ("end_ns=-1", "end_ns is not a u64"),
        ("limit=many", "limit is not a usize"),
        ("columns=tenant&columns=tenant", "columns may be specified only once"),
        ("columns=nope", "unknown analytics column \"nope\""),
        ("columns=tenant,tenant", "analytics projection contains a duplicate column"),
        ("label.=x", "label name must not be empty"),
        ("metadata.=x", "metadata name must not be empty"),
        ("what=x", "unknown analytics parameter \"what\""),
        ("start_ns=5&end_ns=5", "analytics timestamp range must be non-empty"),
    ] {
        let error = parse_scan_request("t".to_owned(), Some(query)).expect_err(query);
        assert_eq!(error.message, message);
    }
    assert_eq!(
        parse_scan_request(String::new(), None).expect_err("tenant").message,
        "analytics tenant must not be empty"
    );
    let mut empty = AnalyticsScanRequest::new("t".to_owned());
    empty.projection.clear();
    assert_eq!(
        empty.validate().expect_err("projection").message,
        "analytics projection must contain at least one column"
    );
}

#[test]
fn forms_are_decoded() {
    assert_eq!(
        decode_query(Some("a=1%202&b=x+y&c")),
        vec![
            ("a".to_owned(), "1 2".to_owned()),
            ("b".to_owned(), "x y".to_owned()),
            ("c".to_owned(), String::new()),
        ]
    );
    let request = scan_request_from("t".to_owned(), &vec![("term".to_owned(), "x".to_owned())]);
    assert_eq!(request.expect("request").terms, vec!["x".to_owned()]);
}

#[test]
fn columns_have_stable_names() {
    for column in AnalyticsColumn::all() {
        assert_eq!(AnalyticsColumn::parse(column.name()), Some(column));
    }
    assert_eq!(AnalyticsColumn::all().len(), 7);
    assert_eq!(AnalyticsColumn::parse("Tenant"), None);
    assert_eq!(ANALYTICS_SCHEMA_VERSION, 1);
}
