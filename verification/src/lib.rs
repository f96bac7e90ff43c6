//! Verified core of a sharded log and metric store.
pub mod active_block;
pub mod analytics;
pub mod api_error;
pub mod batch_laws;
pub mod block_laws;
pub mod cache_laws;
pub mod catalog_laws;
pub mod codec;
pub mod compress;
pub mod detect_laws;
pub mod dictionary_cache;
pub mod durable_laws;
pub mod durable_query;
pub mod durable_store;
pub mod entry_laws;
pub mod error;
pub mod fanout_laws;
pub mod first_laws;
pub mod frame_install;
pub mod frame_laws;
pub mod frame_query;
pub mod gate_laws;
pub mod hash;
pub mod hot_stripe;
pub mod ingest_events;
pub mod ingest_frames;
pub mod ingest_laws;
pub mod ingest_pack;
pub mod ingest_prepare;
pub mod labels;
pub mod log_predicate;
pub mod log_query;
pub mod log_service;
pub mod log_sink;
pub mod log_stripe;
pub mod logql_laws;
pub mod loki_delete;
pub mod loki_entries;
pub mod loki_fields;
pub mod loki_gate;
pub mod loki_query;
pub mod loki_read;
pub mod loki_stats;
pub mod loki_time;
pub mod map_laws;
pub mod metric_chunk;
pub mod metric_codec;
pub mod metric_laws;
pub mod metric_point;
pub mod metric_publish;
pub mod metric_query;
pub mod metric_query_laws;
pub mod metric_sound;
pub mod metric_stripe;
pub mod metric_timestamps;
pub mod native_batch;
pub mod native_decode;
pub mod native_encode;
pub mod native_frame;
pub mod native_laws;
pub mod native_limits;
pub mod native_fill_laws;
pub mod native_query;
pub mod native_query_laws;
pub mod native_server;
pub mod native_view;
pub mod native_wire;
pub mod order;
pub mod otlp;
pub mod otlp_laws;
pub mod partition_index;
pub mod plan_laws;
pub mod posting;
pub mod production;
pub mod prometheus;
pub mod push_laws;
pub mod publish_laws;
pub mod query_laws;
pub mod read_laws;
pub mod record;
pub mod remote_write;
pub mod sample_laws;
pub mod scan_laws;
pub mod search_index;
pub mod stripe_blocks;
pub mod stripe_dictionaries;
pub mod shard_laws;
pub mod store_laws;
pub mod stripe_query;
pub mod tenant_laws;
pub mod text;
pub mod text_set;
pub mod time_laws;
pub mod varint;
pub mod written_laws;

pub use active_block::{ActiveBlock, StripeConfig};
pub use analytics::{
    AnalyticsColumn, AnalyticsLogRow, AnalyticsScanRequest, ANALYTICS_SCHEMA_VERSION,
    CLICKHOUSE_COMPATIBILITY_TARGET,
};
pub use api_error::{ApiStatus, LokiApiError};
pub use dictionary_cache::{DictionaryCache, DictionaryId, DictionaryInsert};
pub use durable_store::{DurableLokiConfig, RetentionReport, TenantRouting};
pub use error::{LogDbError, NativeProtocolError};
pub use labels::{LabelMap, MetadataField};
pub use log_predicate::LogPredicate;
pub use log_query::{DurableLogRecord, LogQuery, QueryCursor, QuerySort};
pub use log_sink::OtlpSinkConfig;
pub use log_stripe::{IndexReceipt, LogStripe};
pub use loki_delete::{DeleteRequest, LokiApiStore};
pub use loki_gate::{StoreHealth, StoreMetrics};
pub use loki_read::LokiApiConfig;
pub use native_batch::{inspect_native_log_batch, is_native_log_batch, NativeBatchInfo};
pub use native_decode::{
    decode_native_log_batch, decode_native_log_events, validate_native_log_batch, NativeLogBatch,
};
pub use native_encode::encode_native_log_batch;
pub use native_frame::{
    NativeAppendAck, NativeFrame, NativeFrameHeader, NativeOpcode, NativeStatus,
    MAX_NATIVE_FRAME_BYTES, NATIVE_FRAME_HEADER_BYTES,
};
pub use native_query::{
    decode_native_query, encode_native_query, NativeQuery, NativeQueryDirection,
};
pub use native_server::NativeServerConfig;
pub use otlp::OtlpLogDecoder;
pub use posting::QueryOrder;
pub use production::{
    ProductionMetricsSnapshot, ProductionRuntime, ServiceLifecycle, ServiceState,
    SingleTenantConfig,
};
pub use prometheus::PrometheusApiConfig;
pub use record::{
    CompressionCohortId, LogicalOffset, LogicalPartitionId, LokiEntry, OtlpLogEvent, RecordRef,
    ShardId, TopicId, TopicPartition,
};
pub use stripe_blocks::{ActiveBlockKey, BlockDescriptor, StripeBlocks};
pub use stripe_dictionaries::{CompressionPlacementId, StripeDictionaries};
pub use stripe_query::ShardLogDb;
