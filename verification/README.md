# shard_log

The core of a sharded log and metric store, written in Verus: executable Rust whose
behaviour is stated in contracts and proved.

`src/` is the library.

| Part | Modules |
| --- | --- |
| Wire formats | `codec`, `varint`, `hash`, `native_*`, `ingest_*`, `metric_codec`, `metric_timestamps`, `metric_chunk`, `otlp`, `compress` |
| Log index | `posting`, `search_index`, `partition_index`, `log_predicate`, `log_query`, `log_stripe`, `stripe_query`, `frame_install`, `frame_query`, `log_service` |
| Blocks | `active_block`, `stripe_blocks`, `stripe_dictionaries`, `dictionary_cache`, `hot_stripe` |
| Metrics | `metric_point`, `metric_stripe`, `metric_query`, `metric_publish`, `prometheus`, `remote_write` |
| Loki API | `loki_query`, `loki_time`, `loki_entries`, `loki_read`, `loki_stats`, `loki_fields`, `loki_delete`, `loki_gate`, `analytics` |
| Storage | `durable_store`, `durable_query`, `log_sink` |
| Operation | `production`, `api_error`, `error`, `native_server` |
| Laws | `native_laws`, `batch_laws`, `ingest_laws`, `metric_laws`, `metric_sound`, `query_laws`, `frame_laws`, `fanout_laws`, `durable_laws`, `block_laws`, and beside the functions they are about |

Calls into other crates (compression, hashing, regular expressions, protobuf, JSON, form
decoding) stand behind small wrappers. The doc comment of a wrapper names the function it
calls and says what is taken from it without proof.

What the library leaves to its callers is handed in as plain values: the time, numbers
with a fraction, the search terms and the pattern of a message, the encoding of the
records of a block, and the decoded records and index of a compressed frame.

`tests/` runs the library on concrete values. `app/` is a server around the library, with
its HTTP and TCP surface; its records live as long as the process.
