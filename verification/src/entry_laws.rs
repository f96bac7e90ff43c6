//! Laws of stored records as entries, of routing and of retention.
use vstd::prelude::*;

use crate::api_error::ApiFault;
use crate::durable_store::{
    after_text, checkpoint_of, cutoff_at, health_of, holds_retained, retained_start, scanned,
    stored_entry, stored_labels, stored_metadata, stored_row, AppendPlace, BatchModel,
    RetentionScan, TenantRouting,
};
use crate::labels::{ascending, has_key, lookup, Pairs};
use crate::log_query::RecordModel;
use crate::loki_entries::{event_entry, event_labels, event_metadata, otlp_name};
use crate::loki_gate::StoreMetrics;
use crate::map_laws::inserting_binds_one_key;
use crate::push_laws::streams_get_a_service_name;
use crate::record::{EventModel, TopicPartition};

verus! {

broadcast use vstd::seq_lib::group_seq_properties;

/// Whether the last of the fields with a name has a value.
pub open spec fn last_says(fields: Pairs, name: Seq<char>, value: Seq<char>) -> bool {
    exists|i: int|
        {
            &&& 0 <= i < fields.len()
            &&& #[trigger] fields[i] == (name, value)
            &&& forall|j: int| i < j < fields.len() ==> (#[trigger] fields[j]).0 != name
        }
}

proof fn lemma_last_says(fields: Pairs, name: Seq<char>, value: Seq<char>)
    requires
        fields.len() > 0,
    ensures
        last_says(fields, name, value) <==> if fields.last().0 == name {
            fields.last().1 == value
        } else {
            last_says(fields.drop_last(), name, value)
        },
{
    let front = fields.drop_last();
    let end = fields.len() - 1;
    assert(fields[end] == fields.last());
    if last_says(fields, name, value) {
        let i = choose|i: int|
            {
                &&& 0 <= i < fields.len()
                &&& #[trigger] fields[i] == (name, value)
                &&& forall|j: int| i < j < fields.len() ==> (#[trigger] fields[j]).0 != name
            };
        if i < end {
            assert(fields[end].0 != name);
            assert(front[i] == (name, value));
            assert forall|j: int| i < j < front.len() implies (#[trigger] front[j]).0 != name by {
                assert(front[j] == fields[j]);
            }
        }
    }
    if fields.last().0 != name && last_says(front, name, value) {
        let i = choose|i: int|
            {
                &&& 0 <= i < front.len()
                &&& #[trigger] front[i] == (name, value)
                &&& forall|j: int| i < j < front.len() ==> (#[trigger] front[j]).0 != name
            };
        assert(fields[i] == (name, value));
        assert forall|j: int| i < j < fields.len() implies (#[trigger] fields[j]).0 != name by {
            if j < end {
                assert(front[j] == fields[j]);
            }
        }
    }
    if fields.last() == (name, value) {
        assert(fields[end] == (name, value));
    }
}

proof fn lemma_after(text: Seq<char>, prefix: Seq<char>, name: Seq<char>)
    ensures
        after_text(text, prefix) == Some(name) <==> text == prefix + name,
{
    if after_text(text, prefix) == Some(name) {
        assert(text =~= prefix + name);
    }
    if text == prefix + name {
        assert(text.subrange(0, prefix.len() as int) =~= prefix);
        assert(text.subrange(prefix.len() as int, text.len() as int) =~= name);
    }
}

/// The labels of a stored record are its fields with the label prefix, without it; of fields
/// with one name the last counts.
pub proof fn stored_labels_are_prefixed_fields(fields: Pairs, name: Seq<char>, value: Seq<char>)
    ensures
        stored_labels(fields).contains((name, value)) <==> last_says(
            fields,
            "resource.loki.label."@ + name,
            value,
        ),
        ascending(stored_labels(fields)),
    decreases fields.len(),
{
    if fields.len() > 0 {
        let early = fields.drop_last();
        let last = fields.last();
        let prefix = "resource.loki.label."@;
        let front = stored_labels(early);
        stored_labels_are_prefixed_fields(early, name, value);
        lemma_last_says(fields, prefix + name, value);
        lemma_after(last.0, prefix, name);
        if let Some(own) = after_text(last.0, prefix) {
            lemma_after(last.0, prefix, own);
            inserting_binds_one_key(front, own, last.1, name, value);
        }
    }
}

/// The metadata of a stored record are its fields with the metadata prefix, without it; of
/// fields with one name the last counts.
pub proof fn stored_metadata_are_prefixed_fields(
    fields: Pairs,
    name: Seq<char>,
    value: Seq<char>,
)
    ensures
        stored_metadata(fields).contains((name, value)) <==> last_says(
            fields,
            "attr.loki.metadata."@ + name,
            value,
        ),
        ascending(stored_metadata(fields)),
    decreases fields.len(),
{
    if fields.len() > 0 {
        let early = fields.drop_last();
        let last = fields.last();
        let prefix = "attr.loki.metadata."@;
        let front = stored_metadata(early);
        stored_metadata_are_prefixed_fields(early, name, value);
        lemma_last_says(fields, prefix + name, value);
        lemma_after(last.0, prefix, name);
        reveal_strlit("resource.loki.label.");
        reveal_strlit("attr.loki.metadata.");
        if let Some(label) = after_text(last.0, "resource.loki.label."@) {
            lemma_after(last.0, "resource.loki.label."@, label);
            assert(last.0[0] == 'r');
            assert((prefix + name)[0] == 'a');
        } else if let Some(own) = after_text(last.0, prefix) {
            lemma_after(last.0, prefix, own);
            inserting_binds_one_key(front, own, last.1, name, value);
        }
    }
}

/// A stored record is read as an entry with its time, its message, its labels and its
/// metadata, and as a row with its tenant and its place; a time that no entry can have is
/// refused by both.
pub proof fn stored_records_are_entries(tenant: Seq<char>, record: RecordModel)
    ensures
        stored_entry(record) is Ok <==> record.timestamp <= i64::MAX,
        stored_entry(record) matches Ok(entry) ==> {
            &&& entry.timestamp == record.timestamp
            &&& entry.line == record.message
            &&& entry.labels == stored_labels(record.fields)
            &&& entry.metadata == stored_metadata(record.fields)
        },
        stored_row(tenant, record) is Ok <==> record.timestamp <= i64::MAX,
        stored_row(tenant, record) matches Ok((row, entry)) ==> {
            &&& stored_entry(record) == Ok::<_, ApiFault>(entry)
            &&& row.tenant == tenant
            &&& row.timestamp == entry.timestamp
            &&& row.message == entry.line
            &&& row.labels == entry.labels
            &&& row.metadata == entry.metadata
            &&& row.partition == record.reference.topic_partition.partition_id.0
            &&& row.offset == record.reference.offset.0
        },
{
}

/// A name of an OTLP field keeps its length, its ASCII letters and digits and its
/// underscores; every other character becomes an underscore.
pub proof fn names_are_made_labels(name: Seq<char>, i: int)
    requires
        0 <= i < name.len(),
    ensures
        otlp_name(name).len() == name.len(),
        otlp_name(name)[i] == if 'a' <= name[i] <= 'z' || 'A' <= name[i] <= 'Z' || '0' <= name[i]
            <= '9' {
            name[i]
        } else {
            '_'
        },
{
}

/// Whether the last field that names a service names a value.
pub open spec fn service_is(fields: Pairs, value: Seq<char>) -> bool {
    exists|i: int|
        {
            &&& 0 <= i < fields.len()
            &&& is_service((#[trigger] fields[i]).0) && fields[i].1 == value
            &&& forall|j: int| i < j < fields.len() ==> !is_service((#[trigger] fields[j]).0)
        }
}

/// Whether a field names the service of an event.
pub open spec fn is_service(key: Seq<char>) -> bool {
    key == "service.name"@ || key == "resource.service.name"@
}

/// Whether the last field whose name becomes a label, the service left aside, has a value.
pub open spec fn other_is(fields: Pairs, name: Seq<char>, value: Seq<char>) -> bool {
    exists|i: int|
        {
            &&& 0 <= i < fields.len()
            &&& otlp_name((#[trigger] fields[i]).0) == name && !is_service(fields[i].0)
                && fields[i].1 == value
            &&& forall|j: int|
                i < j < fields.len() ==> otlp_name((#[trigger] fields[j]).0) != name || is_service(
                    fields[j].0,
                )
        }
}

proof fn lemma_service(fields: Pairs, name: Seq<char>, value: Seq<char>)
    ensures
        event_labels(fields).contains((name, value)) <==> name == "service_name"@ && service_is(
            fields,
            value,
        ),
        ascending(event_labels(fields)),
    decreases fields.len(),
{
    if fields.len() > 0 {
        let early = fields.drop_last();
        let last = fields.last();
        let end = fields.len() - 1;
        assert(fields[end] == last);
        lemma_service(early, name, value);
        if is_service(last.0) {
            inserting_binds_one_key(event_labels(early), "service_name"@, last.1, name, value);
            if service_is(fields, value) {
                let i = choose|i: int|
                    {
                        &&& 0 <= i < fields.len()
                        &&& is_service((#[trigger] fields[i]).0) && fields[i].1 == value
                        &&& forall|j: int|
                            i < j < fields.len() ==> !is_service((#[trigger] fields[j]).0)
                    };
                if i < end {
                    assert(!is_service(fields[end].0));
                }
            }
            if last.1 == value {
                assert(is_service(fields[end].0) && fields[end].1 == value);
                assert(service_is(fields, value));
            }
        } else {
            if service_is(fields, value) {
                let i = choose|i: int|
                    {
                        &&& 0 <= i < fields.len()
                        &&& is_service((#[trigger] fields[i]).0) && fields[i].1 == value
                        &&& forall|j: int|
                            i < j < fields.len() ==> !is_service((#[trigger] fields[j]).0)
                    };
                assert(early[i] == fields[i]);
                assert forall|j: int| i < j < early.len() implies !is_service(
                    (#[trigger] early[j]).0,
                ) by {
                    assert(early[j] == fields[j]);
                }
            }
            if service_is(early, value) {
                let i = choose|i: int|
                    {
                        &&& 0 <= i < early.len()
                        &&& is_service((#[trigger] early[i]).0) && early[i].1 == value
                        &&& forall|j: int|
                            i < j < early.len() ==> !is_service((#[trigger] early[j]).0)
                    };
                assert(is_service(fields[i].0) && fields[i].1 == value);
                assert forall|j: int| i < j < fields.len() implies !is_service(
                    (#[trigger] fields[j]).0,
                ) by {
                    if j < end {
                        assert(early[j] == fields[j]);
                    }
                }
            }
        }
    }
}

proof fn lemma_others(fields: Pairs, name: Seq<char>, value: Seq<char>)
    ensures
        event_metadata(fields).contains((name, value)) <==> other_is(fields, name, value),
        ascending(event_metadata(fields)),
    decreases fields.len(),
{
    if fields.len() > 0 {
        let early = fields.drop_last();
        let last = fields.last();
        let end = fields.len() - 1;
        assert(fields[end] == last);
        lemma_others(early, name, value);
        let fits = |pair: (Seq<char>, Seq<char>)| otlp_name(pair.0) == name && !is_service(pair.0);
        if !is_service(last.0) {
            inserting_binds_one_key(
                event_metadata(early),
                otlp_name(last.0),
                last.1,
                name,
                value,
            );
        }
        if other_is(fields, name, value) {
            let i = choose|i: int|
                {
                    &&& 0 <= i < fields.len()
                    &&& otlp_name((#[trigger] fields[i]).0) == name && !is_service(fields[i].0)
                        && fields[i].1 == value
                    &&& forall|j: int|
                        i < j < fields.len() ==> otlp_name((#[trigger] fields[j]).0) != name
                            || is_service(fields[j].0)
                };
            if i < end {
                assert(!fits(fields[end]));
                assert(otlp_name(early[i].0) == name);
                assert forall|j: int| i < j < early.len() implies otlp_name(
                    (#[trigger] early[j]).0,
                ) != name || is_service(early[j].0) by {
                    assert(early[j] == fields[j]);
                }
                assert(other_is(early, name, value));
            }
        }
        if !fits(last) && other_is(early, name, value) {
            let i = choose|i: int|
                {
                    &&& 0 <= i < early.len()
                    &&& otlp_name((#[trigger] early[i]).0) == name && !is_service(early[i].0)
                        && early[i].1 == value
                    &&& forall|j: int|
                        i < j < early.len() ==> otlp_name((#[trigger] early[j]).0) != name
                            || is_service(early[j].0)
                };
            assert(otlp_name(fields[i].0) == name);
            assert forall|j: int| i < j < fields.len() implies otlp_name(
                (#[trigger] fields[j]).0,
            ) != name || is_service(fields[j].0) by {
                if j < end {
                    assert(early[j] == fields[j]);
                }
            }
            assert(other_is(fields, name, value));
        }
        if fits(last) && last.1 == value {
            assert(otlp_name(fields[end].0) == name);
            assert(other_is(fields, name, value));
        }
    }
}

/// An OTLP event is an entry with its time, as far as an entry can have it, and its message;
/// its service is its label, and every other field is metadata under a label name, the last
/// one where several get one name.
pub proof fn events_are_entries(event: EventModel, name: Seq<char>, value: Seq<char>)
    ensures
        ({
            let entry = event_entry(event);
            &&& entry.timestamp == if event.timestamp <= i64::MAX {
                event.timestamp as int
            } else {
                i64::MAX as int
            }
            &&& entry.line == event.message
            &&& entry.labels.contains((name, value)) <==> name == "service_name"@ && service_is(
                event.fields,
                value,
            )
            &&& entry.metadata.contains((name, value)) <==> other_is(event.fields, name, value)
        }),
{
    let labels = event_labels(event.fields);
    lemma_service(event.fields, name, value);
    lemma_others(event.fields, name, value);
    streams_get_a_service_name(labels);
    lemma_only_service(event.fields);
}

/// The labels of an event need no further service name.
proof fn lemma_only_service(fields: Pairs)
    ensures
        crate::loki_entries::normalized_labels(event_labels(fields)) == event_labels(fields),
{
    let labels = event_labels(fields);
    let key = "service_name"@;
    if !has_key(labels, key) {
        assert(labels.len() == 0) by {
            if labels.len() > 0 {
                lemma_service(fields, labels[0].0, labels[0].1);
                assert(labels[0] == (labels[0].0, labels[0].1));
                assert(labels.contains((labels[0].0, labels[0].1)));
                assert(labels[0].0 == key);
            }
        }
        lemma_no_label(labels, crate::loki_entries::service_names(), 0);
    }
}

proof fn lemma_no_label(labels: Pairs, names: Seq<Seq<char>>, at: int)
    requires
        labels.len() == 0,
        0 <= at <= names.len(),
    ensures
        crate::loki_entries::first_label(labels, names, at) is None,
    decreases names.len() - at,
{
    if at < names.len() {
        assert(lookup(labels, names[at]) is None);
        lemma_no_label(labels, names, at + 1);
    }
}

/// A time is retained where it lies no further back than the retention window; without a
/// window everything is.
pub proof fn retention_keeps_the_window(window: u128, now: u128, time: u64)
    ensures
        cutoff_at(None, now) is None,
        cutoff_at(Some(window), now) is Some,
        now - window <= u64::MAX ==> (time >= cutoff_at(Some(window), now)->0 <==> time + window
            >= now),
{
}

/// A start that respects retention lets through what both the request and the cutoff do.
pub proof fn retained_starts_respect_both(
    requested: Option<u64>,
    cutoff: Option<u64>,
    time: u64,
)
    ensures
        (retained_start(requested, cutoff) matches Some(start) ==> start <= time) <==> (
        requested matches Some(start) ==> start <= time) && (cutoff matches Some(start) ==> start
            <= time),
{
}

/// Retention releases every batch before the first one that holds a retained record, and no
/// further one; where none does, it releases all.
pub proof fn retention_stops_at_the_first_retained_batch(
    scan: RetentionScan,
    batches: Seq<BatchModel>,
    k: int,
)
    requires
        !scan.over,
        0 <= k <= batches.len(),
        forall|i: int| 0 <= i < k ==> !holds_retained(#[trigger] batches[i], scan.cutoff),
        forall|i: int| 0 <= i < k ==> (#[trigger] batches[i]).last_offset < u64::MAX,
        k < batches.len() ==> holds_retained(batches[k], scan.cutoff),
    ensures
        scanned(scan, batches) matches Ok(after) && {
            &&& after.over == (k < batches.len())
            &&& after.retained_start == if k == 0 {
                scan.retained_start as int
            } else {
                batches[k - 1].last_offset + 1
            }
            &&& after.cutoff == scan.cutoff
        },
    decreases batches.len(),
{
    if batches.len() > 0 {
        let early = batches.drop_last();
        let end = batches.len() - 1;
        assert(batches[end] == batches.last());
        assert forall|i: int| 0 <= i < early.len() implies #[trigger] early[i] == batches[i] by {}
        if k == batches.len() {
            retention_stops_at_the_first_retained_batch(scan, early, k - 1);
        } else {
            retention_stops_at_the_first_retained_batch(scan, early, k);
        }
    }
}

/// An append is indexed once the next sequence and the next offset are reached.
pub proof fn checkpoints_follow_appends(partition: TopicPartition, appended: AppendPlace)
    ensures
        checkpoint_of(partition, appended) matches Ok(checkpoint) ==> {
            &&& checkpoint.topic_partition == partition
            &&& checkpoint.next_placement_sequence == appended.placement_sequence + 1
            &&& checkpoint.next_offset == appended.last_offset + 1
        },
        checkpoint_of(partition, appended) is Ok <==> appended.placement_sequence < u64::MAX
            && appended.last_offset < u64::MAX,
{
}

/// A store is healthy where no partition needs recovery and nothing waits longer than the
/// timeout.
pub proof fn health_follows_the_sink(stats: StoreMetrics, timeout: u128)
    ensures
        health_of(stats, timeout).0 <==> stats.dirty_partitions == 0 && (stats.pending_items == 0
            || stats.checkpoint_age_ms <= timeout / 1_000_000),
{
}

/// The partitions of a tenant are as many as there are ingest stripes, all in the topic and
/// below the number of partitions; requests whose numbers differ by less than the stripes
/// are written to different ones.
pub proof fn requests_spread_over_stripes(
    routing: TenantRouting,
    tenant: Seq<char>,
    left: u64,
    right: u64,
)
    requires
        routing.well_formed(),
        left < right,
        right - left < routing.ingest_stripes,
    ensures
        routing.partitions(tenant).len() == routing.ingest_stripes,
        routing.written(tenant, left).partition_id.0 < routing.tenant_partitions,
        routing.written(tenant, left) != routing.written(tenant, right),
        routing.written(tenant, left).topic_id == routing.written(tenant, right).topic_id,
{
    let stripes = routing.ingest_stripes as int;
    let total = routing.tenant_partitions as int;
    let groups = routing.groups();
    let hash = crate::hash::fnv_bytes(
        crate::hash::FNV_OFFSET,
        vstd::utf8::encode_utf8(tenant),
    ) as int;
    let base = routing.base(tenant);
    let a = left as int % stripes;
    let b = right as int % stripes;
    assert(groups >= 1) by (nonlinear_arith)
        requires
            groups == total / stripes,
            0 < stripes <= total,
    ;
    assert(0 <= hash % groups < groups) by (nonlinear_arith)
        requires
            groups >= 1,
    ;
    assert(0 <= base && base + stripes <= total) by (nonlinear_arith)
        requires
            base == (hash % groups) * stripes,
            0 <= hash % groups < groups,
            groups == total / stripes,
            0 < stripes <= total,
    ;
    assert(0 <= a < stripes && 0 <= b < stripes && a != b) by (nonlinear_arith)
        requires
            a == left as int % stripes,
            b == right as int % stripes,
            0 <= left < right,
            right - left < stripes,
            stripes > 0,
    ;
    assert((base + a) % total == base + a) by {
        vstd::arithmetic::div_mod::lemma_small_mod((base + a) as nat, total as nat);
    }
    assert((base + b) % total == base + b) by {
        vstd::arithmetic::div_mod::lemma_small_mod((base + b) as nat, total as nat);
    }
}

} // verus!
