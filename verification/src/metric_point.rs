//! Metric points, their values and their series identity.
use vstd::multiset::Multiset;
use vstd::prelude::*;
use vstd::relations::{sorted_by, total_ordering};
use vstd::seq_lib::lemma_sorted_unique;
use vstd::utf8::encode_utf8;

use crate::codec::{
    bytes_less, le_bytes, lemma_bytes_less_total, lemma_bytes_less_transitive, put_bytes, put_le,
    same_bytes, same_text,
};
use crate::labels::{collect_pairs, LabelMap, Pairs};
use crate::metric_chunk::TelemetrySignal;
use crate::metric_codec::NumberValue;
use crate::record::{ShardId, TopicPartition};

verus! {

broadcast use vstd::seq_lib::group_seq_properties;

/// Exact integer or floating-point histogram count.
#[derive(Debug, Clone, Copy, PartialEq, Eq, Structural)]
pub enum HistogramCount {
    /// Integer count used by OTLP and integer Prometheus native histograms.
    Integer(u64),
    /// Exact IEEE-754 count bits used by Prometheus float histograms.
    DoubleBits(u64),
}

/// Attribute value.
#[derive(Debug, PartialEq, Eq)]
pub enum TelemetryValue {
    /// Text.
    Text(String),
    /// Signed integer.
    Integer(i64),
    /// Any other value.
    Other,
}

/// Attribute with its canonical serialized form.
#[derive(Debug, PartialEq, Eq)]
pub struct TelemetryAttribute {
    /// Attribute name.
    pub key: String,
    /// Attribute value, if it has one.
    pub value: Option<TelemetryValue>,
    /// Canonical bytes of name and value.
    pub canonical: Vec<u8>,
}

/// One metric exemplar nested under a point.
#[derive(Debug, PartialEq, Eq)]
pub struct MetricExemplar {
    /// Filtered attributes in wire order.
    pub filtered_attributes: Vec<TelemetryAttribute>,
    /// Exemplar timestamp.
    pub timestamp_unix_nanos: u64,
    /// Exact scalar value.
    pub value: NumberValue,
    /// Optional binary span ID.
    pub span_id: Option<u64>,
    /// Optional binary trace ID.
    pub trace_id: Option<u128>,
}

/// Explicit histogram point payload.
#[derive(Debug, PartialEq, Eq)]
pub struct ExplicitHistogramValue {
    /// Number of observations.
    pub count: HistogramCount,
    /// Exact optional sum bits.
    pub sum_bits: Option<u64>,
    /// Bucket counts.
    pub bucket_counts: Vec<HistogramCount>,
    /// Exact explicit-bound bits.
    pub explicit_bounds_bits: Vec<u64>,
    /// Exact optional minimum bits.
    pub min_bits: Option<u64>,
    /// Exact optional maximum bits.
    pub max_bits: Option<u64>,
    /// Prometheus reset hint; zero for OTLP explicit histograms.
    pub reset_hint: i32,
}

/// One sparse native-histogram bucket span.
#[derive(Debug, Clone, Copy, PartialEq, Eq, Structural)]
pub struct HistogramBucketSpan {
    /// Gap from the prior span, or starting bucket for the first span.
    pub offset: i32,
    /// Number of consecutive buckets.
    pub length: u32,
}

/// Positive or negative exponential-histogram buckets.
#[derive(Debug, PartialEq, Eq)]
pub struct ExponentialHistogramBuckets {
    /// Sparse bucket spans in wire order.
    pub spans: Vec<HistogramBucketSpan>,
    /// Bucket counts corresponding to the concatenated spans.
    pub bucket_counts: Vec<HistogramCount>,
}

/// Exponential histogram point payload.
#[derive(Debug, PartialEq, Eq)]
pub struct ExponentialHistogramValue {
    /// Number of observations.
    pub count: HistogramCount,
    /// Exact optional sum bits.
    pub sum_bits: Option<u64>,
    /// Base-2 scale.
    pub scale: i32,
    /// Count of exact zero values.
    pub zero_count: HistogramCount,
    /// Positive buckets.
    pub positive: Option<ExponentialHistogramBuckets>,
    /// Negative buckets.
    pub negative: Option<ExponentialHistogramBuckets>,
    /// Exact optional minimum bits.
    pub min_bits: Option<u64>,
    /// Exact optional maximum bits.
    pub max_bits: Option<u64>,
    /// Exact zero-threshold bits.
    pub zero_threshold_bits: u64,
    /// Prometheus reset hint; zero for OTLP exponential histograms.
    pub reset_hint: i32,
}

/// One legacy summary quantile.
#[derive(Debug, Clone, Copy, PartialEq, Eq, Structural)]
pub struct SummaryQuantileValue {
    /// Exact quantile bits.
    pub quantile_bits: u64,
    /// Exact value bits.
    pub value_bits: u64,
}

/// Legacy summary point payload.
#[derive(Debug, PartialEq, Eq)]
pub struct SummaryValue {
    /// Number of observations.
    pub count: u64,
    /// Exact sum bits.
    pub sum_bits: u64,
    /// Quantile values in wire order.
    pub quantiles: Vec<SummaryQuantileValue>,
}

/// Signal-native metric point payload.
#[derive(Debug, PartialEq, Eq)]
pub enum MetricValue {
    /// Gauge sample.
    Gauge(NumberValue),
    /// Sum sample. Temporality and monotonicity are part of series identity.
    Sum(NumberValue),
    /// Explicit histogram sample.
    ExplicitHistogram(ExplicitHistogramValue),
    /// Exponential histogram sample.
    ExponentialHistogram(ExponentialHistogramValue),
    /// Legacy summary sample.
    Summary(SummaryValue),
}

/// Metric instrument identity fields that are common to a series.
#[derive(Debug, Clone, Copy, PartialEq, Eq, Structural)]
pub enum MetricKind {
    /// Gauge.
    Gauge,
    /// Sum with raw OTLP temporality and monotonicity.
    Sum {
        /// OTLP aggregation temporality enum value.
        temporality: i32,
        /// Whether the sum is monotonic.
        monotonic: bool,
    },
    /// Explicit histogram with raw OTLP temporality.
    ExplicitHistogram {
        /// OTLP aggregation temporality enum value.
        temporality: i32,
    },
    /// Exponential histogram with raw OTLP temporality.
    ExponentialHistogram {
        /// OTLP aggregation temporality enum value.
        temporality: i32,
    },
    /// Legacy cumulative summary.
    Summary,
}

/// Canonical identity of one metric series.
#[derive(Debug, PartialEq, Eq)]
pub struct MetricIdentity {
    /// Authenticated tenant.
    pub tenant: String,
    /// Canonical bytes of the resource context.
    pub resource_identity: Vec<u8>,
    /// Resource attributes.
    pub resource_attributes: Vec<TelemetryAttribute>,
    /// Canonical bytes of the instrumentation scope.
    pub scope_identity: Vec<u8>,
    /// Metric name.
    pub name: String,
    /// Metric unit.
    pub unit: String,
    /// Metric kind, temporality, and monotonicity.
    pub kind: MetricKind,
    /// Serialized metric kind.
    pub kind_bytes: Vec<u8>,
    /// Exact point attributes. Their canonical sorted representation defines identity.
    pub point_attributes: Vec<TelemetryAttribute>,
}

/// One durable raw metric point. Exactly one point consumes one logical offset.
#[derive(Debug, PartialEq, Eq)]
pub struct DurableMetricPoint {
    /// Physical shard-stream owner stripe.
    pub stream_shard_id: ShardId,
    /// Signal of the record.
    pub signal: TelemetrySignal,
    /// Partition of the record.
    pub topic_partition: TopicPartition,
    /// Offset in the partition.
    pub offset: u64,
    /// Canonical series fingerprint.
    pub series: u128,
    /// Canonical series identity.
    pub identity: MetricIdentity,
    /// Description metadata, deliberately excluded from series identity.
    pub description: String,
    /// Non-identifying OTLP metric metadata.
    pub metadata: Vec<TelemetryAttribute>,
    /// Optional start timestamp.
    pub start_time_unix_nanos: u64,
    /// Required sample timestamp.
    pub timestamp_unix_nanos: u64,
    /// Point flags, including stale-marker flags and unknown future bits.
    pub flags: u32,
    /// Exact raw point payload.
    pub value: MetricValue,
    /// Nested exemplars.
    pub exemplars: Vec<MetricExemplar>,
    /// Serialized size, charged against the head budget.
    pub estimated_head_bytes: usize,
}

/// Whether two attributes are equal.
pub open spec fn attribute_same(a: TelemetryAttribute, b: TelemetryAttribute) -> bool {
    &&& a.key@ == b.key@
    &&& a.canonical@ == b.canonical@
    &&& match (a.value, b.value) {
        (None, None) => true,
        (Some(TelemetryValue::Text(x)), Some(TelemetryValue::Text(y))) => x@ == y@,
        (Some(TelemetryValue::Integer(x)), Some(TelemetryValue::Integer(y))) => x == y,
        (Some(TelemetryValue::Other), Some(TelemetryValue::Other)) => true,
        _ => false,
    }
}

/// Whether two exemplars are equal.
pub open spec fn exemplar_same(a: MetricExemplar, b: MetricExemplar) -> bool {
    &&& a.timestamp_unix_nanos == b.timestamp_unix_nanos
    &&& a.value == b.value
    &&& a.span_id == b.span_id
    &&& a.trace_id == b.trace_id
    &&& a.filtered_attributes@.len() == b.filtered_attributes@.len()
    &&& forall|i: int|
        0 <= i < a.filtered_attributes@.len() ==> attribute_same(
            #[trigger] a.filtered_attributes@[i],
            b.filtered_attributes@[i],
        )
}

/// Whether two lists of exemplars are equal.
pub open spec fn exemplars_same(a: Seq<MetricExemplar>, b: Seq<MetricExemplar>) -> bool {
    a.len() == b.len() && forall|i: int|
        0 <= i < a.len() ==> exemplar_same(#[trigger] a[i], b[i])
}

/// Whether two bucket lists are equal.
pub open spec fn buckets_same(
    a: Option<ExponentialHistogramBuckets>,
    b: Option<ExponentialHistogramBuckets>,
) -> bool {
    match (a, b) {
        (None, None) => true,
        (Some(x), Some(y)) => x.spans@ == y.spans@ && x.bucket_counts@ == y.bucket_counts@,
        _ => false,
    }
}

/// Whether two values are equal, bit for bit.
pub open spec fn value_same(a: MetricValue, b: MetricValue) -> bool {
    match (a, b) {
        (MetricValue::Gauge(x), MetricValue::Gauge(y)) => x == y,
        (MetricValue::Sum(x), MetricValue::Sum(y)) => x == y,
        (MetricValue::ExplicitHistogram(x), MetricValue::ExplicitHistogram(y)) => {
            &&& x.count == y.count
            &&& x.sum_bits == y.sum_bits
            &&& x.bucket_counts@ == y.bucket_counts@
            &&& x.explicit_bounds_bits@ == y.explicit_bounds_bits@
            &&& x.min_bits == y.min_bits
            &&& x.max_bits == y.max_bits
            &&& x.reset_hint == y.reset_hint
        },
        (MetricValue::ExponentialHistogram(x), MetricValue::ExponentialHistogram(y)) => {
            &&& x.count == y.count
            &&& x.sum_bits == y.sum_bits
            &&& x.scale == y.scale
            &&& x.zero_count == y.zero_count
            &&& buckets_same(x.positive, y.positive)
            &&& buckets_same(x.negative, y.negative)
            &&& x.min_bits == y.min_bits
            &&& x.max_bits == y.max_bits
            &&& x.zero_threshold_bits == y.zero_threshold_bits
            &&& x.reset_hint == y.reset_hint
        },
        (MetricValue::Summary(x), MetricValue::Summary(y)) => {
            &&& x.count == y.count
            &&& x.sum_bits == y.sum_bits
            &&& x.quantiles@ == y.quantiles@
        },
        _ => false,
    }
}

/// Whether a point repeats another: same value, flags, exemplars and start.
pub open spec fn repeats(a: DurableMetricPoint, b: DurableMetricPoint) -> bool {
    &&& value_same(a.value, b.value)
    &&& a.flags == b.flags
    &&& exemplars_same(a.exemplars@, b.exemplars@)
    &&& a.start_time_unix_nanos == b.start_time_unix_nanos
}

fn same_counts(a: &Vec<HistogramCount>, b: &Vec<HistogramCount>) -> (same: bool)
    ensures
        same == (a@ == b@),
{
    if a.len() != b.len() {
        return false;
    }
    let mut index: usize = 0;
    while index < a.len()
        invariant
            index <= a@.len(),
            a@.len() == b@.len(),
            forall|i: int| 0 <= i < index ==> a@[i] == b@[i],
        decreases a@.len() - index,
    {
        if a[index] != b[index] {
            return false;
        }
        index = index + 1;
    }
    proof {
        assert(a@ =~= b@);
    }
    true
}

fn same_numbers(a: &Vec<u64>, b: &Vec<u64>) -> (same: bool)
    ensures
        same == (a@ == b@),
{
    if a.len() != b.len() {
        return false;
    }
    let mut index: usize = 0;
    while index < a.len()
        invariant
            index <= a@.len(),
            a@.len() == b@.len(),
            forall|i: int| 0 <= i < index ==> a@[i] == b@[i],
        decreases a@.len() - index,
    {
        if a[index] != b[index] {
            return false;
        }
        index = index + 1;
    }
    proof {
        assert(a@ =~= b@);
    }
    true
}

fn same_spans(a: &Vec<HistogramBucketSpan>, b: &Vec<HistogramBucketSpan>) -> (same: bool)
    ensures
        same == (a@ == b@),
{
    if a.len() != b.len() {
        return false;
    }
    let mut index: usize = 0;
    while index < a.len()
        invariant
            index <= a@.len(),
            a@.len() == b@.len(),
            forall|i: int| 0 <= i < index ==> a@[i] == b@[i],
        decreases a@.len() - index,
    {
        if a[index] != b[index] {
            return false;
        }
        index = index + 1;
    }
    proof {
        assert(a@ =~= b@);
    }
    true
}

fn same_quantiles(a: &Vec<SummaryQuantileValue>, b: &Vec<SummaryQuantileValue>) -> (same: bool)
    ensures
        same == (a@ == b@),
{
    if a.len() != b.len() {
        return false;
    }
    let mut index: usize = 0;
    while index < a.len()
        invariant
            index <= a@.len(),
            a@.len() == b@.len(),
            forall|i: int| 0 <= i < index ==> a@[i] == b@[i],
        decreases a@.len() - index,
    {
        if a[index] != b[index] {
            return false;
        }
        index = index + 1;
    }
    proof {
        assert(a@ =~= b@);
    }
    true
}

fn same_buckets(
    a: &Option<ExponentialHistogramBuckets>,
    b: &Option<ExponentialHistogramBuckets>,
) -> (same: bool)
    ensures
        same == buckets_same(*a, *b),
{
    match (a, b) {
        (None, None) => true,
        (Some(x), Some(y)) => same_spans(&x.spans, &y.spans) && same_counts(
            &x.bucket_counts,
            &y.bucket_counts,
        ),
        _ => false,
    }
}

/// Compares two values bit for bit.
pub fn same_value(a: &MetricValue, b: &MetricValue) -> (same: bool)
    ensures
        same == value_same(*a, *b),
{
    match (a, b) {
        (MetricValue::Gauge(x), MetricValue::Gauge(y)) => *x == *y,
        (MetricValue::Sum(x), MetricValue::Sum(y)) => *x == *y,
        (
            MetricValue::ExplicitHistogram(x),
            MetricValue::ExplicitHistogram(y),
        ) => x.count == y.count && x.sum_bits == y.sum_bits && same_counts(
            &x.bucket_counts,
            &y.bucket_counts,
        ) && same_numbers(&x.explicit_bounds_bits, &y.explicit_bounds_bits) && x.min_bits
            == y.min_bits && x.max_bits == y.max_bits && x.reset_hint == y.reset_hint,
        (
            MetricValue::ExponentialHistogram(x),
            MetricValue::ExponentialHistogram(y),
        ) => x.count == y.count && x.sum_bits == y.sum_bits && x.scale == y.scale && x.zero_count
            == y.zero_count && same_buckets(&x.positive, &y.positive) && same_buckets(
            &x.negative,
            &y.negative,
        ) && x.min_bits == y.min_bits && x.max_bits == y.max_bits && x.zero_threshold_bits
            == y.zero_threshold_bits && x.reset_hint == y.reset_hint,
        (MetricValue::Summary(x), MetricValue::Summary(y)) => x.count == y.count && x.sum_bits
            == y.sum_bits && same_quantiles(&x.quantiles, &y.quantiles),
        _ => false,
    }
}

fn same_attribute(a: &TelemetryAttribute, b: &TelemetryAttribute) -> (same: bool)
    ensures
        same == attribute_same(*a, *b),
{
    same_text(&a.key, &b.key) && same_bytes(&a.canonical, &b.canonical) && match (
        &a.value,
        &b.value,
    ) {
        (None, None) => true,
        (Some(TelemetryValue::Text(x)), Some(TelemetryValue::Text(y))) => same_text(x, y),
        (Some(TelemetryValue::Integer(x)), Some(TelemetryValue::Integer(y))) => *x == *y,
        (Some(TelemetryValue::Other), Some(TelemetryValue::Other)) => true,
        _ => false,
    }
}

fn same_exemplar(a: &MetricExemplar, b: &MetricExemplar) -> (same: bool)
    ensures
        same == exemplar_same(*a, *b),
{
    if a.timestamp_unix_nanos != b.timestamp_unix_nanos || a.value != b.value || a.span_id
        != b.span_id || a.trace_id != b.trace_id || a.filtered_attributes.len()
        != b.filtered_attributes.len() {
        return false;
    }
    let mut index: usize = 0;
    while index < a.filtered_attributes.len()
        invariant
            index <= a.filtered_attributes@.len(),
            a.filtered_attributes@.len() == b.filtered_attributes@.len(),
            forall|i: int|
                0 <= i < index ==> attribute_same(
                    #[trigger] a.filtered_attributes@[i],
                    b.filtered_attributes@[i],
                ),
        decreases a.filtered_attributes@.len() - index,
    {
        if !same_attribute(&a.filtered_attributes[index], &b.filtered_attributes[index]) {
            return false;
        }
        index = index + 1;
    }
    true
}

/// Compares two lists of exemplars.
pub fn same_exemplars(a: &Vec<MetricExemplar>, b: &Vec<MetricExemplar>) -> (same: bool)
    ensures
        same == exemplars_same(a@, b@),
{
    if a.len() != b.len() {
        return false;
    }
    let mut index: usize = 0;
    while index < a.len()
        invariant
            index <= a@.len(),
            a@.len() == b@.len(),
            forall|i: int| 0 <= i < index ==> exemplar_same(#[trigger] a@[i], b@[i]),
        decreases a@.len() - index,
    {
        if !same_exemplar(&a[index], &b[index]) {
            return false;
        }
        index = index + 1;
    }
    true
}

/// Compares what makes a point a repetition of another.
pub fn is_repeat(a: &DurableMetricPoint, b: &DurableMetricPoint) -> (same: bool)
    ensures
        same == repeats(*a, *b),
{
    same_value(&a.value, &b.value) && a.flags == b.flags && same_exemplars(
        &a.exemplars,
        &b.exemplars,
    ) && a.start_time_unix_nanos == b.start_time_unix_nanos
}

/// Byte strings in ascending order with one more.
pub open spec fn insert_bytes(sorted: Seq<Seq<u8>>, item: Seq<u8>) -> Seq<Seq<u8>>
    decreases sorted.len(),
{
    if sorted.len() == 0 {
        seq![item]
    } else if !bytes_less(item, sorted.last()) {
        sorted.push(item)
    } else {
        insert_bytes(sorted.drop_last(), item).push(sorted.last())
    }
}

/// Byte strings in ascending order.
pub open spec fn sort_bytes(items: Seq<Seq<u8>>) -> Seq<Seq<u8>>
    decreases items.len(),
{
    if items.len() == 0 {
        Seq::empty()
    } else {
        insert_bytes(sort_bytes(items.drop_last()), items.last())
    }
}

/// Byte string behind its 64-bit length.
pub open spec fn counted(bytes: Seq<u8>) -> Seq<u8> {
    le_bytes(bytes.len(), 8) + bytes
}

/// Byte strings behind their lengths.
pub open spec fn counted_all(items: Seq<Seq<u8>>) -> Seq<u8>
    decreases items.len(),
{
    if items.len() == 0 {
        Seq::empty()
    } else {
        counted_all(items.drop_last()) + counted(items.last())
    }
}

/// Canonical bytes of attributes.
pub open spec fn attribute_bytes(attributes: Seq<TelemetryAttribute>) -> Seq<Seq<u8>> {
    attributes.map_values(|attribute: TelemetryAttribute| attribute.canonical@)
}

impl MetricIdentity {
    /// Bytes that the series fingerprint is made of.
    pub open spec fn canonical(self) -> Seq<u8> {
        counted(encode_utf8(self.tenant@)) + self.resource_identity@ + self.scope_identity@
            + counted(encode_utf8(self.name@)) + counted(encode_utf8(self.unit@)) + counted(
            self.kind_bytes@,
        ) + counted_all(sort_bytes(attribute_bytes(self.point_attributes@)))
    }

    /// Writes the bytes that the series fingerprint is made of.
    pub fn canonical_bytes(&self) -> (canonical: Vec<u8>)
        ensures
            canonical@ == self.canonical(),
    {
        let mut canonical: Vec<u8> = Vec::new();
        append_bytes(&mut canonical, self.tenant.as_str().as_bytes());
        put_bytes(&mut canonical, &self.resource_identity);
        put_bytes(&mut canonical, &self.scope_identity);
        append_bytes(&mut canonical, self.name.as_str().as_bytes());
        append_bytes(&mut canonical, self.unit.as_str().as_bytes());
        append_bytes(&mut canonical, &self.kind_bytes);
        let ghost head = canonical@;
        let sorted = sorted_attributes(&self.point_attributes);
        let ghost all = sort_bytes(attribute_bytes(self.point_attributes@));
        let mut index: usize = 0;
        proof {
            assert(all.subrange(0, 0) =~= Seq::<Seq<u8>>::empty());
            assert(head + counted_all(all.subrange(0, 0)) =~= head);
        }
        while index < sorted.len()
            invariant
                index <= sorted@.len(),
                slices_view(sorted@) == all,
                canonical@ == head + counted_all(all.subrange(0, index as int)),
            decreases sorted@.len() - index,
        {
            proof {
                let part = all.subrange(0, index + 1);
                assert(part.drop_last() =~= all.subrange(0, index as int));
                assert(part.last() == sorted@[index as int]@);
                assert(head + counted_all(part) =~= head + counted_all(
                    all.subrange(0, index as int),
                ) + counted(sorted@[index as int]@));
            }
            append_bytes(&mut canonical, sorted[index]);
            index = index + 1;
        }
        proof {
            assert(all.subrange(0, index as int) =~= all);
            assert(canonical@ =~= self.canonical());
        }
        canonical
    }
}

/// Appends a byte string behind its length.
fn append_bytes(output: &mut Vec<u8>, bytes: &[u8])
    ensures
        final(output)@ == old(output)@ + counted(bytes@),
{
    let ghost before = output@;
    put_le(output, bytes.len() as u128, 8);
    put_bytes(output, bytes);
    proof {
        assert(output@ =~= before + counted(bytes@));
    }
}

/// Values of borrowed byte strings.
spec fn slices_view(slices: Seq<&[u8]>) -> Seq<Seq<u8>> {
    slices.map_values(|slice: &[u8]| slice@)
}

/// Inserts at the place that `insert_bytes` gives.
proof fn lemma_insert_bytes_at(sorted: Seq<Seq<u8>>, item: Seq<u8>, at: int)
    requires
        0 <= at <= sorted.len(),
        forall|i: int| at <= i < sorted.len() ==> bytes_less(item, #[trigger] sorted[i]),
        at > 0 ==> !bytes_less(item, sorted[at - 1]),
    ensures
        insert_bytes(sorted, item) == sorted.insert(at, item),
    decreases sorted.len(),
{
    if sorted.len() == 0 {
        assert(insert_bytes(sorted, item) =~= sorted.insert(at, item));
    } else if at == sorted.len() {
        assert(insert_bytes(sorted, item) =~= sorted.insert(at, item));
    } else {
        let front = sorted.drop_last();
        assert(bytes_less(item, sorted[sorted.len() - 1]));
        assert forall|i: int| at <= i < front.len() implies bytes_less(
            item,
            #[trigger] front[i],
        ) by {
            assert(front[i] == sorted[i]);
        }
        lemma_insert_bytes_at(front, item, at);
        assert(insert_bytes(sorted, item) =~= sorted.insert(at, item));
    }
}

/// Byte-wise comparison.
fn slice_is_less(left: &[u8], right: &[u8]) -> (less: bool)
    ensures
        less == bytes_less(left@, right@),
{
    let mut index: usize = 0;
    proof {
        assert(left@.subrange(0, left@.len() as int) =~= left@);
        assert(right@.subrange(0, right@.len() as int) =~= right@);
    }
    while index < left.len() && index < right.len() && left[index] == right[index]
        invariant
            index <= left@.len(),
            index <= right@.len(),
            bytes_less(left@, right@) == bytes_less(
                left@.subrange(index as int, left@.len() as int),
                right@.subrange(index as int, right@.len() as int),
            ),
        decreases left@.len() - index,
    {
        proof {
            let a = left@.subrange(index as int, left@.len() as int);
            let b = right@.subrange(index as int, right@.len() as int);
            assert(a.drop_first() =~= left@.subrange(index + 1, left@.len() as int));
            assert(b.drop_first() =~= right@.subrange(index + 1, right@.len() as int));
        }
        index = index + 1;
    }
    if index == right.len() {
        false
    } else if index == left.len() {
        true
    } else {
        left[index] < right[index]
    }
}

/// Canonical attribute bytes in ascending order.
fn sorted_attributes(attributes: &Vec<TelemetryAttribute>) -> (sorted: Vec<&[u8]>)
    ensures
        slices_view(sorted@) == sort_bytes(attribute_bytes(attributes@)),
{
    let ghost all = attribute_bytes(attributes@);
    let mut sorted: Vec<&[u8]> = Vec::new();
    let mut index: usize = 0;
    proof {
        assert(all.subrange(0, 0) =~= Seq::<Seq<u8>>::empty());
        assert(slices_view(sorted@) =~= Seq::<Seq<u8>>::empty());
    }
    while index < attributes.len()
        invariant
            index <= attributes@.len(),
            all == attribute_bytes(attributes@),
            slices_view(sorted@) == sort_bytes(all.subrange(0, index as int)),
        decreases attributes@.len() - index,
    {
        let item: &[u8] = attributes[index].canonical.as_slice();
        let ghost model = slices_view(sorted@);
        let mut at: usize = sorted.len();
        while at > 0 && slice_is_less(item, sorted[at - 1])
            invariant
                at <= sorted@.len(),
                model == slices_view(sorted@),
                forall|i: int| at <= i < model.len() ==> bytes_less(item@, #[trigger] model[i]),
            decreases at,
        {
            at = at - 1;
        }
        proof {
            assert(all.subrange(0, index + 1).drop_last() =~= all.subrange(0, index as int));
            assert(all.subrange(0, index + 1).last() == item@);
            lemma_insert_bytes_at(model, item@, at as int);
            assert(slices_view(sorted@.insert(at as int, item)) =~= model.insert(
                at as int,
                item@,
            ));
        }
        sorted.insert(at, item);
        index = index + 1;
    }
    proof {
        assert(all.subrange(0, index as int) =~= all);
    }
    sorted
}

/// Not below in the byte order.
spec fn bytes_at_most(left: Seq<u8>, right: Seq<u8>) -> bool {
    !bytes_less(right, left)
}

proof fn lemma_bytes_order()
    ensures
        total_ordering(|a: Seq<u8>, b: Seq<u8>| bytes_at_most(a, b)),
{
    let leq = |a: Seq<u8>, b: Seq<u8>| bytes_at_most(a, b);
    assert forall|a: Seq<u8>| #[trigger] leq(a, a) by {
        lemma_bytes_less_total(a, a);
    }
    assert forall|a: Seq<u8>, b: Seq<u8>| #[trigger] leq(a, b) && #[trigger] leq(b, a) implies a
        == b by {
        lemma_bytes_less_total(a, b);
    }
    assert forall|a: Seq<u8>, b: Seq<u8>, c: Seq<u8>| #[trigger]
        leq(a, b) && #[trigger] leq(b, c) implies leq(a, c) by {
        if bytes_less(c, a) {
            lemma_bytes_less_total(a, b);
            lemma_bytes_less_total(b, c);
            if a != b && b != c {
                lemma_bytes_less_transitive(a, b, c);
                lemma_bytes_less_total(a, c);
            }
        }
    }
    assert forall|a: Seq<u8>, b: Seq<u8>| #[trigger] leq(a, b) || #[trigger] leq(b, a) by {
        lemma_bytes_less_total(a, b);
    }
}

proof fn lemma_insert_bytes_sorted(sorted: Seq<Seq<u8>>, item: Seq<u8>)
    requires
        sorted_by(sorted, |a: Seq<u8>, b: Seq<u8>| bytes_at_most(a, b)),
    ensures
        sorted_by(insert_bytes(sorted, item), |a: Seq<u8>, b: Seq<u8>| bytes_at_most(a, b)),
        insert_bytes(sorted, item).to_multiset() == sorted.to_multiset().insert(item),
        forall|i: int|
            0 <= i < insert_bytes(sorted, item).len() ==> {
                let got = #[trigger] insert_bytes(sorted, item)[i];
                got == item || sorted.contains(got)
            },
    decreases sorted.len(),
{
    broadcast use vstd::seq_lib::group_to_multiset_ensures;

    let leq = |a: Seq<u8>, b: Seq<u8>| bytes_at_most(a, b);
    let result = insert_bytes(sorted, item);
    lemma_bytes_order();
    if sorted.len() == 0 {
        assert(sorted =~= Seq::empty());
        assert(result =~= sorted.push(item));
    } else if !bytes_less(item, sorted.last()) {
        assert forall|i: int, j: int| 0 <= i < j < result.len() implies #[trigger] leq(
            result[i],
            result[j],
        ) by {
            if j == sorted.len() {
                if i < sorted.len() - 1 {
                    assert(leq(sorted[i], sorted[sorted.len() - 1]));
                    assert(leq(sorted.last(), item));
                }
            } else {
                assert(leq(sorted[i], sorted[j]));
            }
        }
        assert forall|i: int| 0 <= i < result.len() implies {
            let got = #[trigger] result[i];
            got == item || sorted.contains(got)
        } by {
            if i < sorted.len() {
                assert(result[i] == sorted[i]);
            }
        }
    } else {
        let front = sorted.drop_last();
        let last = sorted.last();
        assert(sorted_by(front, leq)) by {
            assert forall|i: int, j: int| 0 <= i < j < front.len() implies #[trigger] leq(
                front[i],
                front[j],
            ) by {
                assert(leq(sorted[i], sorted[j]));
            }
        }
        lemma_insert_bytes_sorted(front, item);
        let grown = insert_bytes(front, item);
        assert(sorted =~= front.push(last));
        assert(leq(item, last)) by {
            lemma_bytes_less_total(item, last);
        }
        assert forall|i: int, j: int| 0 <= i < j < result.len() implies #[trigger] leq(
            result[i],
            result[j],
        ) by {
            if j == grown.len() {
                let got = grown[i];
                if got != item {
                    let k = choose|k: int| 0 <= k < front.len() && front[k] == got;
                    assert(leq(sorted[k], sorted[sorted.len() - 1]));
                }
            } else {
                assert(leq(grown[i], grown[j]));
            }
        }
        assert forall|i: int| 0 <= i < result.len() implies {
            let got = #[trigger] result[i];
            got == item || sorted.contains(got)
        } by {
            if i < grown.len() {
                let got = grown[i];
                if got != item {
                    let k = choose|k: int| 0 <= k < front.len() && front[k] == got;
                    assert(sorted[k] == got);
                }
            } else {
                assert(sorted[sorted.len() - 1] == last);
            }
        }
        assert(result.to_multiset() =~= sorted.to_multiset().insert(item));
    }
}

proof fn lemma_sort_bytes(items: Seq<Seq<u8>>)
    ensures
        sorted_by(sort_bytes(items), |a: Seq<u8>, b: Seq<u8>| bytes_at_most(a, b)),
        sort_bytes(items).to_multiset() == items.to_multiset(),
    decreases items.len(),
{
    broadcast use vstd::seq_lib::group_to_multiset_ensures;

    if items.len() > 0 {
        let front = items.drop_last();
        lemma_sort_bytes(front);
        lemma_insert_bytes_sorted(sort_bytes(front), items.last());
        assert(items =~= front.push(items.last()));
    } else {
        assert(sort_bytes(items) =~= items);
    }
}

/// The order of point attributes has no bearing on the identity of a series.
pub proof fn canonical_ignores_attribute_order(left: MetricIdentity, right: MetricIdentity)
    requires
        left.tenant@ == right.tenant@,
        left.resource_identity@ == right.resource_identity@,
        left.scope_identity@ == right.scope_identity@,
        left.name@ == right.name@,
        left.unit@ == right.unit@,
        left.kind_bytes@ == right.kind_bytes@,
        attribute_bytes(left.point_attributes@).to_multiset() == attribute_bytes(
            right.point_attributes@,
        ).to_multiset(),
    ensures
        left.canonical() == right.canonical(),
{
    let a = attribute_bytes(left.point_attributes@);
    let b = attribute_bytes(right.point_attributes@);
    lemma_bytes_order();
    lemma_sort_bytes(a);
    lemma_sort_bytes(b);
    lemma_sorted_unique(
        sort_bytes(a),
        sort_bytes(b),
        |a: Seq<u8>, b: Seq<u8>| bytes_at_most(a, b),
    );
}

/// Names and texts of the attributes that hold text.
pub open spec fn text_attributes(attributes: Seq<TelemetryAttribute>) -> Pairs
    decreases attributes.len(),
{
    if attributes.len() == 0 {
        Seq::empty()
    } else {
        let front = text_attributes(attributes.drop_last());
        match attributes.last().value {
            Some(TelemetryValue::Text(text)) => front.push((attributes.last().key@, text@)),
            _ => front,
        }
    }
}

/// Prometheus-visible labels of a series: text attributes of the resource, over
/// which those of the point win.
pub open spec fn prometheus_labels(identity: MetricIdentity) -> Pairs {
    collect_pairs(
        text_attributes(identity.resource_attributes@) + text_attributes(
            identity.point_attributes@,
        ),
    )
}

/// Inserts the attributes that hold text.
fn insert_text_attributes(labels: &mut LabelMap, attributes: &Vec<TelemetryAttribute>, before: Ghost<Pairs>)
    requires
        old(labels)@ == collect_pairs(before@),
    ensures
        final(labels)@ == collect_pairs(before@ + text_attributes(attributes@)),
{
    let mut index: usize = 0;
    proof {
        assert(attributes@.subrange(0, 0) =~= Seq::<TelemetryAttribute>::empty());
        assert(before@ + Pairs::empty() =~= before@);
    }
    while index < attributes.len()
        invariant
            index <= attributes@.len(),
            labels@ == collect_pairs(
                before@ + text_attributes(attributes@.subrange(0, index as int)),
            ),
        decreases attributes@.len() - index,
    {
        let ghost front = text_attributes(attributes@.subrange(0, index as int));
        proof {
            let part = attributes@.subrange(0, index + 1);
            assert(part.drop_last() =~= attributes@.subrange(0, index as int));
            assert(part.last() == attributes@[index as int]);
        }
        match &attributes[index].value {
            Some(TelemetryValue::Text(text)) => {
                proof {
                    let pair = (attributes@[index as int].key@, text@);
                    let grown = before@ + front.push(pair);
                    assert(grown =~= (before@ + front).push(pair));
                    assert(grown.drop_last() =~= before@ + front);
                }
                let _ = labels.insert(attributes[index].key.clone(), text.clone());
            },
            _ => {},
        }
        index = index + 1;
    }
    proof {
        assert(attributes@.subrange(0, index as int) =~= attributes@);
    }
}

/// Returns Prometheus-visible string labels for one canonical series.
pub fn prometheus_string_labels(identity: &MetricIdentity) -> (labels: LabelMap)
    ensures
        labels@ == prometheus_labels(*identity),
{
    let mut labels = LabelMap::new();
    let ghost resource = text_attributes(identity.resource_attributes@);
    proof {
        assert(Pairs::empty() + resource =~= resource);
    }
    insert_text_attributes(&mut labels, &identity.resource_attributes, Ghost(Pairs::empty()));
    insert_text_attributes(&mut labels, &identity.point_attributes, Ghost(resource));
    labels
}

} // verus!
