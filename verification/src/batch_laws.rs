//! What native batches keep: order, framing and the events that they stand for.
use vstd::prelude::*;
use vstd::utf8::encode_utf8;

use crate::codec::{le_value, lemma_le_bytes_len, lemma_le_round_trip, lemma_pow256_values};
use crate::error::{NativeField, NativeProtocolError};
use crate::labels::{
    ascending, collect_pairs, lemma_collect_ascending, lemma_pairs_less_total,
    lemma_pairs_less_transitive, pairs_less, Pairs,
};
use crate::native_batch::{
    bad_metadata, batch_record_count, batch_stream_count, batch_tenant_len, parse_batch,
    parse_entries, parse_entry, parse_entry_body, parse_stream, parse_stream_body, parse_streams,
    total_entries, BatchReader, WireBatch, WireEntry, WireStream, BATCH_HEADER_BYTES,
};
use crate::native_decode::{
    cohort_of, entries_of, event_fields, event_of, events_of, stream_entries, stream_events,
};
use crate::native_encode::{
    add_entry, encode_error, encoded_batch, group_entries, grouping_keeps_count, streams_ascend,
    wire_entry_of,
};
use crate::native_laws::{
    encoded_batch_round_trip, grouped_streams_ascend, proper_entry, readers_agree, with_labels,
};
use crate::native_wire::{parse_pair, parse_pairs, parse_text, parse_text16};
use crate::record::{EntryModel, EventModel};

verus! {

broadcast use vstd::seq_lib::group_seq_properties;

/// Entries in ascending label order; entries with the same labels stand together.
pub open spec fn labels_ascend(entries: Seq<EntryModel>) -> bool {
    forall|i: int, j: int|
        0 <= i < j < entries.len() ==> (#[trigger] entries[i]).labels == (
        #[trigger] entries[j]).labels || pairs_less(entries[i].labels, entries[j].labels)
}

/// The entries of each label map are the same, in the same order.
pub open spec fn same_streams(first: Seq<EntryModel>, second: Seq<EntryModel>) -> bool {
    forall|labels: Pairs| #[trigger] with_labels(first, labels) == with_labels(second, labels)
}

proof fn lemma_entries_ascend(streams: Seq<WireStream>)
    requires
        streams_ascend(streams),
        forall|i: int| 0 <= i < streams.len() ==> ascending((#[trigger] streams[i]).labels),
    ensures
        labels_ascend(entries_of(streams)),
        forall|i: int|
            0 <= i < entries_of(streams).len() ==> exists|k: int|
                0 <= k < streams.len() && (#[trigger] entries_of(streams)[i]).labels == (
                #[trigger] streams[k]).labels,
    decreases streams.len(),
{
    if streams.len() > 0 {
        let front = streams.drop_last();
        let last = streams.last();
        let before = entries_of(front);
        let all = entries_of(streams);
        assert forall|i: int| 0 <= i < front.len() implies ascending(
            (#[trigger] front[i]).labels,
        ) by {
            assert(front[i] == streams[i]);
        }
        assert(streams_ascend(front)) by {
            assert forall|i: int, j: int| 0 <= i < j < front.len() implies pairs_less(
                (#[trigger] front[i]).labels,
                (#[trigger] front[j]).labels,
            ) by {
                assert(front[i] == streams[i] && front[j] == streams[j]);
            }
        }
        lemma_entries_ascend(front);
        assert(streams[streams.len() - 1] == last);
        lemma_collect_ascending(last.labels);
        assert forall|i: int| before.len() <= i < all.len() implies (#[trigger] all[i]).labels
            == last.labels by {
            assert(all[i] == stream_entries(last)[i - before.len()]);
        }
        assert forall|i: int| 0 <= i < all.len() implies exists|k: int|
            0 <= k < streams.len() && (#[trigger] all[i]).labels == (
            #[trigger] streams[k]).labels by {
            if i < before.len() {
                assert(all[i] == before[i]);
                let k = choose|k: int|
                    0 <= k < front.len() && before[i].labels == (#[trigger] front[k]).labels;
                assert(streams[k] == front[k]);
            } else {
                assert(all[i].labels == streams[streams.len() - 1].labels);
            }
        }
        assert forall|i: int, j: int| 0 <= i < j < all.len() implies (#[trigger] all[i]).labels
            == (#[trigger] all[j]).labels || pairs_less(all[i].labels, all[j].labels) by {
            if j < before.len() {
                assert(all[i] == before[i] && all[j] == before[j]);
            } else if i < before.len() {
                assert(all[i] == before[i]);
                let k = choose|k: int|
                    0 <= k < front.len() && before[i].labels == (#[trigger] front[k]).labels;
                assert(front[k] == streams[k]);
                assert(pairs_less(streams[k].labels, streams[streams.len() - 1].labels));
            }
        }
    }
}

proof fn lemma_count_in_stream(entries: Seq<EntryModel>, entry: EntryModel)
    ensures
        entries.to_multiset().count(entry) == with_labels(
            entries,
            entry.labels,
        ).to_multiset().count(entry),
    decreases entries.len(),
{
    if entries.len() > 0 {
        let front = entries.drop_last();
        lemma_count_in_stream(front, entry);
        assert(entries =~= front.push(entries.last()));
        vstd::seq_lib::to_multiset_build(front, entries.last());
        vstd::seq_lib::to_multiset_build(with_labels(front, entry.labels), entries.last());
    } else {
        assert(with_labels(entries, entry.labels) =~= entries);
    }
}

proof fn lemma_same_streams_permute(first: Seq<EntryModel>, second: Seq<EntryModel>)
    requires
        same_streams(first, second),
    ensures
        first.to_multiset() == second.to_multiset(),
        first.len() == second.len(),
{
    assert forall|entry: EntryModel|
        first.to_multiset().count(entry) == second.to_multiset().count(entry) by {
        lemma_count_in_stream(first, entry);
        lemma_count_in_stream(second, entry);
        assert(with_labels(first, entry.labels) == with_labels(second, entry.labels));
    }
    assert(first.to_multiset() =~= second.to_multiset());
    vstd::seq_lib::to_multiset_len(first);
    vstd::seq_lib::to_multiset_len(second);
}

/// Decoding an encoded batch sorts its entries stably by their labels: the tenant is kept,
/// the entries are those that were given, entries with the same labels stand together in the
/// order in which they were given, and the label maps ascend.
pub proof fn decoding_sorts_by_labels(tenant: Seq<char>, entries: Seq<EntryModel>)
    requires
        encode_error(tenant, entries) is None,
        forall|i: int| 0 <= i < entries.len() ==> proper_entry(#[trigger] entries[i]),
    ensures
        parse_batch(encoded_batch(tenant, entries), BatchReader::Entries) matches Ok(batch) && {
            &&& batch.tenant == tenant
            &&& entries_of(batch.streams).to_multiset() == entries.to_multiset()
            &&& entries_of(batch.streams).len() == entries.len()
            &&& labels_ascend(entries_of(batch.streams))
            &&& same_streams(entries_of(batch.streams), entries)
        },
{
    let streams = group_entries(entries);
    encoded_batch_round_trip(tenant, entries, BatchReader::Entries);
    grouped_streams_ascend(entries);
    crate::native_laws::lemma_grouped_labels(entries);
    lemma_entries_ascend(streams);
    lemma_same_streams_permute(entries_of(streams), entries);
}

/// The entries of the stream with these labels; none where there is no such stream.
spec fn stream_of(streams: Seq<WireStream>, labels: Pairs) -> Seq<WireEntry>
    decreases streams.len(),
{
    if streams.len() == 0 {
        Seq::empty()
    } else if streams[0].labels == labels {
        streams[0].entries
    } else {
        stream_of(streams.drop_first(), labels)
    }
}

spec fn none_empty(streams: Seq<WireStream>) -> bool {
    forall|i: int| 0 <= i < streams.len() ==> (#[trigger] streams[i]).entries.len() > 0
}

proof fn lemma_rest(streams: Seq<WireStream>)
    requires
        streams.len() > 0,
        streams_ascend(streams),
        none_empty(streams),
    ensures
        streams_ascend(streams.drop_first()),
        none_empty(streams.drop_first()),
        forall|i: int|
            0 <= i < streams.drop_first().len() ==> pairs_less(
                streams[0].labels,
                (#[trigger] streams.drop_first()[i]).labels,
            ),
{
    let rest = streams.drop_first();
    assert forall|i: int| 0 <= i < rest.len() implies (#[trigger] rest[i]).entries.len() > 0
        && pairs_less(streams[0].labels, rest[i].labels) by {
        assert(rest[i] == streams[i + 1]);
    }
    assert forall|i: int, j: int| 0 <= i < j < rest.len() implies pairs_less(
        (#[trigger] rest[i]).labels,
        (#[trigger] rest[j]).labels,
    ) by {
        assert(rest[i] == streams[i + 1] && rest[j] == streams[j + 1]);
    }
}

proof fn lemma_stream_of_absent(streams: Seq<WireStream>, labels: Pairs)
    requires
        forall|i: int| 0 <= i < streams.len() ==> (#[trigger] streams[i]).labels != labels,
    ensures
        stream_of(streams, labels) == Seq::<WireEntry>::empty(),
    decreases streams.len(),
{
    if streams.len() > 0 {
        let rest = streams.drop_first();
        assert forall|i: int| 0 <= i < rest.len() implies (#[trigger] rest[i]).labels
            != labels by {
            assert(rest[i] == streams[i + 1]);
        }
        assert(streams[0].labels != labels);
        lemma_stream_of_absent(rest, labels);
    }
}

proof fn lemma_add_to_stream(
    streams: Seq<WireStream>,
    own: Pairs,
    entry: WireEntry,
    labels: Pairs,
)
    requires
        streams_ascend(streams),
        none_empty(streams),
    ensures
        stream_of(add_entry(streams, own, entry), labels) == if own == labels {
            stream_of(streams, labels).push(entry)
        } else {
            stream_of(streams, labels)
        },
        none_empty(add_entry(streams, own, entry)),
    decreases streams.len(),
{
    let result = add_entry(streams, own, entry);
    let none = Seq::<WireEntry>::empty();
    if streams.len() == 0 {
        assert(none.push(entry) =~= seq![entry]);
        assert(result.drop_first() =~= Seq::<WireStream>::empty());
    } else {
        let rest = streams.drop_first();
        lemma_rest(streams);
        if streams[0].labels == own {
            assert(result.drop_first() =~= rest);
            assert forall|i: int| 0 <= i < result.len() implies (
            #[trigger] result[i]).entries.len() > 0 by {
                if i > 0 {
                    assert(result[i] == streams[i]);
                }
            }
        } else if pairs_less(own, streams[0].labels) {
            assert(result.drop_first() =~= streams);
            assert forall|i: int| 0 <= i < streams.len() implies (#[trigger] streams[i]).labels
                != own by {
                if i > 0 {
                    assert(rest[i - 1] == streams[i]);
                    lemma_pairs_less_transitive(own, streams[0].labels, streams[i].labels);
                }
                lemma_pairs_less_total(own, streams[i].labels);
            }
            lemma_stream_of_absent(streams, own);
            assert(none.push(entry) =~= seq![entry]);
            assert forall|i: int| 0 <= i < result.len() implies (
            #[trigger] result[i]).entries.len() > 0 by {
                if i > 0 {
                    assert(result[i] == streams[i - 1]);
                }
            }
        } else {
            let tail = add_entry(rest, own, entry);
            lemma_add_to_stream(rest, own, entry, labels);
            assert(result.drop_first() =~= tail);
            assert(result[0] == streams[0]);
            assert forall|i: int| 0 <= i < result.len() implies (
            #[trigger] result[i]).entries.len() > 0 by {
                if i > 0 {
                    assert(result[i] == tail[i - 1]);
                }
            }
        }
    }
}

proof fn lemma_grouped(entries: Seq<EntryModel>, labels: Pairs)
    ensures
        streams_ascend(group_entries(entries)),
        none_empty(group_entries(entries)),
        stream_of(group_entries(entries), labels) == with_labels(entries, labels).map_values(
            |entry: EntryModel| wire_entry_of(entry),
        ),
    decreases entries.len(),
{
    let wire = |entry: EntryModel| wire_entry_of(entry);
    grouped_streams_ascend(entries);
    if entries.len() > 0 {
        let front = entries.drop_last();
        let last = entries.last();
        lemma_grouped(front, labels);
        lemma_add_to_stream(group_entries(front), last.labels, wire_entry_of(last), labels);
        assert(with_labels(front, labels).push(last).map_values(wire) =~= with_labels(
            front,
            labels,
        ).map_values(wire).push(wire_entry_of(last)));
    } else {
        assert(with_labels(entries, labels).map_values(wire) =~= Seq::<WireEntry>::empty());
    }
}

proof fn lemma_streams_unique(left: Seq<WireStream>, right: Seq<WireStream>)
    requires
        streams_ascend(left),
        streams_ascend(right),
        none_empty(left),
        none_empty(right),
        forall|labels: Pairs| #[trigger] stream_of(left, labels) == stream_of(right, labels),
    ensures
        left == right,
    decreases left.len(),
{
    if left.len() == 0 {
        if right.len() > 0 {
            assert(right[0].entries.len() > 0);
            assert(stream_of(left, right[0].labels) == stream_of(right, right[0].labels));
        }
        assert(left =~= right);
    } else {
        let own = left[0].labels;
        assert(left[0].entries.len() > 0);
        assert(stream_of(left, own) == stream_of(right, own));
        assert(right.len() > 0);
        lemma_rest(left);
        lemma_rest(right);
        let other = right[0].labels;
        assert(right[0].entries.len() > 0);
        assert(stream_of(left, other) == stream_of(right, other));
        lemma_pairs_less_total(own, other);
        if pairs_less(own, other) {
            lemma_all_above(right, own);
            lemma_stream_of_absent(right, own);
        }
        if pairs_less(other, own) {
            lemma_all_above(left, other);
            lemma_stream_of_absent(left, other);
        }
        assert(own == other);
        assert(left[0] =~= right[0]);
        let first = left.drop_first();
        let second = right.drop_first();
        assert forall|labels: Pairs| #[trigger] stream_of(first, labels) == stream_of(
            second,
            labels,
        ) by {
            assert(stream_of(left, labels) == stream_of(right, labels));
            if labels == own {
                assert forall|i: int| 0 <= i < first.len() implies (#[trigger] first[i]).labels
                    != own by {
                    lemma_pairs_less_total(own, first[i].labels);
                }
                assert forall|i: int| 0 <= i < second.len() implies (#[trigger] second[i]).labels
                    != own by {
                    lemma_pairs_less_total(own, second[i].labels);
                }
                lemma_stream_of_absent(first, own);
                lemma_stream_of_absent(second, own);
            }
        }
        lemma_streams_unique(first, second);
        assert(left =~= seq![left[0]] + first);
        assert(right =~= seq![right[0]] + second);
    }
}

proof fn lemma_all_above(streams: Seq<WireStream>, labels: Pairs)
    requires
        streams.len() > 0,
        streams_ascend(streams),
        pairs_less(labels, streams[0].labels),
    ensures
        forall|i: int| 0 <= i < streams.len() ==> (#[trigger] streams[i]).labels != labels,
{
    assert forall|i: int| 0 <= i < streams.len() implies (#[trigger] streams[i]).labels
        != labels by {
        if i > 0 {
            lemma_pairs_less_transitive(labels, streams[0].labels, streams[i].labels);
        }
        lemma_pairs_less_total(labels, streams[i].labels);
    }
}

proof fn lemma_in_stream(entries: Seq<EntryModel>, entry: EntryModel)
    ensures
        entries.contains(entry) <==> with_labels(entries, entry.labels).contains(entry),
{
    lemma_count_in_stream(entries, entry);
    vstd::seq_lib::to_multiset_contains(entries, entry);
    vstd::seq_lib::to_multiset_contains(with_labels(entries, entry.labels), entry);
}

/// Encoding does not depend on how the entries of different label maps are interleaved:
/// where the entries of each label map are the same, in the same order, so are the bytes, or
/// the reason for a refusal.
pub proof fn interleaving_is_free(
    tenant: Seq<char>,
    first: Seq<EntryModel>,
    second: Seq<EntryModel>,
)
    requires
        same_streams(first, second),
    ensures
        encoded_batch(tenant, first) == encoded_batch(tenant, second),
        encode_error(tenant, first) == encode_error(tenant, second),
{
    let left = group_entries(first);
    let right = group_entries(second);
    assert forall|labels: Pairs| #[trigger] stream_of(left, labels) == stream_of(
        right,
        labels,
    ) by {
        lemma_grouped(first, labels);
        lemma_grouped(second, labels);
        assert(with_labels(first, labels) == with_labels(second, labels));
    }
    lemma_grouped(first, Seq::empty());
    lemma_grouped(second, Seq::empty());
    lemma_streams_unique(left, right);
    lemma_same_streams_permute(first, second);
    if exists|i: int| 0 <= i < first.len() && (#[trigger] first[i]).timestamp < 0 {
        let i = choose|i: int| 0 <= i < first.len() && (#[trigger] first[i]).timestamp < 0;
        lemma_moved(first, second, i);
    }
    if exists|i: int| 0 <= i < second.len() && (#[trigger] second[i]).timestamp < 0 {
        let i = choose|i: int| 0 <= i < second.len() && (#[trigger] second[i]).timestamp < 0;
        lemma_moved(second, first, i);
    }
}

proof fn lemma_moved(first: Seq<EntryModel>, second: Seq<EntryModel>, i: int)
    requires
        same_streams(first, second),
        0 <= i < first.len(),
    ensures
        exists|k: int| 0 <= k < second.len() && #[trigger] second[k] == first[i],
{
    assert(first.contains(first[i]));
    lemma_in_stream(first, first[i]);
    lemma_in_stream(second, first[i]);
    assert(with_labels(first, first[i].labels) == with_labels(second, first[i].labels));
    assert(second.contains(first[i]));
}

/// The label maps of entries.
pub open spec fn label_maps(entries: Seq<EntryModel>) -> Set<Pairs> {
    entries.map_values(|entry: EntryModel| entry.labels).to_set()
}

/// An encoded batch declares as many streams as there are different label maps, and as many
/// records as there are entries.
pub proof fn batch_header_counts(tenant: Seq<char>, entries: Seq<EntryModel>)
    requires
        encode_error(tenant, entries) is None,
    ensures
        batch_stream_count(encoded_batch(tenant, entries)) == label_maps(entries).len(),
        batch_record_count(encoded_batch(tenant, entries)) == entries.len(),
{
    let streams = group_entries(entries);
    let total = total_entries(streams);
    let bytes = encoded_batch(tenant, entries);
    let names = streams.map_values(|stream: WireStream| stream.labels);
    let maps = entries.map_values(|entry: EntryModel| entry.labels);
    grouping_keeps_count(entries);
    crate::native_laws::lemma_batch_parts(WireBatch { tenant, streams });
    lemma_pow256_values();
    lemma_le_bytes_len(streams.len(), 2);
    lemma_le_bytes_len(total, 4);
    lemma_le_round_trip(streams.len(), 2);
    lemma_le_round_trip(total, 4);
    lemma_grouped(entries, Seq::empty());
    assert(names.no_duplicates()) by {
        assert forall|i: int, j: int|
            0 <= i < names.len() && 0 <= j < names.len() && i != j implies names[i]
            != names[j] by {
            lemma_pairs_less_total(streams[i].labels, streams[j].labels);
            if i < j {
                assert(pairs_less(streams[i].labels, streams[j].labels));
            } else {
                assert(pairs_less(streams[j].labels, streams[i].labels));
            }
        }
    }
    names.unique_seq_to_set();
    assert(names.to_set() =~= maps.to_set()) by {
        assert forall|labels: Pairs| names.contains(labels) == maps.contains(labels) by {
            lemma_grouped(entries, labels);
            lemma_stream_listed(streams, labels);
            lemma_label_listed(entries, labels);
            assert(with_labels(entries, labels).map_values(
                |entry: EntryModel| wire_entry_of(entry),
            ).len() == with_labels(entries, labels).len());
        }
    }
}

proof fn lemma_stream_listed(streams: Seq<WireStream>, labels: Pairs)
    requires
        none_empty(streams),
    ensures
        streams.map_values(|stream: WireStream| stream.labels).contains(labels) <==> stream_of(
            streams,
            labels,
        ).len() > 0,
    decreases streams.len(),
{
    let names = streams.map_values(|stream: WireStream| stream.labels);
    if streams.len() > 0 {
        let rest = streams.drop_first();
        assert forall|i: int| 0 <= i < rest.len() implies (
        #[trigger] rest[i]).entries.len() > 0 by {
            assert(rest[i] == streams[i + 1]);
        }
        lemma_stream_listed(rest, labels);
        let few = rest.map_values(|stream: WireStream| stream.labels);
        assert(names[0] == streams[0].labels);
        assert(streams[0].entries.len() > 0);
        if few.contains(labels) {
            let k = choose|k: int| 0 <= k < few.len() && few[k] == labels;
            assert(names[k + 1] == few[k]);
        }
        if names.contains(labels) && streams[0].labels != labels {
            let k = choose|k: int| 0 <= k < names.len() && names[k] == labels;
            assert(few[k - 1] == labels);
        }
    }
}

proof fn lemma_label_listed(entries: Seq<EntryModel>, labels: Pairs)
    ensures
        entries.map_values(|entry: EntryModel| entry.labels).contains(labels) <==> with_labels(
            entries,
            labels,
        ).len() > 0,
    decreases entries.len(),
{
    let maps = entries.map_values(|entry: EntryModel| entry.labels);
    if entries.len() > 0 {
        let front = entries.drop_last();
        lemma_label_listed(front, labels);
        let few = front.map_values(|entry: EntryModel| entry.labels);
        assert(maps[entries.len() - 1] == entries.last().labels);
        if few.contains(labels) {
            let k = choose|k: int| 0 <= k < few.len() && few[k] == labels;
            assert(maps[k] == few[k]);
        }
        if maps.contains(labels) && entries.last().labels != labels {
            let k = choose|k: int| 0 <= k < maps.len() && maps[k] == labels;
            assert(few[k] == labels);
        }
    }
}

/// Bytes with more bytes behind them.
pub open spec fn begins_with(long: Seq<u8>, bytes: Seq<u8>) -> bool {
    bytes.len() <= long.len() && long.subrange(0, bytes.len() as int) == bytes
}

proof fn lemma_window(long: Seq<u8>, bytes: Seq<u8>, from: int, to: int)
    requires
        begins_with(long, bytes),
        0 <= from <= to <= bytes.len(),
    ensures
        long.subrange(from, to) == bytes.subrange(from, to),
{
    assert(long.subrange(from, to) =~= long.subrange(0, bytes.len() as int).subrange(from, to));
}

proof fn lemma_text_extends(long: Seq<u8>, bytes: Seq<u8>, at: int, field: NativeField)
    requires
        begins_with(long, bytes),
        0 <= at,
        parse_text16(bytes, at, field) is Ok,
    ensures
        parse_text16(long, at, field) == parse_text16(bytes, at, field),
        parse_text16(bytes, at, field)->Ok_0.1 >= at,
{
    lemma_window(long, bytes, at, at + 2);
    let len = le_value(bytes.subrange(at, at + 2));
    lemma_window(long, bytes, at + 2, at + 2 + len);
}

proof fn lemma_pairs_extend(
    long: Seq<u8>,
    bytes: Seq<u8>,
    at: int,
    count: nat,
    key_field: NativeField,
    value_field: NativeField,
    bad: NativeProtocolError,
)
    requires
        begins_with(long, bytes),
        0 <= at,
        parse_pairs(bytes, at, count, key_field, value_field, bad) is Ok,
    ensures
        parse_pairs(long, at, count, key_field, value_field, bad) == parse_pairs(
            bytes,
            at,
            count,
            key_field,
            value_field,
            bad,
        ),
        parse_pairs(bytes, at, count, key_field, value_field, bad)->Ok_0.1 >= at,
    decreases count,
{
    if count > 0 {
        lemma_pairs_extend(long, bytes, at, (count - 1) as nat, key_field, value_field, bad);
        let next = parse_pairs(
            bytes,
            at,
            (count - 1) as nat,
            key_field,
            value_field,
            bad,
        )->Ok_0.1;
        lemma_text_extends(long, bytes, next, key_field);
        let middle = parse_text16(bytes, next, key_field)->Ok_0.1;
        lemma_text_extends(long, bytes, middle, value_field);
        assert(parse_pair(long, next, key_field, value_field) == parse_pair(
            bytes,
            next,
            key_field,
            value_field,
        ));
    }
}

proof fn lemma_entry_extends(long: Seq<u8>, bytes: Seq<u8>, at: int, reader: BatchReader)
    requires
        begins_with(long, bytes),
        0 <= at,
        parse_entry(bytes, at, reader) is Ok,
    ensures
        parse_entry(long, at, reader) == parse_entry(bytes, at, reader),
        parse_entry(bytes, at, reader)->Ok_0.1 >= at,
{
    assert(at + 16 <= bytes.len());
    lemma_window(long, bytes, at, at + 8);
    lemma_window(long, bytes, at + 8, at + 12);
    lemma_window(long, bytes, at + 12, at + 14);
    lemma_window(long, bytes, at + 14, at + 16);
    let timestamp = le_value(bytes.subrange(at, at + 8));
    let line_len = le_value(bytes.subrange(at + 8, at + 12));
    let count = le_value(bytes.subrange(at + 12, at + 14));
    assert(parse_entry(bytes, at, reader) == parse_entry_body(
        bytes,
        at + 16,
        timestamp,
        line_len,
        count,
        reader,
    ));
    assert(parse_text(bytes, at + 16, line_len, NativeField::LogLine) is Ok);
    lemma_window(long, bytes, at + 16, at + 16 + line_len);
    lemma_pairs_extend(
        long,
        bytes,
        at + 16 + line_len,
        count,
        NativeField::MetadataKey,
        NativeField::MetadataValue,
        bad_metadata(reader, count),
    );
}

proof fn lemma_entries_extend(
    long: Seq<u8>,
    bytes: Seq<u8>,
    at: int,
    count: nat,
    reader: BatchReader,
)
    requires
        begins_with(long, bytes),
        0 <= at,
        parse_entries(bytes, at, count, reader) is Ok,
    ensures
        parse_entries(long, at, count, reader) == parse_entries(bytes, at, count, reader),
        parse_entries(bytes, at, count, reader)->Ok_0.1 >= at,
    decreases count,
{
    if count > 0 {
        lemma_entries_extend(long, bytes, at, (count - 1) as nat, reader);
        let next = parse_entries(bytes, at, (count - 1) as nat, reader)->Ok_0.1;
        lemma_entry_extends(long, bytes, next, reader);
    }
}

proof fn lemma_stream_extends(
    long: Seq<u8>,
    bytes: Seq<u8>,
    at: int,
    seen: nat,
    declared: nat,
    reader: BatchReader,
)
    requires
        begins_with(long, bytes),
        0 <= at,
        parse_stream(bytes, at, seen, declared, reader) is Ok,
    ensures
        parse_stream(long, at, seen, declared, reader) == parse_stream(
            bytes,
            at,
            seen,
            declared,
            reader,
        ),
        parse_stream(bytes, at, seen, declared, reader)->Ok_0.1 >= at,
{
    assert(at + 8 <= bytes.len());
    lemma_window(long, bytes, at, at + 2);
    lemma_window(long, bytes, at + 2, at + 4);
    lemma_window(long, bytes, at + 4, at + 8);
    let label_count = le_value(bytes.subrange(at, at + 2));
    let entry_count = le_value(bytes.subrange(at + 4, at + 8));
    assert(parse_stream(bytes, at, seen, declared, reader) == parse_stream_body(
        bytes,
        at + 8,
        label_count,
        entry_count,
        seen,
        declared,
        reader,
    ));
    lemma_pairs_extend(
        long,
        bytes,
        at + 8,
        label_count,
        NativeField::LabelKey,
        NativeField::LabelValue,
        NativeProtocolError::BadLabel,
    );
    let next = parse_pairs(
        bytes,
        at + 8,
        label_count,
        NativeField::LabelKey,
        NativeField::LabelValue,
        NativeProtocolError::BadLabel,
    )->Ok_0.1;
    lemma_entries_extend(long, bytes, next, entry_count, reader);
}

proof fn lemma_streams_extend(
    long: Seq<u8>,
    bytes: Seq<u8>,
    at: int,
    count: nat,
    declared: nat,
    reader: BatchReader,
)
    requires
        begins_with(long, bytes),
        0 <= at,
        parse_streams(bytes, at, count, declared, reader) is Ok,
    ensures
        parse_streams(long, at, count, declared, reader) == parse_streams(
            bytes,
            at,
            count,
            declared,
            reader,
        ),
        parse_streams(bytes, at, count, declared, reader)->Ok_0.1 >= at,
    decreases count,
{
    if count > 0 {
        lemma_streams_extend(long, bytes, at, (count - 1) as nat, declared, reader);
        let front = parse_streams(bytes, at, (count - 1) as nat, declared, reader)->Ok_0;
        lemma_stream_extends(long, bytes, front.1, total_entries(front.0), declared, reader);
    }
}

/// A batch cannot be cut short or added to: of two different payloads that begin alike, one
/// the beginning of the other, no reader accepts both.
pub proof fn accepted_batches_are_whole(long: Seq<u8>, bytes: Seq<u8>, reader: BatchReader)
    requires
        begins_with(long, bytes),
        parse_batch(bytes, reader) is Ok,
        parse_batch(long, reader) is Ok,
    ensures
        long == bytes,
{
    lemma_window(long, bytes, 4, 6);
    lemma_window(long, bytes, 6, 8);
    lemma_window(long, bytes, 8, 12);
    lemma_streams_extend(
        long,
        bytes,
        BATCH_HEADER_BYTES + batch_tenant_len(bytes),
        batch_stream_count(bytes),
        batch_record_count(bytes),
        reader,
    );
    assert(long.subrange(0, bytes.len() as int) =~= long);
}

/// An entry and an event that one record of a batch stands for.
pub open spec fn same_record(tenant: Seq<char>, entry: EntryModel, event: EventModel) -> bool {
    &&& event.timestamp == entry.timestamp
    &&& event.message == entry.line
    &&& exists|labels: Pairs, metadata: Pairs|
        {
            &&& #[trigger] event_fields(tenant, labels, metadata) == event.fields
            &&& collect_pairs(labels) == entry.labels
            &&& collect_pairs(metadata) == entry.metadata
            &&& event.cohort == cohort_of(labels)
        }
}

proof fn lemma_records_agree(tenant: Seq<char>, streams: Seq<WireStream>)
    requires
        crate::native_decode::timestamps_fit(streams),
    ensures
        events_of(tenant, streams).len() == entries_of(streams).len(),
        forall|i: int|
            0 <= i < entries_of(streams).len() ==> same_record(
                tenant,
                #[trigger] entries_of(streams)[i],
                events_of(tenant, streams)[i],
            ),
    decreases streams.len(),
{
    if streams.len() > 0 {
        let front = streams.drop_last();
        let last = streams.last();
        assert(streams[streams.len() - 1] == last);
        assert(crate::native_decode::timestamps_fit(front)) by {
            assert forall|i: int, j: int|
                0 <= i < front.len() && 0 <= j < front[i].entries.len() implies (
            #[trigger] front[i].entries[j]).timestamp <= i64::MAX by {
                assert(front[i] == streams[i]);
                assert(streams[i].entries[j].timestamp <= i64::MAX);
            }
        }
        lemma_records_agree(tenant, front);
        let before = entries_of(front).len();
        assert forall|i: int| 0 <= i < entries_of(streams).len() implies same_record(
            tenant,
            #[trigger] entries_of(streams)[i],
            events_of(tenant, streams)[i],
        ) by {
            if i < before {
                assert(entries_of(streams)[i] == entries_of(front)[i]);
                assert(events_of(tenant, streams)[i] == events_of(tenant, front)[i]);
            } else {
                let wire = last.entries[i - before];
                assert(streams[streams.len() - 1].entries[i - before].timestamp <= i64::MAX);
                assert(entries_of(streams)[i] == stream_entries(last)[i - before]);
                assert(events_of(tenant, streams)[i] == stream_events(tenant, last)[i - before]);
                let event = event_of(tenant, last.labels, wire);
                assert(event.fields == event_fields(tenant, last.labels, wire.metadata));
            }
        }
    }
}

/// The events of a batch are its entries: the tenant is the same, there is one event for
/// each entry, in its place, with its timestamp and its line, and the fields are the tenant,
/// the labels and the metadata, in the order in which the batch lists them, and no others.
/// The events of one stream share one cohort.
pub proof fn events_are_entries(bytes: Seq<u8>)
    requires
        parse_batch(bytes, BatchReader::Entries) is Ok,
    ensures
        parse_batch(bytes, BatchReader::Events) matches Ok(batch) && {
            &&& parse_batch(bytes, BatchReader::Entries) == Ok::<_, NativeProtocolError>(batch)
            &&& events_of(batch.tenant, batch.streams).len() == entries_of(batch.streams).len()
            &&& forall|i: int|
                0 <= i < entries_of(batch.streams).len() ==> same_record(
                    batch.tenant,
                    #[trigger] entries_of(batch.streams)[i],
                    events_of(batch.tenant, batch.streams)[i],
                )
            &&& forall|i: int, j: int|
                0 <= i < batch.streams.len() && 0 <= j < batch.streams[i].entries.len()
                    ==> #[trigger] stream_events(batch.tenant, batch.streams[i])[j].cohort
                    == cohort_of(batch.streams[i].labels)
        },
{
    readers_agree(bytes, BatchReader::Entries, BatchReader::Events);
    crate::native_decode::lemma_parsed_batch_fits(bytes, BatchReader::Entries);
    let batch = parse_batch(bytes, BatchReader::Entries)->Ok_0;
    lemma_records_agree(batch.tenant, batch.streams);
}

/// The event that an entry becomes when it is written and read back.
pub open spec fn event_of_entry(tenant: Seq<char>, entry: EntryModel) -> EventModel {
    EventModel {
        timestamp: entry.timestamp as u64,
        message: entry.line,
        fields: event_fields(tenant, entry.labels, entry.metadata),
        cohort: cohort_of(entry.labels),
    }
}

proof fn lemma_proper_events(tenant: Seq<char>, streams: Seq<WireStream>)
    requires
        crate::native_decode::timestamps_fit(streams),
        forall|i: int| 0 <= i < streams.len() ==> ascending((#[trigger] streams[i]).labels),
        forall|i: int, j: int|
            0 <= i < streams.len() && 0 <= j < streams[i].entries.len() ==> ascending(
                (#[trigger] streams[i].entries[j]).metadata,
            ),
    ensures
        events_of(tenant, streams) == entries_of(streams).map_values(
            |entry: EntryModel| event_of_entry(tenant, entry),
        ),
    decreases streams.len(),
{
    let turn = |entry: EntryModel| event_of_entry(tenant, entry);
    if streams.len() == 0 {
        assert(events_of(tenant, streams) =~= entries_of(streams).map_values(turn));
    } else {
        let front = streams.drop_last();
        let last = streams.last();
        assert(streams[streams.len() - 1] == last);
        assert forall|i: int| 0 <= i < front.len() implies ascending(
            (#[trigger] front[i]).labels,
        ) by {
            assert(front[i] == streams[i]);
        }
        assert forall|i: int, j: int|
            0 <= i < front.len() && 0 <= j < front[i].entries.len() implies (
        #[trigger] front[i].entries[j]).timestamp <= i64::MAX && ascending(
            front[i].entries[j].metadata,
        ) by {
            assert(front[i] == streams[i]);
            assert(streams[i].entries[j].timestamp <= i64::MAX);
        }
        lemma_proper_events(tenant, front);
        lemma_collect_ascending(last.labels);
        assert forall|j: int| 0 <= j < last.entries.len() implies turn(
            #[trigger] stream_entries(last)[j],
        ) == stream_events(tenant, last)[j] by {
            let wire = streams[streams.len() - 1].entries[j];
            lemma_collect_ascending(wire.metadata);
            assert(wire.timestamp <= i64::MAX);
        }
        assert(stream_entries(last).map_values(turn) =~= stream_events(tenant, last));
        assert(events_of(tenant, streams) =~= entries_of(streams).map_values(turn));
    }
}

/// Every entry that is written is read back as its event: its timestamp and line, and the
/// fields of the tenant, of its labels and of its metadata in map order. Entries with the
/// same labels share one cohort.
pub proof fn written_entries_become_events(tenant: Seq<char>, entries: Seq<EntryModel>)
    requires
        encode_error(tenant, entries) is None,
        forall|i: int| 0 <= i < entries.len() ==> proper_entry(#[trigger] entries[i]),
    ensures
        parse_batch(encoded_batch(tenant, entries), BatchReader::Events) matches Ok(batch) && {
            &&& batch.tenant == tenant
            &&& events_of(tenant, batch.streams) == entries_of(batch.streams).map_values(
                |entry: EntryModel| event_of_entry(tenant, entry),
            )
            &&& entries_of(batch.streams).to_multiset() == entries.to_multiset()
        },
{
    let streams = group_entries(entries);
    encoded_batch_round_trip(tenant, entries, BatchReader::Events);
    encoded_batch_round_trip(tenant, entries, BatchReader::Entries);
    decoding_sorts_by_labels(tenant, entries);
    crate::native_laws::lemma_grouped_labels(entries);
    crate::native_decode::lemma_parsed_batch_fits(
        encoded_batch(tenant, entries),
        BatchReader::Events,
    );
    lemma_proper_events(tenant, streams);
}

} // verus!
