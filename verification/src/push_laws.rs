//! What becomes of pushed values: one entry for each, and nothing else.
use vstd::prelude::*;

use crate::api_error::ApiFault;
use crate::labels::{ascending, has_key, lookup, Pairs};
use crate::logql_laws::is_name;
use crate::loki_entries::{
    first_label, json_push_of, metadata_of, normalized_labels, proto_entries_of, proto_entry_of,
    proto_push_of, pushed_entry, service_names, stream_entries_of, value_entries, ItemModel,
    ProtoEntryModel, ProtoStreamModel, PushStreamModel,
};
use crate::loki_query::{label_name, label_set_of, labels_fault, names_fault};
use crate::loki_time::{digits_value, signed_in};
use crate::map_laws::{
    collecting_keeps_last_values, inserting_binds_one_key, lookup_finds_the_pair,
};
use crate::record::EntryModel;
use crate::text::ascii_digit;

verus! {

broadcast use vstd::seq_lib::group_seq_properties;

/// Whether a text is made of digits, at least one.
pub open spec fn is_decimal(digits: Seq<char>) -> bool {
    digits.len() > 0 && forall|i: int|
        0 <= i < digits.len() ==> '0' <= #[trigger] digits[i] <= '9'
}

/// The number that digits write.
pub open spec fn decimal(digits: Seq<char>) -> int
    decreases digits.len(),
{
    if digits.len() == 0 {
        0
    } else {
        10 * decimal(digits.drop_last()) + (digits.last() as int - '0' as int)
    }
}

/// Whether a text writes an integer: digits with an optional sign.
pub open spec fn writes(text: Seq<char>, number: int) -> bool {
    ||| is_decimal(text) && number == decimal(text)
    ||| text.len() > 0 && text[0] == '+' && is_decimal(text.drop_first()) && number == decimal(
        text.drop_first(),
    )
    ||| text.len() > 0 && text[0] == '-' && is_decimal(text.drop_first()) && number == -decimal(
        text.drop_first(),
    )
}

pub proof fn lemma_digits(text: Seq<char>)
    ensures
        digits_value(text) is Some <==> forall|i: int|
            0 <= i < text.len() ==> '0' <= #[trigger] text[i] <= '9',
        digits_value(text) matches Some(value) ==> value == decimal(text),
    decreases text.len(),
{
    if text.len() > 0 {
        let front = text.drop_last();
        lemma_digits(front);
        assert(text[text.len() - 1] == text.last());
        if forall|i: int| 0 <= i < text.len() ==> '0' <= #[trigger] text[i] <= '9' {
            assert forall|i: int| 0 <= i < front.len() implies '0' <= #[trigger] front[i]
                <= '9' by {
                assert(front[i] == text[i]);
            }
            assert('0' <= text[text.len() - 1] <= '9');
        }
        if digits_value(text) is Some {
            assert forall|i: int| 0 <= i < text.len() implies '0' <= #[trigger] text[i]
                <= '9' by {
                if i < front.len() {
                    assert(front[i] == text[i]);
                }
            }
        }
    }
}

/// A text is read as a number exactly where it writes one in the range.
pub proof fn integers_are_read_as_written(text: Seq<char>, low: int, high: int, number: int)
    ensures
        signed_in(text, low, high) == Some(number) <==> writes(text, number) && low <= number
            <= high,
{
    lemma_digits(text);
    if text.len() > 0 {
        let rest = text.subrange(1, text.len() as int);
        assert(rest =~= text.drop_first());
        lemma_digits(rest);
        if text[0] == '+' || text[0] == '-' {
            assert(!is_decimal(text)) by {
                assert(!('0' <= text[0] <= '9'));
            }
        }
    }
}

/// Names of the labels that may name the service of a stream, best first.
pub open spec fn service_labels() -> Seq<Seq<char>> {
    seq![
        "service"@,
        "app"@,
        "application"@,
        "name"@,
        "app_kubernetes_io_name"@,
        "container"@,
        "container_name"@,
        "component"@,
        "workload"@,
        "job"@,
        "service.name"@,
    ]
}

/// Whether labels are those of a stream with a service name: the one that the stream has, or
/// else the value of the first service label that it has.
pub open spec fn with_service(stream: Pairs, labels: Pairs) -> bool {
    let key = "service_name"@;
    let named = exists|i: int| 0 <= i < stream.len() && (#[trigger] stream[i]).0 == key;
    &&& forall|name: Seq<char>, value: Seq<char>|
        name != key || named ==> (#[trigger] labels.contains((name, value)) <==> stream.contains(
            (name, value),
        ))
    &&& !named ==> forall|value: Seq<char>| #[trigger]
        labels.contains((key, value)) <==> exists|i: int|
            {
                &&& 0 <= i < service_labels().len()
                &&& stream.contains((#[trigger] service_labels()[i], value))
                &&& forall|j: int, k: int|
                    0 <= j < i && 0 <= k < stream.len() ==> (#[trigger] stream[k]).0
                        != #[trigger] service_labels()[j]
            }
}

proof fn lemma_first_label(labels: Pairs, names: Seq<Seq<char>>, at: int)
    requires
        ascending(labels),
        0 <= at <= names.len(),
    ensures
        forall|value: Seq<char>|
            first_label(labels, names, at) == Some(value) <==> exists|i: int|
                {
                    &&& at <= i < names.len()
                    &&& labels.contains((#[trigger] names[i], value))
                    &&& forall|j: int, k: int|
                        at <= j < i && 0 <= k < labels.len() ==> (#[trigger] labels[k]).0
                            != #[trigger] names[j]
                },
    decreases names.len() - at,
{
    if at < names.len() {
        lookup_finds_the_pair(labels, names[at]);
        lemma_first_label(labels, names, at + 1);
        assert forall|value: Seq<char>|
            first_label(labels, names, at) == Some(value) <==> exists|i: int|
                {
                    &&& at <= i < names.len()
                    &&& labels.contains((#[trigger] names[i], value))
                    &&& forall|j: int, k: int|
                        at <= j < i && 0 <= k < labels.len() ==> (#[trigger] labels[k]).0
                            != #[trigger] names[j]
                } by {
            if first_label(labels, names, at) == Some(value) {
                if lookup(labels, names[at]) is Some {
                    assert(labels.contains((names[at], value)));
                } else {
                    let i = choose|i: int|
                        {
                            &&& at + 1 <= i < names.len()
                            &&& labels.contains((#[trigger] names[i], value))
                            &&& forall|j: int, k: int|
                                at + 1 <= j < i && 0 <= k < labels.len() ==> (
                                #[trigger] labels[k]).0 != #[trigger] names[j]
                        };
                    assert(labels.contains((names[i], value)));
                    assert forall|j: int, k: int|
                        at <= j < i && 0 <= k < labels.len() implies (#[trigger] labels[k]).0
                        != #[trigger] names[j] by {}
                }
            }
            if exists|i: int|
                {
                    &&& at <= i < names.len()
                    &&& labels.contains((#[trigger] names[i], value))
                    &&& forall|j: int, k: int|
                        at <= j < i && 0 <= k < labels.len() ==> (#[trigger] labels[k]).0
                            != #[trigger] names[j]
                } {
                let i = choose|i: int|
                    {
                        &&& at <= i < names.len()
                        &&& labels.contains((#[trigger] names[i], value))
                        &&& forall|j: int, k: int|
                            at <= j < i && 0 <= k < labels.len() ==> (#[trigger] labels[k]).0
                                != #[trigger] names[j]
                    };
                if i == at {
                    assert(labels.contains((names[at], value)));
                } else {
                    assert forall|k: int| 0 <= k < labels.len() implies (#[trigger] labels[k]).0
                        != names[at] by {}
                    assert(lookup(labels, names[at]) is None);
                    assert(labels.contains((names[i], value)));
                }
            }
        }
    }
}

/// Streams get the service name that they have, or the one of their first service label, and
/// keep all other labels.
pub proof fn streams_get_a_service_name(stream: Pairs)
    requires
        ascending(stream),
    ensures
        with_service(stream, normalized_labels(stream)),
        ascending(normalized_labels(stream)),
{
    let key = "service_name"@;
    let labels = normalized_labels(stream);
    let found = first_label(stream, service_names(), 0);
    assert(service_names() =~= service_labels());
    lemma_first_label(stream, service_names(), 0);
    let named = exists|i: int| 0 <= i < stream.len() && (#[trigger] stream[i]).0 == key;
    assert(named == has_key(stream, key));
    assert forall|name: Seq<char>, value: Seq<char>|
        name != key || named implies (#[trigger] labels.contains((name, value))
        <==> stream.contains((name, value))) by {
        if !named && found is Some {
            inserting_binds_one_key(stream, key, found->0, name, value);
        }
    }
    if !named {
        if found is Some {
            inserting_binds_one_key(stream, key, found->0, key, found->0);
        }
        assert forall|value: Seq<char>| #[trigger]
            labels.contains((key, value)) <==> found == Some(value) by {
            if found is Some {
                inserting_binds_one_key(stream, key, found->0, key, value);
            } else if labels.contains((key, value)) {
                let i = choose|i: int| 0 <= i < stream.len() && stream[i] == (key, value);
                assert(stream[i].0 == key);
            }
        }
    }
}

/// Whether labels can be pushed: there is one, and all their names are label names.
pub open spec fn pushable(labels: Pairs) -> bool {
    labels.len() > 0 && forall|i: int|
        0 <= i < labels.len() ==> is_name((#[trigger] labels[i]).0)
}

proof fn lemma_name(name: Seq<char>)
    ensures
        label_name(name) == is_name(name),
{
    if label_name(name) {
        assert(name[0] == name[0]);
        assert forall|i: int| 0 <= i < name.len() implies {
            let character = #[trigger] name[i];
            'a' <= character <= 'z' || 'A' <= character <= 'Z' || '0' <= character <= '9'
                || character == '_'
        } by {}
    }
    if is_name(name) {
        assert forall|i: int| 0 <= i < name.len() implies #[trigger] name[i] == '_'
            || crate::text::ascii_letter(name[i]) || (i > 0 && ascii_digit(name[i])) by {
            let character = name[i];
            assert('a' <= character <= 'z' || 'A' <= character <= 'Z' || '0' <= character <= '9'
                || character == '_');
        }
    }
}

proof fn lemma_names_fault(labels: Pairs)
    ensures
        names_fault(labels) is None <==> forall|i: int|
            0 <= i < labels.len() ==> is_name((#[trigger] labels[i]).0),
    decreases labels.len(),
{
    if labels.len() > 0 {
        let front = labels.drop_last();
        lemma_names_fault(front);
        lemma_name(labels.last().0);
        assert(labels[labels.len() - 1] == labels.last());
        if forall|i: int| 0 <= i < labels.len() ==> is_name((#[trigger] labels[i]).0) {
            assert forall|i: int| 0 <= i < front.len() implies is_name(
                (#[trigger] front[i]).0,
            ) by {
                assert(front[i] == labels[i]);
            }
            assert(is_name(labels[labels.len() - 1].0));
        }
        if names_fault(labels) is None {
            assert forall|i: int| 0 <= i < labels.len() implies is_name(
                (#[trigger] labels[i]).0,
            ) by {
                if i < front.len() {
                    assert(front[i] == labels[i]);
                }
            }
        }
    }
}

/// Labels are refused exactly where there is none or one has no label name.
pub proof fn labels_are_checked(labels: Pairs)
    ensures
        labels_fault(labels) is None <==> pushable(labels),
{
    lemma_names_fault(labels);
}

/// One result behind another: all entries, or the first failure.
pub open spec fn one_behind_other(
    first: Result<Seq<EntryModel>, ApiFault>,
    second: Result<Seq<EntryModel>, ApiFault>,
) -> Result<Seq<EntryModel>, ApiFault> {
    match (first, second) {
        (Err(fault), _) => Err(fault),
        (Ok(_), Err(fault)) => Err(fault),
        (Ok(before), Ok(behind)) => Ok(before + behind),
    }
}

/// A push of some streams and then others gives the entries of the first and then those of the
/// others, or the first failure. A push of no streams gives none.
pub proof fn json_pushes_join(first: Seq<PushStreamModel>, second: Seq<PushStreamModel>)
    ensures
        json_push_of(first + second) == one_behind_other(
            json_push_of(first),
            json_push_of(second),
        ),
        json_push_of(Seq::empty()) == Ok::<_, ApiFault>(Seq::<EntryModel>::empty()),
    decreases second.len(),
{
    if second.len() == 0 {
        assert(first + second =~= first);
        if json_push_of(first) is Ok {
            assert(json_push_of(first)->Ok_0 + Seq::<EntryModel>::empty() =~= json_push_of(
                first,
            )->Ok_0);
        }
    } else {
        let front = second.drop_last();
        json_pushes_join(first, front);
        assert((first + second).drop_last() =~= first + front);
        assert((first + second).last() == second.last());
        if json_push_of(first) is Ok && json_push_of(second) is Ok {
            let a = json_push_of(first)->Ok_0;
            let b = json_push_of(front)->Ok_0;
            let c = stream_entries_of(second.last())->Ok_0;
            assert((a + b) + c =~= a + (b + c));
        }
    }
}

proof fn lemma_one_stream(stream: PushStreamModel)
    ensures
        json_push_of(seq![stream]) == stream_entries_of(stream),
{
    let one = seq![stream];
    assert(one.drop_last() =~= Seq::<PushStreamModel>::empty());
    assert(json_push_of(one.drop_last()) == Ok::<_, ApiFault>(Seq::<EntryModel>::empty()));
    assert(one.last() == stream);
    if stream_entries_of(stream) is Ok {
        let entries = stream_entries_of(stream)->Ok_0;
        assert(Seq::<EntryModel>::empty() + entries =~= entries);
    }
}

proof fn lemma_values_join(first: Seq<Seq<ItemModel>>, second: Seq<Seq<ItemModel>>, labels: Pairs)
    ensures
        value_entries(first + second, labels) == one_behind_other(
            value_entries(first, labels),
            value_entries(second, labels),
        ),
    decreases second.len(),
{
    if second.len() == 0 {
        assert(first + second =~= first);
        if value_entries(first, labels) is Ok {
            let all = value_entries(first, labels)->Ok_0;
            assert(all + Seq::<EntryModel>::empty() =~= all);
        }
    } else {
        let front = second.drop_last();
        lemma_values_join(first, front, labels);
        assert((first + second).drop_last() =~= first + front);
        assert((first + second).last() == second.last());
        if value_entries(first, labels) is Ok && value_entries(second, labels) is Ok {
            let a = value_entries(first, labels)->Ok_0;
            let b = value_entries(front, labels)->Ok_0;
            let c = pushed_entry(second.last(), labels)->Ok_0;
            assert((a + b).push(c) =~= a + b.push(c));
        }
    }
}

/// The values of a stream become entries one behind the other. A stream without values gives
/// no entries; its labels are checked all the same.
pub proof fn json_streams_join(
    labels: Pairs,
    first: Seq<Seq<ItemModel>>,
    second: Seq<Seq<ItemModel>>,
)
    ensures
        json_push_of(seq![PushStreamModel { labels, values: first + second }]) == one_behind_other(
            json_push_of(seq![PushStreamModel { labels, values: first }]),
            json_push_of(seq![PushStreamModel { labels, values: second }]),
        ),
        ({
            let bare = json_push_of(seq![PushStreamModel { labels, values: Seq::empty() }]);
            if pushable(labels) {
                bare == Ok::<_, ApiFault>(Seq::<EntryModel>::empty())
            } else {
                bare is Err
            }
        }),
{
    lemma_one_stream(PushStreamModel { labels, values: first + second });
    lemma_one_stream(PushStreamModel { labels, values: first });
    lemma_one_stream(PushStreamModel { labels, values: second });
    lemma_one_stream(PushStreamModel { labels, values: Seq::empty() });
    lemma_values_join(first, second, normalized_labels(labels));
    labels_are_checked(labels);
}

/// Whether the last field of a name has a text.
pub open spec fn field_says(
    fields: Seq<(Seq<char>, Option<Seq<char>>)>,
    key: Seq<char>,
    value: Seq<char>,
) -> bool {
    exists|i: int|
        {
            &&& 0 <= i < fields.len()
            &&& #[trigger] fields[i] == (key, Some(value))
            &&& forall|j: int| i < j < fields.len() ==> (#[trigger] fields[j]).0 != key
        }
}

proof fn lemma_field_says(
    fields: Seq<(Seq<char>, Option<Seq<char>>)>,
    key: Seq<char>,
    value: Seq<char>,
)
    requires
        fields.len() > 0,
    ensures
        field_says(fields, key, value) <==> if fields.last().0 == key {
            fields.last().1 == Some(value)
        } else {
            field_says(fields.drop_last(), key, value)
        },
{
    let front = fields.drop_last();
    let end = fields.len() - 1;
    assert(fields[end] == fields.last());
    if field_says(fields, key, value) {
        let i = choose|i: int|
            {
                &&& 0 <= i < fields.len()
                &&& #[trigger] fields[i] == (key, Some(value))
                &&& forall|j: int| i < j < fields.len() ==> (#[trigger] fields[j]).0 != key
            };
        if i < end {
            assert(fields[end].0 != key);
            assert(front[i] == (key, Some(value)));
            assert forall|j: int| i < j < front.len() implies (#[trigger] front[j]).0 != key by {
                assert(front[j] == fields[j]);
            }
        }
    }
    if fields.last() == (key, Some(value)) {
        assert(fields[end] == (key, Some(value)));
    }
    if fields.last().0 != key && field_says(front, key, value) {
        let i = choose|i: int|
            {
                &&& 0 <= i < front.len()
                &&& #[trigger] front[i] == (key, Some(value))
                &&& forall|j: int| i < j < front.len() ==> (#[trigger] front[j]).0 != key
            };
        assert(fields[i] == (key, Some(value)));
        assert forall|j: int| i < j < fields.len() implies (#[trigger] fields[j]).0 != key by {
            if j < end {
                assert(fields[j] == front[j]);
            }
        }
    }
}

proof fn lemma_metadata(fields: Seq<(Seq<char>, Option<Seq<char>>)>)
    ensures
        metadata_of(fields) is Ok <==> forall|i: int|
            0 <= i < fields.len() ==> (#[trigger] fields[i]).1 is Some,
        metadata_of(fields) matches Ok(metadata) ==> {
            &&& ascending(metadata)
            &&& forall|key: Seq<char>, value: Seq<char>| #[trigger]
                metadata.contains((key, value)) <==> field_says(fields, key, value)
        },
    decreases fields.len(),
{
    if fields.len() > 0 {
        let front = fields.drop_last();
        let last = fields.last();
        lemma_metadata(front);
        assert(fields[fields.len() - 1] == last);
        if forall|i: int| 0 <= i < fields.len() ==> (#[trigger] fields[i]).1 is Some {
            assert forall|i: int| 0 <= i < front.len() implies (
            #[trigger] front[i]).1 is Some by {
                assert(front[i] == fields[i]);
            }
            assert(fields[fields.len() - 1].1 is Some);
        }
        if metadata_of(fields) is Ok {
            assert forall|i: int| 0 <= i < fields.len() implies (
            #[trigger] fields[i]).1 is Some by {
                if i < front.len() {
                    assert(front[i] == fields[i]);
                }
            }
            let map = metadata_of(front)->Ok_0;
            let metadata = metadata_of(fields)->Ok_0;
            inserting_binds_one_key(map, last.0, last.1->0, last.0, last.1->0);
            assert forall|key: Seq<char>, value: Seq<char>| #[trigger]
                metadata.contains((key, value)) <==> field_says(fields, key, value) by {
                inserting_binds_one_key(map, last.0, last.1->0, key, value);
                lemma_field_says(fields, key, value);
                assert(map.contains((key, value)) <==> field_says(front, key, value));
            }
        }
    }
}

/// Whether a pushed value can be accepted: a timestamp and a line as texts, and at most an
/// object of texts behind them.
pub open spec fn value_is_proper(items: Seq<ItemModel>) -> bool {
    &&& items.len() == 2 || items.len() == 3
    &&& items[0] matches ItemModel::Text(stamp) && exists|number: int|
        #[trigger] writes(stamp, number) && i64::MIN <= number <= i64::MAX
    &&& items[1] is Text
    &&& items.len() == 3 ==> (items[2] matches ItemModel::Fields(fields) && forall|i: int|
        0 <= i < fields.len() ==> (#[trigger] fields[i]).1 is Some)
}

/// One pushed value becomes one entry: with the number that its first text writes as its
/// timestamp, its second text as its line, the texts of its object as its metadata, and the
/// labels of its stream with a service name. It is refused exactly where the labels or the
/// value are not proper.
pub proof fn a_pushed_value_is_an_entry(labels: Pairs, items: Seq<ItemModel>)
    requires
        ascending(labels),
    ensures
        match json_push_of(seq![PushStreamModel { labels, values: seq![items] }]) {
            Ok(entries) => {
                &&& pushable(labels) && value_is_proper(items)
                &&& entries.len() == 1
                &&& writes(items[0]->Text_0, entries[0].timestamp as int)
                &&& entries[0].line == items[1]->Text_0
                &&& with_service(labels, entries[0].labels)
                &&& forall|key: Seq<char>, value: Seq<char>| #[trigger]
                    entries[0].metadata.contains((key, value)) <==> items.len() == 3 && field_says(
                        items[2]->Fields_0,
                        key,
                        value,
                    )
            },
            Err(_) => !(pushable(labels) && value_is_proper(items)),
        },
{
    let stream = PushStreamModel { labels, values: seq![items] };
    let all = normalized_labels(labels);
    lemma_one_stream(stream);
    labels_are_checked(labels);
    streams_get_a_service_name(labels);
    let one = seq![items];
    assert(one.drop_last() =~= Seq::<Seq<ItemModel>>::empty());
    assert(value_entries(one.drop_last(), all) == Ok::<_, ApiFault>(Seq::<EntryModel>::empty()));
    if items.len() == 3 {
        if let ItemModel::Fields(fields) = items[2] {
            lemma_metadata(fields);
        }
    }
    if items.len() >= 1 {
        if let ItemModel::Text(stamp) = items[0] {
            assert forall|number: int|
                signed_in(stamp, i64::MIN as int, i64::MAX as int) == Some(number)
                    <==> #[trigger] writes(stamp, number) && i64::MIN <= number
                    <= i64::MAX by {
                integers_are_read_as_written(stamp, i64::MIN as int, i64::MAX as int, number);
            }
            if signed_in(stamp, i64::MIN as int, i64::MAX as int) is Some {
                let number = signed_in(stamp, i64::MIN as int, i64::MAX as int)->0;
                assert(writes(stamp, number));
            }
        }
    }
    if pushed_entry(items, all) is Ok {
        let entry = pushed_entry(items, all)->Ok_0;
        assert(value_entries(one, all)->Ok_0 =~= seq![entry]);
    }
}

/// Number of values of all streams.
pub open spec fn pushed_values(streams: Seq<PushStreamModel>) -> nat
    decreases streams.len(),
{
    if streams.len() == 0 {
        0
    } else {
        pushed_values(streams.drop_last()) + streams.last().values.len()
    }
}

proof fn lemma_value_count(values: Seq<Seq<ItemModel>>, labels: Pairs)
    ensures
        value_entries(values, labels) matches Ok(entries) ==> entries.len() == values.len(),
    decreases values.len(),
{
    if values.len() > 0 {
        lemma_value_count(values.drop_last(), labels);
    }
}

/// An accepted push has as many entries as its streams have values together.
pub proof fn no_pushed_value_is_lost(streams: Seq<PushStreamModel>)
    ensures
        json_push_of(streams) matches Ok(entries) ==> entries.len() == pushed_values(streams),
    decreases streams.len(),
{
    if streams.len() > 0 {
        no_pushed_value_is_lost(streams.drop_last());
        lemma_value_count(streams.last().values, normalized_labels(streams.last().labels));
    }
}

/// A protobuf push of some streams and then others gives the entries of the first and then
/// those of the others, or the first failure. A push of no streams gives none.
pub proof fn proto_pushes_join(first: Seq<ProtoStreamModel>, second: Seq<ProtoStreamModel>)
    ensures
        proto_push_of(first + second) == one_behind_other(
            proto_push_of(first),
            proto_push_of(second),
        ),
        proto_push_of(Seq::empty()) == Ok::<_, ApiFault>(Seq::<EntryModel>::empty()),
    decreases second.len(),
{
    if second.len() == 0 {
        assert(first + second =~= first);
        if proto_push_of(first) is Ok {
            let all = proto_push_of(first)->Ok_0;
            assert(all + Seq::<EntryModel>::empty() =~= all);
        }
    } else {
        let front = second.drop_last();
        let last = second.last();
        proto_pushes_join(first, front);
        assert((first + second).drop_last() =~= first + front);
        assert((first + second).last() == last);
        if proto_push_of(first) is Ok && proto_push_of(second) is Ok {
            let a = proto_push_of(first)->Ok_0;
            let b = proto_push_of(front)->Ok_0;
            let c = proto_entries_of(
                last.entries,
                normalized_labels(label_set_of(last.labels)->Ok_0),
            )->Ok_0;
            assert((a + b) + c =~= a + (b + c));
        }
    }
}

proof fn lemma_one_proto_stream(stream: ProtoStreamModel)
    ensures
        proto_push_of(seq![stream]) == match label_set_of(stream.labels) {
            Err(fault) => Err(fault),
            Ok(labels) => proto_entries_of(stream.entries, normalized_labels(labels)),
        },
{
    let one = seq![stream];
    assert(one.drop_last() =~= Seq::<ProtoStreamModel>::empty());
    assert(proto_push_of(one.drop_last()) == Ok::<_, ApiFault>(Seq::<EntryModel>::empty()));
    assert(one.last() == stream);
    if proto_push_of(one) is Ok {
        let entries = proto_entries_of(
            stream.entries,
            normalized_labels(label_set_of(stream.labels)->Ok_0),
        )->Ok_0;
        assert(Seq::<EntryModel>::empty() + entries =~= entries);
    }
}

proof fn lemma_proto_entries_join(
    first: Seq<ProtoEntryModel>,
    second: Seq<ProtoEntryModel>,
    labels: Pairs,
)
    ensures
        proto_entries_of(first + second, labels) == one_behind_other(
            proto_entries_of(first, labels),
            proto_entries_of(second, labels),
        ),
    decreases second.len(),
{
    if second.len() == 0 {
        assert(first + second =~= first);
        if proto_entries_of(first, labels) is Ok {
            let all = proto_entries_of(first, labels)->Ok_0;
            assert(all + Seq::<EntryModel>::empty() =~= all);
        }
    } else {
        let front = second.drop_last();
        lemma_proto_entries_join(first, front, labels);
        assert((first + second).drop_last() =~= first + front);
        assert((first + second).last() == second.last());
        if proto_entries_of(first, labels) is Ok && proto_entries_of(second, labels) is Ok {
            let a = proto_entries_of(first, labels)->Ok_0;
            let b = proto_entries_of(front, labels)->Ok_0;
            let c = proto_entry_of(second.last(), labels)->Ok_0;
            assert((a + b).push(c) =~= a + b.push(c));
        }
    }
}

/// The entries of a protobuf stream come one behind the other.
pub proof fn proto_streams_join(
    labels: Seq<char>,
    first: Seq<ProtoEntryModel>,
    second: Seq<ProtoEntryModel>,
)
    ensures
        proto_push_of(seq![ProtoStreamModel { labels, entries: first + second }])
            == one_behind_other(
            proto_push_of(seq![ProtoStreamModel { labels, entries: first }]),
            proto_push_of(seq![ProtoStreamModel { labels, entries: second }]),
        ),
{
    lemma_one_proto_stream(ProtoStreamModel { labels, entries: first + second });
    lemma_one_proto_stream(ProtoStreamModel { labels, entries: first });
    lemma_one_proto_stream(ProtoStreamModel { labels, entries: second });
    if label_set_of(labels) is Ok {
        lemma_proto_entries_join(first, second, normalized_labels(label_set_of(labels)->Ok_0));
    }
}

/// One protobuf entry becomes one entry: with its seconds and nanoseconds as its timestamp, its
/// line, its metadata, where the last value of a name counts, and the labels of its stream
/// with a service name. It is refused exactly where the labels are, the timestamp is missing
/// or the nanoseconds are out of range.
pub proof fn a_proto_entry_is_an_entry(labels: Seq<char>, entry: ProtoEntryModel)
    requires
        label_set_of(labels) matches Ok(set) ==> ascending(set),
    ensures
        match proto_push_of(seq![ProtoStreamModel { labels, entries: seq![entry] }]) {
            Ok(entries) => {
                &&& label_set_of(labels) is Ok
                &&& entries.len() == 1
                &&& entry.timestamp matches Some((seconds, nanos)) && entries[0].timestamp
                    == seconds * 1_000_000_000 + nanos
                &&& entries[0].line == entry.line
                &&& with_service(label_set_of(labels)->Ok_0, entries[0].labels)
                &&& forall|key: Seq<char>, value: Seq<char>| #[trigger]
                    entries[0].metadata.contains((key, value)) <==> exists|i: int|
                        {
                            &&& 0 <= i < entry.metadata.len()
                            &&& #[trigger] entry.metadata[i] == (key, value)
                            &&& forall|j: int|
                                i < j < entry.metadata.len() ==> (
                                #[trigger] entry.metadata[j]).0 != key
                        }
            },
            Err(_) => label_set_of(labels) is Err || (match entry.timestamp {
                None => true,
                Some((seconds, nanos)) => !(i64::MIN <= seconds * 1_000_000_000 <= i64::MAX
                    && i64::MIN <= seconds * 1_000_000_000 + nanos <= i64::MAX),
            }),
        },
{
    let one = seq![entry];
    lemma_one_proto_stream(ProtoStreamModel { labels, entries: one });
    assert(one.drop_last() =~= Seq::<ProtoEntryModel>::empty());
    if label_set_of(labels) is Ok {
        let set = label_set_of(labels)->Ok_0;
        let all = normalized_labels(set);
        streams_get_a_service_name(set);
        assert(proto_entries_of(one.drop_last(), all) == Ok::<_, ApiFault>(
            Seq::<EntryModel>::empty(),
        ));
        if proto_entry_of(entry, all) is Ok {
            let made = proto_entry_of(entry, all)->Ok_0;
            assert(proto_entries_of(one, all)->Ok_0 =~= seq![made]);
            assert forall|key: Seq<char>, value: Seq<char>| #[trigger]
                made.metadata.contains((key, value)) <==> exists|i: int|
                    {
                        &&& 0 <= i < entry.metadata.len()
                        &&& #[trigger] entry.metadata[i] == (key, value)
                        &&& forall|j: int|
                            i < j < entry.metadata.len() ==> (#[trigger] entry.metadata[j]).0
                                != key
                    } by {
                collecting_keeps_last_values(entry.metadata, key, value);
            }
        }
    }
}

} // verus!
