//! Laws of label sets and scan parameters as they are written.
use vstd::prelude::*;

use crate::analytics::{all_columns, columns_of, comma_parts, scan_request_of, with_parameters};
use crate::api_error::ApiFault;
use crate::labels::{collect_pairs, has_key, lemma_insert_pair_keys, Pairs};
use crate::logql_laws::{is_name, lemma_literal_read, literal_of};
use crate::loki_query::{
    label_at, label_name, label_set_of, labels_from, name_end, names_fault, operation_at,
    MatchOperation,
};
use crate::loki_time::unsigned_value;
use crate::map_laws::{collecting_keeps_last_values, inserting_binds_one_key};
use crate::text::{part_at, skip_space, trim_end, trimmed, white_space};

verus! {

broadcast use vstd::seq_lib::group_seq_properties;

/// A label as it is written: its name, its quoted value, and the value.
pub type WrittenLabel = (Seq<char>, Seq<char>, Seq<char>);

/// Whether a label is written properly.
pub open spec fn is_written(label: WrittenLabel) -> bool {
    is_name(label.0) && literal_of(label.1, label.2)
}

/// The text of a label: its name, an equals sign and its quoted value.
pub open spec fn label_text(label: WrittenLabel) -> Seq<char> {
    label.0 + seq!['='] + label.1
}

/// The text of labels from a place on, with commas between them.
pub open spec fn labels_text(labels: Seq<WrittenLabel>, k: int) -> Seq<char>
    decreases labels.len() - k,
{
    if k >= labels.len() {
        Seq::empty()
    } else if k == labels.len() - 1 {
        label_text(labels[k])
    } else {
        label_text(labels[k]) + (seq![','] + labels_text(labels, k + 1))
    }
}

/// Names and values of labels.
pub open spec fn label_pairs(labels: Seq<WrittenLabel>) -> Pairs {
    labels.map_values(|label: WrittenLabel| (label.0, label.2))
}

proof fn lemma_name_ends(front: Seq<char>, name: Seq<char>, more: Seq<char>, i: int)
    requires
        is_name(name),
        0 <= i <= name.len(),
        more.len() > 0,
        more[0] == '=',
    ensures
        name_end(front + (name + more), front.len() + i, false) == Some(
            (front.len() + name.len()) as int,
        ),
    decreases name.len() - i,
{
    let text = front + (name + more);
    let at = front.len() + i;
    if i < name.len() {
        let character = name[i];
        assert(text[at] == character);
        assert('a' <= character <= 'z' || 'A' <= character <= 'Z' || '0' <= character <= '9'
            || character == '_');
        assert(!white_space(character));
        lemma_name_ends(front, name, more, i + 1);
    } else {
        assert(text[at] == more[0]);
    }
}

proof fn lemma_label_read(front: Seq<char>, label: WrittenLabel, rest: Seq<char>)
    requires
        is_written(label),
    ensures
        label_at(front + (label_text(label) + rest), front.len() as int) == Ok::<_, ApiFault>(
            ((label.0, label.2), (front.len() + label_text(label).len()) as int),
        ),
        !white_space(label.0[0]),
{
    let name = label.0;
    let literal = label.1;
    let more = seq!['='] + (literal + rest);
    let text = front + (label_text(label) + rest);
    let end = (front.len() + name.len()) as int;
    assert(text =~= front + (name + more));
    lemma_name_ends(front, name, more, 0);
    assert(text.subrange(front.len() as int, end) =~= name);
    assert(label_name(name));
    assert(text[end] == '=');
    assert(!white_space('='));
    assert(skip_space(text, end) == end);
    assert(text[end + 1] == literal[0]);
    assert(operation_at(text, end) == Some((MatchOperation::Equal, end + 1)));
    assert(!white_space('"'));
    assert(skip_space(text, end + 1) == end + 1);
    let before = front + name + seq!['='];
    assert(text =~= before + literal + rest);
    lemma_literal_read(before, literal, rest, label.2);
    let character = name[0];
    assert('a' <= character <= 'z' || 'A' <= character <= 'Z' || '0' <= character <= '9'
        || character == '_');
}

/// Whether a name of labels from a place on occurs before it.
pub open spec fn repeats_from(labels: Seq<WrittenLabel>, k: int) -> bool {
    exists|i: int, j: int|
        0 <= i < j < labels.len() && k <= j && (#[trigger] labels[i]).0 == (#[trigger] labels[j]).0
}

proof fn lemma_collected_keys(pairs: Pairs, key: Seq<char>)
    ensures
        has_key(collect_pairs(pairs), key) <==> exists|i: int|
            0 <= i < pairs.len() && (#[trigger] pairs[i]).0 == key,
    decreases pairs.len(),
{
    if pairs.len() > 0 {
        let early = pairs.drop_last();
        let last = pairs.last();
        let front = collect_pairs(early);
        let all = collect_pairs(pairs);
        lemma_collected_keys(early, key);
        lemma_insert_pair_keys(front, last.0, last.1);
        assert(pairs[pairs.len() - 1] == last);
        if has_key(all, key) {
            let i = choose|i: int| 0 <= i < all.len() && #[trigger] all[i].0 == key;
            if all[i] != last {
                let k = choose|k: int| 0 <= k < front.len() && front[k] == all[i];
                assert(front[k].0 == key);
                let n = choose|n: int| 0 <= n < early.len() && (#[trigger] early[n]).0 == key;
                assert(pairs[n].0 == key);
            }
        }
        if exists|i: int| 0 <= i < pairs.len() && (#[trigger] pairs[i]).0 == key {
            let i = choose|i: int| 0 <= i < pairs.len() && (#[trigger] pairs[i]).0 == key;
            if key != last.0 {
                assert(early[i].0 == key);
                let k = choose|k: int| 0 <= k < front.len() && #[trigger] front[k].0 == key;
                assert(front[k] == (key, front[k].1));
                assert(front.contains((key, front[k].1)));
                collecting_keeps_last_values(early, key, front[k].1);
                inserting_binds_one_key(front, last.0, last.1, key, front[k].1);
                let n = choose|n: int| 0 <= n < all.len() && all[n] == (key, front[k].1);
                assert(all[n].0 == key);
            }
        }
    }
}

proof fn lemma_labels_read(front: Seq<char>, labels: Seq<WrittenLabel>, k: int)
    requires
        0 <= k < labels.len(),
        forall|i: int| 0 <= i < labels.len() ==> is_written(#[trigger] labels[i]),
        !(exists|i: int, j: int|
            0 <= i < j < k && (#[trigger] labels[i]).0 == (#[trigger] labels[j]).0),
    ensures
        ({
            let read = labels_from(
                front + labels_text(labels, k),
                front.len() as int,
                collect_pairs(label_pairs(labels.subrange(0, k))),
            );
            if repeats_from(labels, k) {
                read is Err
            } else {
                read == Ok::<_, ApiFault>(collect_pairs(label_pairs(labels)))
            }
        }),
    decreases labels.len() - k,
{
    let n = labels.len() as int;
    let label = labels[k];
    let item = label_text(label);
    let rest = if k == n - 1 {
        Seq::<char>::empty()
    } else {
        seq![','] + labels_text(labels, k + 1)
    };
    let text = front + labels_text(labels, k);
    let at = front.len() as int;
    let next = at + item.len();
    let held = label_pairs(labels.subrange(0, k));
    let more = label_pairs(labels.subrange(0, k + 1));
    assert(text =~= front + (item + rest));
    lemma_label_read(front, label, rest);
    assert(text[at] == label.0[0]);
    assert(skip_space(text, at) == at);
    lemma_collected_keys(held, label.0);
    let known = has_key(collect_pairs(held), label.0);
    if known {
        let i = choose|i: int| 0 <= i < held.len() && (#[trigger] held[i]).0 == label.0;
        assert(labels[i].0 == labels[k].0);
        assert(repeats_from(labels, k));
    } else {
        assert forall|i: int| 0 <= i < k implies (#[trigger] labels[i]).0 != label.0 by {
            assert(held[i].0 == labels[i].0);
        }
        assert(more.drop_last() =~= held);
        assert(more.last() == (label.0, label.2));
        assert(repeats_from(labels, k) == repeats_from(labels, k + 1)) by {
            if repeats_from(labels, k) {
                let (i, j) = choose|i: int, j: int|
                    0 <= i < j < labels.len() && k <= j && (#[trigger] labels[i]).0 == (
                    #[trigger] labels[j]).0;
                assert(j != k);
            }
        }
        if k == n - 1 {
            assert(next == text.len());
            assert(labels.subrange(0, k + 1) =~= labels);
            assert(!repeats_from(labels, n));
        } else {
            assert(text[next] == ',');
            assert(!white_space(','));
            assert(skip_space(text, next) == next);
            let before = front + item + seq![','];
            assert(text =~= before + labels_text(labels, k + 1));
            assert(!(exists|i: int, j: int|
                0 <= i < j < k + 1 && (#[trigger] labels[i]).0 == (#[trigger] labels[j]).0));
            lemma_labels_read(before, labels, k + 1);
        }
    }
}

proof fn lemma_names_fine(pairs: Pairs)
    requires
        forall|i: int| 0 <= i < pairs.len() ==> label_name((#[trigger] pairs[i]).0),
    ensures
        names_fault(pairs) is None,
    decreases pairs.len(),
{
    if pairs.len() > 0 {
        let early = pairs.drop_last();
        assert forall|i: int| 0 <= i < early.len() implies label_name((#[trigger] early[i]).0) by {
            assert(early[i] == pairs[i]);
        }
        lemma_names_fine(early);
        assert(pairs[pairs.len() - 1] == pairs.last());
    }
}

/// A label set is read as it is written: names, equals signs and quoted values with commas
/// between them bind each name to its value, and a name that occurs twice is refused.
pub proof fn label_sets_are_read_as_written(
    labels: Seq<WrittenLabel>,
    name: Seq<char>,
    value: Seq<char>,
)
    requires
        labels.len() > 0,
        forall|i: int| 0 <= i < labels.len() ==> is_written(#[trigger] labels[i]),
    ensures
        ({
            let read = label_set_of(seq!['{'] + labels_text(labels, 0) + seq!['}']);
            let twice = exists|i: int, j: int|
                0 <= i < j < labels.len() && (#[trigger] labels[i]).0 == (#[trigger] labels[j]).0;
            &&& read is Err <==> twice
            &&& read matches Ok(set) ==> (set.contains((name, value)) <==> exists|i: int|
                0 <= i < labels.len() && (#[trigger] labels[i]).0 == name && labels[i].2 == value)
        }),
{
    let inner = labels_text(labels, 0);
    let text = seq!['{'] + inner + seq!['}'];
    let count = text.len() as int;
    let pairs = label_pairs(labels);
    let none = Seq::<char>::empty();
    assert(text[0] == '{' && text[count - 1] == '}');
    assert(!white_space('{') && !white_space('}'));
    assert(skip_space(text, 0) == 0);
    assert(trim_end(text, count) == count);
    assert(text.subrange(0, count) =~= text);
    assert(trimmed(text) =~= text);
    assert(text.subrange(1, count - 1) =~= inner);
    assert(labels.subrange(0, 0) =~= Seq::<WrittenLabel>::empty());
    assert(label_pairs(labels.subrange(0, 0)) =~= Pairs::empty());
    lemma_labels_read(none, labels, 0);
    assert(none + inner =~= inner);
    let set = collect_pairs(pairs);
    lemma_collected_keys(pairs, labels[0].0);
    assert(pairs[0].0 == labels[0].0);
    assert(set.len() > 0);
    assert forall|i: int| 0 <= i < set.len() implies label_name((#[trigger] set[i]).0) by {
        let key = set[i].0;
        lemma_collected_keys(pairs, key);
        assert(has_key(set, key));
        let k = choose|k: int| 0 <= k < pairs.len() && (#[trigger] pairs[k]).0 == key;
        assert(is_written(labels[k]));
        assert(is_name(labels[k].0));
    }
    lemma_names_fine(set);
    collecting_keeps_last_values(pairs, name, value);
    if !repeats_from(labels, 0) {
        if exists|i: int|
            0 <= i < labels.len() && (#[trigger] labels[i]).0 == name && labels[i].2 == value {
            let i = choose|i: int|
                0 <= i < labels.len() && (#[trigger] labels[i]).0 == name && labels[i].2 == value;
            assert(pairs[i] == (name, value));
            assert forall|j: int| i < j < pairs.len() implies (#[trigger] pairs[j]).0 != name by {
                assert(labels[i].0 != labels[j].0);
            }
        }
        if set.contains((name, value)) {
            let i = choose|i: int|
                {
                    &&& 0 <= i < pairs.len()
                    &&& #[trigger] pairs[i] == (name, value)
                    &&& forall|j: int| i < j < pairs.len() ==> (#[trigger] pairs[j]).0 != name
                };
            assert(labels[i].0 == name && labels[i].2 == value);
        }
    }
}

/// Values of a parameter, in their order.
pub open spec fn values_named(parameters: Pairs, name: Seq<char>) -> Seq<Seq<char>>
    decreases parameters.len(),
{
    if parameters.len() == 0 {
        Seq::empty()
    } else if parameters.last().0 == name {
        values_named(parameters.drop_last(), name).push(parameters.last().1)
    } else {
        values_named(parameters.drop_last(), name)
    }
}

/// Rests of the names behind a prefix with their values, in their order.
pub open spec fn values_under(parameters: Pairs, prefix: Seq<char>) -> Pairs
    decreases parameters.len(),
{
    if parameters.len() == 0 {
        Seq::empty()
    } else {
        let last = parameters.last();
        let front = values_under(parameters.drop_last(), prefix);
        if last.0.len() >= prefix.len() && last.0.subrange(0, prefix.len() as int) == prefix {
            front.push((last.0.subrange(prefix.len() as int, last.0.len() as int), last.1))
        } else {
            front
        }
    }
}

/// Whether a parameter says something of a scan.
pub open spec fn is_scan_parameter(key: Seq<char>) -> bool {
    ||| key == "start_ns"@
    ||| key == "end_ns"@
    ||| key == "limit"@
    ||| key == "term"@
    ||| key == "columns"@
    ||| part_at(key, 0, "label."@)
    ||| part_at(key, 0, "metadata."@)
}

/// The parameters of a scan are taken as they are named: all terms, labels and metadata in
/// their order, the last start, end and limit, the given columns or else all; any other
/// parameter is refused.
pub proof fn scan_parameters_are_taken_as_named(tenant: Seq<char>, parameters: Pairs)
    ensures
        with_parameters(tenant, parameters) matches Ok(state) ==> {
            let request = state.request;
            let starts = values_named(parameters, "start_ns"@);
            let ends = values_named(parameters, "end_ns"@);
            let limits = values_named(parameters, "limit"@);
            &&& forall|i: int|
                0 <= i < parameters.len() ==> is_scan_parameter((#[trigger] parameters[i]).0)
            &&& request.tenant == tenant
            &&& request.terms == values_named(parameters, "term"@)
            &&& request.labels == values_under(parameters, "label."@)
            &&& request.metadata == values_under(parameters, "metadata."@)
            &&& request.start is None <==> starts.len() == 0
            &&& request.start matches Some(start) ==> unsigned_value(
                starts.last(),
            ) == Some(start as nat)
            &&& request.end is None <==> ends.len() == 0
            &&& request.end matches Some(end) ==> unsigned_value(ends.last())
                == Some(end as nat)
            &&& request.limit is None <==> limits.len() == 0
            &&& request.limit matches Some(limit) ==> unsigned_value(
                limits.last(),
            ) == Some(limit as nat)
            &&& values_named(parameters, "columns"@).len() == 0 ==> request.projection
                == all_columns() && !state.columns_given
            &&& values_named(parameters, "columns"@).len() <= 1
            &&& values_named(parameters, "columns"@).len() == 1 ==> state.columns_given
                && columns_of(comma_parts(values_named(parameters, "columns"@)[0])) == Ok::<
                _,
                ApiFault,
            >(request.projection)
        },
    decreases parameters.len(),
{
    if parameters.len() > 0 {
        let early = parameters.drop_last();
        let key = parameters.last().0;
        scan_parameters_are_taken_as_named(tenant, early);
        lemma_parameter_names();
        assert forall|i: int|
            with_parameters(tenant, parameters) is Ok && 0 <= i
                < parameters.len() implies is_scan_parameter((#[trigger] parameters[i]).0) by {
            if i < early.len() {
                assert(early[i] == parameters[i]);
            }
        }
        if part_at(key, 0, "label."@) {
            assert(key[0] == key.subrange(0, 6)[0] && key[5] == key.subrange(0, 6)[5]);
        }
        if part_at(key, 0, "metadata."@) {
            assert(key[0] == key.subrange(0, 9)[0]);
        }
    }
}

proof fn lemma_parameter_names()
    ensures
        "start_ns"@.len() == 8 && "start_ns"@[0] == 's',
        "end_ns"@.len() == 6 && "end_ns"@[0] == 'e',
        "limit"@.len() == 5 && "limit"@[0] == 'l',
        "term"@.len() == 4 && "term"@[0] == 't',
        "columns"@.len() == 7 && "columns"@[0] == 'c',
        "label."@.len() == 6 && "label."@[0] == 'l' && "label."@[5] == '.',
        "metadata."@.len() == 9 && "metadata."@[0] == 'm',
{
    reveal_strlit("start_ns");
    reveal_strlit("end_ns");
    reveal_strlit("limit");
    reveal_strlit("term");
    reveal_strlit("columns");
    reveal_strlit("label.");
    reveal_strlit("metadata.");
}

/// A scan needs a tenant, columns that do not repeat, and a time range that is not empty.
pub proof fn scans_are_checked(tenant: Seq<char>, parameters: Pairs)
    ensures
        scan_request_of(tenant, parameters) matches Ok(request) ==> {
            &&& with_parameters(tenant, parameters) matches Ok(state) && state.request == request
            &&& request.tenant.len() > 0
            &&& request.projection.len() > 0 && request.projection.no_duplicates()
            &&& (request.start matches Some(start) ==> (request.end matches Some(end) ==> start
                < end))
        },
        (with_parameters(tenant, parameters) matches Ok(state) && {
            let request = state.request;
            &&& request.tenant.len() > 0
            &&& request.projection.len() > 0 && request.projection.no_duplicates()
            &&& (request.start matches Some(start) ==> (request.end matches Some(end) ==> start
                < end))
        }) ==> scan_request_of(tenant, parameters) is Ok,
{
}

/// Parts between commas: a text without one is its own part, and a comma starts another.
pub proof fn commas_part_texts(text: Seq<char>, more: Seq<char>)
    requires
        forall|i: int| 0 <= i < more.len() ==> #[trigger] more[i] != ',',
    ensures
        comma_parts(more) == seq![more],
        comma_parts(text + seq![','] + more) == comma_parts(text).push(more),
    decreases more.len(),
{
    if more.len() == 0 {
        assert(more =~= Seq::<char>::empty());
        assert(comma_parts(more) =~= seq![more]);
        let all = text + seq![','] + more;
        assert(all.drop_last() =~= text);
        assert(all.last() == ',');
    } else {
        let early = more.drop_last();
        assert forall|i: int| 0 <= i < early.len() implies #[trigger] early[i] != ',' by {
            assert(early[i] == more[i]);
        }
        commas_part_texts(text, early);
        assert(more.last() == more[more.len() - 1]);
        let front = comma_parts(early);
        assert(front.last() == early);
        assert(early.push(more.last()) =~= more);
        assert(comma_parts(more) =~= seq![more]);
        let all = text + seq![','] + more;
        assert(all.drop_last() =~= text + seq![','] + early);
        assert(all.last() == more.last());
        let parts = comma_parts(text).push(early);
        assert(parts.drop_last() =~= comma_parts(text));
        assert(parts.last() == early);
        assert(comma_parts(all) =~= comma_parts(text).push(more));
    }
}

} // verus!
