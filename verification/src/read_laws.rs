//! Laws of reading entries, over the entries and what is asked of them.
use vstd::multiset::Multiset;
use vstd::prelude::*;
use vstd::utf8::encode_utf8;

use crate::codec::{lemma_text_less_total, lemma_text_less_transitive, text_less};
use crate::first_laws::{leading_items_come_first, lists_first};
use crate::labels::{
    ascending, extend_pairs, has_key, lemma_pairs_less_total, lemma_pairs_less_transitive, lookup,
    pairs_less, Pairs,
};
use crate::logql_laws::{lemma_occurs, occurs_in};
use crate::loki_entries::{
    add_line, first_label, first_word, has_word, level_names, level_of, level_words,
    response_labels_of, stream_place, streams_of, word_at, StreamModel,
};
use crate::loki_query::{
    regex_matches, selects_entry, MatchOperation, MatcherModel, SelectorModel,
};
use crate::loki_read::{
    add_keys, any_selects, by_time, by_time_sorts, label_names_of, line_bytes, matching_entries,
    returned_entries, series_of, stream_answer_of, values_of_label, SeriesPlanModel,
    StreamPlanModel,
};
use crate::loki_stats::{
    add_volume, label_set_text, label_sets, volume_place, volumes_of,
};
use crate::map_laws::{extending_overrides, inserting_binds_one_key};
use crate::record::EntryModel;
use crate::text::ascii_lowered;
use crate::text_set::{insert_labels, inserting_adds_one_text, labels_place, rising_texts};

verus! {

broadcast use vstd::seq_lib::group_seq_properties;

/// What a matcher asks of labels; a missing label counts as empty.
pub open spec fn label_meets(matcher: MatcherModel, labels: Pairs) -> bool {
    let observed = match lookup(labels, matcher.name) {
        Some(value) => value,
        None => Seq::empty(),
    };
    match matcher.operation {
        MatchOperation::Equal => observed == matcher.value,
        MatchOperation::NotEqual => observed != matcher.value,
        MatchOperation::Regex => regex_matches("^(?:"@ + matcher.value + ")$"@, observed),
        MatchOperation::NotRegex => !regex_matches("^(?:"@ + matcher.value + ")$"@, observed),
    }
}

/// What a filter asks of a line.
pub open spec fn line_meets(filter: MatcherModel, line: Seq<char>) -> bool {
    match filter.operation {
        MatchOperation::Equal => occurs_in(filter.value, line),
        MatchOperation::NotEqual => !occurs_in(filter.value, line),
        MatchOperation::Regex => regex_matches(filter.value, line),
        MatchOperation::NotRegex => !regex_matches(filter.value, line),
    }
}

/// Whether an entry meets every matcher and every filter of a selector.
pub open spec fn entry_meets(selector: SelectorModel, entry: EntryModel) -> bool {
    &&& forall|matcher: MatcherModel| #[trigger]
        selector.matchers.contains(matcher) ==> label_meets(matcher, entry.labels)
    &&& forall|filter: MatcherModel| #[trigger]
        selector.filters.contains(filter) ==> line_meets(filter, entry.line)
}

/// A selector selects the entries that meet all of it.
pub proof fn selectors_select_what_they_ask_for(selector: SelectorModel, entry: EntryModel)
    ensures
        selects_entry(selector, entry) == entry_meets(selector, entry),
{
    assert forall|filter: MatcherModel| #[trigger]
        crate::loki_query::line_matches(filter, entry.line) == line_meets(filter, entry.line) by {
        lemma_occurs(filter.value, entry.line);
    }
    if selects_entry(selector, entry) {
        assert forall|matcher: MatcherModel| #[trigger]
            selector.matchers.contains(matcher) implies label_meets(matcher, entry.labels) by {
            let i = choose|i: int|
                0 <= i < selector.matchers.len() && selector.matchers[i] == matcher;
            assert(selector.matchers[i] == matcher);
        }
        assert forall|filter: MatcherModel| #[trigger]
            selector.filters.contains(filter) implies line_meets(filter, entry.line) by {
            let i = choose|i: int| 0 <= i < selector.filters.len() && selector.filters[i] == filter;
            assert(selector.filters[i] == filter);
            assert(crate::loki_query::line_matches(selector.filters[i], entry.line));
        }
    }
    if entry_meets(selector, entry) {
        assert forall|i: int|
            0 <= i < selector.matchers.len() implies crate::loki_query::value_matches(
            #[trigger] selector.matchers[i],
            crate::loki_query::label_value(entry.labels, selector.matchers[i].name),
        ) by {
            assert(selector.matchers.contains(selector.matchers[i]));
        }
        assert forall|i: int|
            0 <= i < selector.filters.len() implies crate::loki_query::line_matches(
            #[trigger] selector.filters[i],
            entry.line,
        ) by {
            assert(selector.filters.contains(selector.filters[i]));
        }
    }
}

/// Whether an entry lies in an inclusive span of time and meets a selector.
pub open spec fn is_sought(
    selector: SelectorModel,
    start: i64,
    end: i64,
) -> spec_fn(EntryModel) -> bool {
    |entry: EntryModel| start <= entry.timestamp <= end && entry_meets(selector, entry)
}

/// Selecting keeps the entries that are sought, in their order, and nothing else.
pub proof fn matching_keeps_what_is_sought(
    entries: Seq<EntryModel>,
    selector: SelectorModel,
    start: i64,
    end: i64,
)
    ensures
        matching_entries(entries, selector, start, end) == entries.filter(
            is_sought(selector, start, end),
        ),
    decreases entries.len(),
{
    reveal(Seq::filter);
    if entries.len() > 0 {
        matching_keeps_what_is_sought(entries.drop_last(), selector, start, end);
        selectors_select_what_they_ask_for(selector, entries.last());
    }
}

/// Place of an entry in an answer: by time, the newest first where it goes backward.
pub open spec fn time_place(backward: bool) -> spec_fn(EntryModel) -> u128 {
    |entry: EntryModel|
        if backward {
            (i64::MAX - entry.timestamp) as u128
        } else {
            (entry.timestamp - i64::MIN) as u128
        }
}

/// A stream query returns the first of the entries that are sought, the newest first unless
/// it goes forward, up to its limit, and counts them; bytes and lines are those of all
/// entries that were read.
pub proof fn streams_return_what_is_sought(plan: StreamPlanModel, entries: Seq<EntryModel>)
    requires
        entries.len() <= usize::MAX,
    ensures
        lists_first(
            time_place(plan.backward),
            entries.filter(is_sought(plan.selector, plan.start, plan.end)).to_multiset(),
            plan.limit as nat,
            returned_entries(plan, entries),
        ),
        stream_answer_of(plan, entries).returned == returned_entries(plan, entries).len(),
        stream_answer_of(plan, entries).lines == entries.len(),
{
    let found = matching_entries(entries, plan.selector, plan.start, plan.end);
    matching_keeps_what_is_sought(entries, plan.selector, plan.start, plan.end);
    entries.lemma_filter_len(is_sought(plan.selector, plan.start, plan.end));
    by_time_sorts(found);
    let sorted = by_time(found);
    let place = time_place(plan.backward);
    if plan.backward {
        let back = sorted.reverse();
        lemma_reverse_bag(sorted);
        assert forall|i: int, j: int| 0 <= i < j < back.len() implies place(#[trigger] back[i])
            <= place(#[trigger] back[j]) by {
            assert(sorted[back.len() - 1 - j].timestamp <= sorted[back.len() - 1 - i].timestamp);
        }
        leading_items_come_first(place, back, plan.limit as nat);
    } else {
        leading_items_come_first(place, sorted, plan.limit as nat);
    }
}

proof fn lemma_reverse_bag(entries: Seq<EntryModel>)
    ensures
        entries.reverse().to_multiset() == entries.to_multiset(),
    decreases entries.len(),
{
    broadcast use vstd::seq_lib::group_to_multiset_ensures;

    if entries.len() == 0 {
        assert(entries.reverse() =~= entries);
    } else {
        let early = entries.drop_last();
        lemma_reverse_bag(early);
        assert(entries.reverse() =~= seq![entries.last()] + early.reverse());
        assert(entries =~= early + seq![entries.last()]);
        crate::first_laws::lemma_bag_adds(seq![entries.last()], early.reverse());
        crate::first_laws::lemma_bag_adds(early, seq![entries.last()]);
        assert(entries.reverse().to_multiset() =~= entries.to_multiset());
    }
}

/// Bytes of lines add up.
pub proof fn line_bytes_add_up(left: Seq<EntryModel>, right: Seq<EntryModel>)
    ensures
        line_bytes(left + right) == line_bytes(left) + line_bytes(right),
        forall|entry: EntryModel| #[trigger]
            line_bytes(seq![entry]) == encode_utf8(entry.line).len(),
    decreases right.len(),
{
    assert forall|entry: EntryModel| #[trigger] line_bytes(seq![entry]) == encode_utf8(
        entry.line,
    ).len() by {
        let one = seq![entry];
        assert(one.drop_last() =~= Seq::<EntryModel>::empty());
        assert(one.last() == entry);
        assert(line_bytes(one.drop_last()) == 0);
    }
    if right.len() == 0 {
        assert(left + right =~= left);
    } else {
        line_bytes_add_up(left, right.drop_last());
        assert((left + right).drop_last() =~= left + right.drop_last());
        assert((left + right).last() == right.last());
    }
}

proof fn lemma_keys_added(names: Seq<Seq<char>>, labels: Pairs)
    requires
        rising_texts(names),
    ensures
        rising_texts(add_keys(names, labels)),
        forall|name: Seq<char>| #[trigger]
            add_keys(names, labels).contains(name) <==> names.contains(name) || has_key(
                labels,
                name,
            ),
    decreases labels.len(),
{
    if labels.len() > 0 {
        let early = labels.drop_last();
        let last = labels.last();
        lemma_keys_added(names, early);
        inserting_adds_one_text(add_keys(names, early), last.0);
        assert(labels[labels.len() - 1] == last);
        assert forall|name: Seq<char>| #[trigger]
            add_keys(names, labels).contains(name) <==> names.contains(name) || has_key(
                labels,
                name,
            ) by {
            if has_key(early, name) {
                let i = choose|i: int| 0 <= i < early.len() && #[trigger] early[i].0 == name;
                assert(labels[i].0 == name);
            }
            if has_key(labels, name) {
                let i = choose|i: int| 0 <= i < labels.len() && #[trigger] labels[i].0 == name;
                if i < early.len() {
                    assert(early[i].0 == name);
                }
            }
        }
    }
}

/// Whether some entry in a span of time has a label.
pub open spec fn is_label_in(
    entries: Seq<EntryModel>,
    start: i64,
    end: i64,
    name: Seq<char>,
) -> bool {
    exists|i: int|
        0 <= i < entries.len() && start <= (#[trigger] entries[i]).timestamp <= end && exists|
            k: int,
        | 0 <= k < entries[i].labels.len() && (#[trigger] entries[i].labels[k]).0 == name
}

/// The label names of a span are those of its entries, ascending and each once.
pub proof fn label_names_are_those_of_entries(entries: Seq<EntryModel>, start: i64, end: i64)
    ensures
        rising_texts(label_names_of(entries, start, end)),
        forall|name: Seq<char>| #[trigger]
            label_names_of(entries, start, end).contains(name) <==> is_label_in(
                entries,
                start,
                end,
                name,
            ),
    decreases entries.len(),
{
    if entries.len() > 0 {
        let early = entries.drop_last();
        let last = entries.last();
        let front = label_names_of(early, start, end);
        label_names_are_those_of_entries(early, start, end);
        lemma_keys_added(front, last.labels);
        assert(entries[entries.len() - 1] == last);
        assert forall|name: Seq<char>| #[trigger]
            label_names_of(entries, start, end).contains(name) <==> is_label_in(
                entries,
                start,
                end,
                name,
            ) by {
            assert(front.contains(name) <==> is_label_in(early, start, end, name));
            if is_label_in(early, start, end, name) {
                let i = choose|i: int|
                    0 <= i < early.len() && start <= (#[trigger] early[i]).timestamp <= end
                        && exists|k: int|
                        0 <= k < early[i].labels.len() && (#[trigger] early[i].labels[k]).0 == name;
                assert(entries[i] == early[i]);
            }
            if is_label_in(entries, start, end, name) {
                let i = choose|i: int|
                    0 <= i < entries.len() && start <= (#[trigger] entries[i]).timestamp <= end
                        && exists|k: int|
                        0 <= k < entries[i].labels.len() && (#[trigger] entries[i].labels[k]).0
                            == name;
                if i < early.len() {
                    assert(early[i] == entries[i]);
                } else {
                    assert(has_key(last.labels, name));
                }
            }
            if has_key(last.labels, name) && start <= last.timestamp <= end {
                let k = choose|k: int|
                    0 <= k < last.labels.len() && #[trigger] last.labels[k].0 == name;
                assert(entries[entries.len() - 1].labels[k].0 == name);
                assert(is_label_in(entries, start, end, name));
            }
        }
    }
}

/// Whether some entry in a span of time has a value of a label.
pub open spec fn is_value_in(
    entries: Seq<EntryModel>,
    name: Seq<char>,
    start: i64,
    end: i64,
    value: Seq<char>,
) -> bool {
    exists|i: int|
        0 <= i < entries.len() && start <= (#[trigger] entries[i]).timestamp <= end && lookup(
            entries[i].labels,
            name,
        ) == Some(value)
}

/// The values of a label in a span are those of its entries, ascending and each once.
pub proof fn label_values_are_those_of_entries(
    entries: Seq<EntryModel>,
    name: Seq<char>,
    start: i64,
    end: i64,
)
    ensures
        rising_texts(values_of_label(entries, name, start, end)),
        forall|value: Seq<char>| #[trigger]
            values_of_label(entries, name, start, end).contains(value) <==> is_value_in(
                entries,
                name,
                start,
                end,
                value,
            ),
    decreases entries.len(),
{
    if entries.len() > 0 {
        let early = entries.drop_last();
        let last = entries.last();
        let front = values_of_label(early, name, start, end);
        label_values_are_those_of_entries(early, name, start, end);
        assert(entries[entries.len() - 1] == last);
        if lookup(last.labels, name) is Some {
            inserting_adds_one_text(front, lookup(last.labels, name)->0);
        }
        assert forall|value: Seq<char>| #[trigger]
            values_of_label(entries, name, start, end).contains(value) <==> is_value_in(
                entries,
                name,
                start,
                end,
                value,
            ) by {
            assert(front.contains(value) <==> is_value_in(early, name, start, end, value));
            if is_value_in(early, name, start, end, value) {
                let i = choose|i: int|
                    0 <= i < early.len() && start <= (#[trigger] early[i]).timestamp <= end
                        && lookup(early[i].labels, name) == Some(value);
                assert(entries[i] == early[i]);
            }
            if is_value_in(entries, name, start, end, value) {
                let i = choose|i: int|
                    0 <= i < entries.len() && start <= (#[trigger] entries[i]).timestamp <= end
                        && lookup(entries[i].labels, name) == Some(value);
                if i < early.len() {
                    assert(early[i] == entries[i]);
                }
            }
        }
    }
}

/// Label sets are strictly ascending, so that none occurs twice.
pub open spec fn rising_sets(sets: Seq<Pairs>) -> bool {
    forall|i: int, j: int|
        0 <= i < j < sets.len() ==> pairs_less(#[trigger] sets[i], #[trigger] sets[j])
}

proof fn lemma_labels_place(sets: Seq<Pairs>, labels: Pairs, from: int)
    requires
        0 <= from <= sets.len(),
    ensures
        from <= labels_place(sets, labels, from) <= sets.len(),
        forall|i: int|
            from <= i < labels_place(sets, labels, from) ==> pairs_less(
                #[trigger] sets[i],
                labels,
            ),
        labels_place(sets, labels, from) < sets.len() ==> !pairs_less(
            sets[labels_place(sets, labels, from)],
            labels,
        ),
    decreases sets.len() - from,
{
    if from < sets.len() && pairs_less(sets[from], labels) {
        lemma_labels_place(sets, labels, from + 1);
    }
}

/// Adding a label set to an ascending list adds that set and no other, once.
pub proof fn inserting_adds_one_set(sets: Seq<Pairs>, labels: Pairs)
    requires
        rising_sets(sets),
    ensures
        rising_sets(insert_labels(sets, labels)),
        forall|other: Pairs| #[trigger]
            insert_labels(sets, labels).contains(other) <==> sets.contains(other) || other
                == labels,
{
    let at = labels_place(sets, labels, 0);
    let result = insert_labels(sets, labels);
    lemma_labels_place(sets, labels, 0);
    if at < sets.len() && sets[at] == labels {
        assert(sets.contains(labels));
    } else {
        assert forall|i: int| at <= i < sets.len() implies pairs_less(labels, #[trigger] sets[i]) by {
            lemma_pairs_less_total(sets[at], labels);
            if i > at {
                lemma_pairs_less_transitive(labels, sets[at], sets[i]);
            }
        }
        assert forall|i: int, j: int| 0 <= i < j < result.len() implies pairs_less(
            #[trigger] result[i],
            #[trigger] result[j],
        ) by {
            let a = if i < at {
                i
            } else {
                i - 1
            };
            let b = if j < at {
                j
            } else {
                j - 1
            };
            if i != at {
                assert(result[i] == sets[a]);
            }
            if j != at {
                assert(result[j] == sets[b]);
            }
        }
        assert forall|other: Pairs| #[trigger]
            result.contains(other) <==> sets.contains(other) || other == labels by {
            if sets.contains(other) {
                let i = choose|i: int| 0 <= i < sets.len() && sets[i] == other;
                if i < at {
                    assert(result[i] == other);
                } else {
                    assert(result[i + 1] == other);
                }
            }
            if other == labels {
                assert(result[at] == other);
            }
            if result.contains(other) {
                let i = choose|i: int| 0 <= i < result.len() && result[i] == other;
                if i < at {
                    assert(sets[i] == other);
                } else if i > at {
                    assert(sets[i - 1] == other);
                }
            }
        }
    }
}

/// The distinct label sets of entries, ascending and each once.
pub proof fn label_sets_are_those_of_entries(entries: Seq<EntryModel>)
    ensures
        rising_sets(label_sets(entries)),
        forall|labels: Pairs| #[trigger]
            label_sets(entries).contains(labels) <==> exists|i: int|
                0 <= i < entries.len() && (#[trigger] entries[i]).labels == labels,
    decreases entries.len(),
{
    if entries.len() > 0 {
        let early = entries.drop_last();
        let last = entries.last();
        label_sets_are_those_of_entries(early);
        inserting_adds_one_set(label_sets(early), last.labels);
        assert(entries[entries.len() - 1] == last);
        assert forall|labels: Pairs| #[trigger]
            label_sets(entries).contains(labels) <==> exists|i: int|
                0 <= i < entries.len() && (#[trigger] entries[i]).labels == labels by {
            if label_sets(early).contains(labels) {
                let i = choose|i: int| 0 <= i < early.len() && (#[trigger] early[i]).labels == labels;
                assert(entries[i] == early[i]);
            }
            if exists|i: int| 0 <= i < entries.len() && (#[trigger] entries[i]).labels == labels {
                let i = choose|i: int|
                    0 <= i < entries.len() && (#[trigger] entries[i]).labels == labels;
                if i < early.len() {
                    assert(early[i].labels == labels);
                }
            }
        }
    }
}

/// Whether an entry in the span of a request for series meets one of its selectors.
pub open spec fn is_series_entry(plan: SeriesPlanModel, entry: EntryModel) -> bool {
    plan.start <= entry.timestamp <= plan.end && exists|k: int|
        0 <= k < plan.selectors.len() && entry_meets(#[trigger] plan.selectors[k], entry)
}

/// The series of a request are the label sets of the entries in its span that meet one of
/// its selectors, ascending and each once.
pub proof fn series_are_those_of_entries(plan: SeriesPlanModel, entries: Seq<EntryModel>)
    ensures
        rising_sets(series_of(plan, entries)),
        forall|labels: Pairs| #[trigger]
            series_of(plan, entries).contains(labels) <==> exists|i: int|
                0 <= i < entries.len() && (#[trigger] entries[i]).labels == labels
                    && is_series_entry(plan, entries[i]),
    decreases entries.len(),
{
    if entries.len() > 0 {
        let early = entries.drop_last();
        let last = entries.last();
        series_are_those_of_entries(plan, early);
        inserting_adds_one_set(series_of(plan, early), last.labels);
        assert(entries[entries.len() - 1] == last);
        assert(any_selects(plan.selectors, last) == exists|k: int|
            0 <= k < plan.selectors.len() && entry_meets(#[trigger] plan.selectors[k], last)) by {
            assert forall|k: int| 0 <= k < plan.selectors.len() implies selects_entry(
                #[trigger] plan.selectors[k],
                last,
            ) == entry_meets(plan.selectors[k], last) by {
                selectors_select_what_they_ask_for(plan.selectors[k], last);
            }
        }
        assert forall|labels: Pairs| #[trigger]
            series_of(plan, entries).contains(labels) <==> exists|i: int|
                0 <= i < entries.len() && (#[trigger] entries[i]).labels == labels
                    && is_series_entry(plan, entries[i]) by {
            if series_of(plan, early).contains(labels) {
                let i = choose|i: int|
                    0 <= i < early.len() && (#[trigger] early[i]).labels == labels
                        && is_series_entry(plan, early[i]);
                assert(entries[i] == early[i]);
            }
            if exists|i: int|
                0 <= i < entries.len() && (#[trigger] entries[i]).labels == labels
                    && is_series_entry(plan, entries[i]) {
                let i = choose|i: int|
                    0 <= i < entries.len() && (#[trigger] entries[i]).labels == labels
                        && is_series_entry(plan, entries[i]);
                if i < early.len() {
                    assert(early[i] == entries[i]);
                }
            }
        }
    }
}

/// Bytes of the lines of the entries whose labels have a text.
pub open spec fn bytes_under(entries: Seq<EntryModel>, name: Seq<char>) -> nat
    decreases entries.len(),
{
    if entries.len() == 0 {
        0
    } else if label_set_text(entries.last().labels) == name {
        bytes_under(entries.drop_last(), name) + encode_utf8(entries.last().line).len()
    } else {
        bytes_under(entries.drop_last(), name)
    }
}

proof fn lemma_volume_place(volumes: Seq<(Seq<char>, nat)>, name: Seq<char>, from: int)
    requires
        0 <= from <= volumes.len(),
    ensures
        from <= volume_place(volumes, name, from) <= volumes.len(),
        forall|i: int|
            from <= i < volume_place(volumes, name, from) ==> text_less(
                (#[trigger] volumes[i]).0,
                name,
            ),
        volume_place(volumes, name, from) < volumes.len() ==> !text_less(
            volumes[volume_place(volumes, name, from)].0,
            name,
        ),
    decreases volumes.len() - from,
{
    if from < volumes.len() && text_less(volumes[from].0, name) {
        lemma_volume_place(volumes, name, from + 1);
    }
}

/// Volumes in strictly ascending order of their names.
pub open spec fn rising_volumes(volumes: Seq<(Seq<char>, nat)>) -> bool {
    forall|i: int, j: int|
        0 <= i < j < volumes.len() ==> text_less(
            (#[trigger] volumes[i]).0,
            (#[trigger] volumes[j]).0,
        )
}

proof fn lemma_one_volume(volumes: Seq<(Seq<char>, nat)>, left: nat, right: nat, name: Seq<char>)
    requires
        rising_volumes(volumes),
        volumes.contains((name, left)),
        volumes.contains((name, right)),
    ensures
        left == right,
{
    let i = choose|i: int| 0 <= i < volumes.len() && volumes[i] == (name, left);
    let j = choose|j: int| 0 <= j < volumes.len() && volumes[j] == (name, right);
    lemma_text_less_total(name, name);
    if i < j {
        assert(text_less(volumes[i].0, volumes[j].0));
    } else if j < i {
        assert(text_less(volumes[j].0, volumes[i].0));
    }
}

/// Adding bytes adds them to the volume of one name and leaves the others.
pub proof fn adding_bytes_changes_one_volume(
    volumes: Seq<(Seq<char>, nat)>,
    name: Seq<char>,
    bytes: nat,
)
    requires
        rising_volumes(volumes),
    ensures
        rising_volumes(add_volume(volumes, name, bytes)),
        forall|other: Seq<char>, n: nat|
            other != name ==> (#[trigger] add_volume(volumes, name, bytes).contains((other, n))
                <==> volumes.contains((other, n))),
        forall|n: nat| #[trigger]
            volumes.contains((name, n)) ==> add_volume(volumes, name, bytes).contains(
                (name, n + bytes),
            ),
        (forall|n: nat| !#[trigger] volumes.contains((name, n))) ==> add_volume(
            volumes,
            name,
            bytes,
        ).contains((name, bytes)),
{
    let at = volume_place(volumes, name, 0);
    let all = add_volume(volumes, name, bytes);
    lemma_volume_place(volumes, name, 0);
    let known = at < volumes.len() && volumes[at].0 == name;
    if known {
        assert(volumes[at] == (name, volumes[at].1));
        assert(volumes.contains((name, volumes[at].1)));
        assert(all[at] == (name, volumes[at].1 + bytes));
        assert forall|n: nat| #[trigger] volumes.contains((name, n)) implies all.contains(
            (name, n + bytes),
        ) by {
            lemma_one_volume(volumes, n, volumes[at].1, name);
        }
        assert forall|other: Seq<char>, n: nat| other != name implies (#[trigger] all.contains(
            (other, n),
        ) <==> volumes.contains((other, n))) by {
            if all.contains((other, n)) {
                let i = choose|i: int| 0 <= i < all.len() && all[i] == (other, n);
                assert(volumes[i] == (other, n));
            }
            if volumes.contains((other, n)) {
                let i = choose|i: int| 0 <= i < volumes.len() && volumes[i] == (other, n);
                assert(all[i] == (other, n));
            }
        }
        assert forall|i: int, j: int| 0 <= i < j < all.len() implies text_less(
            (#[trigger] all[i]).0,
            (#[trigger] all[j]).0,
        ) by {
            assert(text_less(volumes[i].0, volumes[j].0));
        }
    } else {
        assert(all[at] == (name, bytes));
        assert forall|i: int| at <= i < volumes.len() implies text_less(
            name,
            (#[trigger] volumes[i]).0,
        ) by {
            lemma_text_less_total(volumes[at].0, name);
            if i > at {
                assert(text_less(volumes[at].0, volumes[i].0));
                lemma_text_less_transitive(name, volumes[at].0, volumes[i].0);
            }
        }
        assert forall|n: nat| !#[trigger] volumes.contains((name, n)) by {
            if volumes.contains((name, n)) {
                let i = choose|i: int| 0 <= i < volumes.len() && volumes[i] == (name, n);
                lemma_text_less_total(name, name);
            }
        }
        assert forall|other: Seq<char>, n: nat| other != name implies (#[trigger] all.contains(
            (other, n),
        ) <==> volumes.contains((other, n))) by {
            if all.contains((other, n)) {
                let i = choose|i: int| 0 <= i < all.len() && all[i] == (other, n);
                if i < at {
                    assert(volumes[i] == (other, n));
                } else {
                    assert(volumes[i - 1] == (other, n));
                }
            }
            if volumes.contains((other, n)) {
                let i = choose|i: int| 0 <= i < volumes.len() && volumes[i] == (other, n);
                if i < at {
                    assert(all[i] == (other, n));
                } else {
                    assert(all[i + 1] == (other, n));
                }
            }
        }
        assert forall|i: int, j: int| 0 <= i < j < all.len() implies text_less(
            (#[trigger] all[i]).0,
            (#[trigger] all[j]).0,
        ) by {
            if i < at && j < at {
                assert(text_less(volumes[i].0, volumes[j].0));
            } else if i < at && j > at {
                assert(text_less(volumes[i].0, volumes[j - 1].0));
            } else if i > at {
                assert(text_less(volumes[i - 1].0, volumes[j - 1].0));
            } else if i == at {
                assert(all[j] == volumes[j - 1]);
            } else {
                assert(all[i] == volumes[i]);
            }
        }
    }
}

/// Whether a text is that of the labels of some entry.
pub open spec fn is_set_text(entries: Seq<EntryModel>, name: Seq<char>) -> bool {
    exists|k: int|
        0 <= k < entries.len() && label_set_text((#[trigger] entries[k]).labels) == name
}

/// The volume of a label set is the bytes of the lines of all its entries; every set has
/// one volume, in ascending order of their texts.
pub proof fn volumes_are_those_of_entries(entries: Seq<EntryModel>)
    ensures
        rising_volumes(volumes_of(entries)),
        forall|name: Seq<char>, n: nat| #[trigger]
            volumes_of(entries).contains((name, n)) <==> is_set_text(entries, name) && n
                == bytes_under(entries, name),
    decreases entries.len(),
{
    if entries.len() > 0 {
        let early = entries.drop_last();
        let last = entries.last();
        let text = label_set_text(last.labels);
        let bytes = encode_utf8(last.line).len();
        let front = volumes_of(early);
        let all = volumes_of(entries);
        volumes_are_those_of_entries(early);
        adding_bytes_changes_one_volume(front, text, bytes);
        assert(entries[entries.len() - 1] == last);
        assert forall|name: Seq<char>| #[trigger] is_set_text(entries, name) == (is_set_text(
            early,
            name,
        ) || name == text) by {
            if is_set_text(early, name) {
                let k = choose|k: int|
                    0 <= k < early.len() && label_set_text((#[trigger] early[k]).labels) == name;
                assert(entries[k] == early[k]);
            }
            if is_set_text(entries, name) {
                let k = choose|k: int|
                    0 <= k < entries.len() && label_set_text((#[trigger] entries[k]).labels)
                        == name;
                if k < early.len() {
                    assert(early[k] == entries[k]);
                }
            }
        }
        if is_set_text(early, text) {
            assert(front.contains((text, bytes_under(early, text))));
        } else {
            assert forall|n: nat| !#[trigger] front.contains((text, n)) by {}
            assert forall|k: int| 0 <= k < early.len() implies label_set_text(
                (#[trigger] early[k]).labels,
            ) != text by {}
            lemma_no_bytes(early, text);
        }
        assert(all.contains((text, bytes_under(entries, text))));
        assert forall|name: Seq<char>, n: nat| #[trigger]
            all.contains((name, n)) <==> is_set_text(entries, name) && n == bytes_under(
                entries,
                name,
            ) by {
            if name == text {
                if all.contains((name, n)) {
                    lemma_one_volume(all, n, bytes_under(entries, text), text);
                }
            } else {
                assert(all.contains((name, n)) <==> front.contains((name, n)));
            }
        }
    }
}

proof fn lemma_no_bytes(entries: Seq<EntryModel>, name: Seq<char>)
    requires
        forall|k: int|
            0 <= k < entries.len() ==> label_set_text((#[trigger] entries[k]).labels) != name,
    ensures
        bytes_under(entries, name) == 0,
    decreases entries.len(),
{
    if entries.len() > 0 {
        let early = entries.drop_last();
        assert forall|k: int| 0 <= k < early.len() implies label_set_text(
            (#[trigger] early[k]).labels,
        ) != name by {
            assert(early[k] == entries[k]);
        }
        lemma_no_bytes(early, name);
        assert(entries[entries.len() - 1] == entries.last());
    }
}

/// Times and lines of the entries that are shown under labels, in their order.
pub open spec fn lines_under(entries: Seq<EntryModel>, labels: Pairs) -> Seq<(i64, Seq<char>)>
    decreases entries.len(),
{
    if entries.len() == 0 {
        Seq::empty()
    } else if response_labels_of(entries.last()) == labels {
        lines_under(entries.drop_last(), labels).push(
            (entries.last().timestamp, entries.last().line),
        )
    } else {
        lines_under(entries.drop_last(), labels)
    }
}

/// Streams in strictly ascending order of their labels.
pub open spec fn rising_streams(streams: Seq<StreamModel>) -> bool {
    forall|i: int, j: int|
        0 <= i < j < streams.len() ==> pairs_less(
            (#[trigger] streams[i]).labels,
            (#[trigger] streams[j]).labels,
        )
}

proof fn lemma_stream_place(streams: Seq<StreamModel>, labels: Pairs, from: int)
    requires
        0 <= from <= streams.len(),
    ensures
        from <= stream_place(streams, labels, from) <= streams.len(),
        forall|i: int|
            from <= i < stream_place(streams, labels, from) ==> pairs_less(
                (#[trigger] streams[i]).labels,
                labels,
            ),
        stream_place(streams, labels, from) < streams.len() ==> !pairs_less(
            streams[stream_place(streams, labels, from)].labels,
            labels,
        ),
    decreases streams.len() - from,
{
    if from < streams.len() && pairs_less(streams[from].labels, labels) {
        lemma_stream_place(streams, labels, from + 1);
    }
}

proof fn lemma_one_stream(streams: Seq<StreamModel>, left: StreamModel, right: StreamModel)
    requires
        rising_streams(streams),
        streams.contains(left),
        streams.contains(right),
        left.labels == right.labels,
    ensures
        left == right,
{
    let i = choose|i: int| 0 <= i < streams.len() && streams[i] == left;
    let j = choose|j: int| 0 <= j < streams.len() && streams[j] == right;
    lemma_pairs_less_total(left.labels, left.labels);
    if i < j {
        assert(pairs_less(streams[i].labels, streams[j].labels));
    } else if j < i {
        assert(pairs_less(streams[j].labels, streams[i].labels));
    }
}

/// Adding a line puts it behind the lines of one stream and leaves the others.
pub proof fn adding_a_line_changes_one_stream(
    streams: Seq<StreamModel>,
    labels: Pairs,
    value: (i64, Seq<char>),
)
    requires
        rising_streams(streams),
    ensures
        rising_streams(add_line(streams, labels, value)),
        forall|other: StreamModel|
            other.labels != labels ==> (#[trigger] add_line(streams, labels, value).contains(other)
                <==> streams.contains(other)),
        forall|stream: StreamModel| #[trigger]
            streams.contains(stream) && stream.labels == labels ==> add_line(
                streams,
                labels,
                value,
            ).contains(StreamModel { labels, values: stream.values.push(value) }),
        (forall|stream: StreamModel| #[trigger]
            streams.contains(stream) ==> stream.labels != labels) ==> add_line(
            streams,
            labels,
            value,
        ).contains(StreamModel { labels, values: seq![value] }),
{
    let at = stream_place(streams, labels, 0);
    let all = add_line(streams, labels, value);
    lemma_stream_place(streams, labels, 0);
    let known = at < streams.len() && streams[at].labels == labels;
    if known {
        assert(streams.contains(streams[at]));
        assert(all[at] == StreamModel { labels, values: streams[at].values.push(value) });
        assert(all.contains(all[at]));
        assert forall|stream: StreamModel| #[trigger]
            streams.contains(stream) && stream.labels == labels implies all.contains(
            StreamModel { labels, values: stream.values.push(value) },
        ) by {
            lemma_one_stream(streams, stream, streams[at]);
        }
        assert forall|other: StreamModel| other.labels != labels implies (#[trigger] all.contains(
            other,
        ) <==> streams.contains(other)) by {
            if all.contains(other) {
                let i = choose|i: int| 0 <= i < all.len() && all[i] == other;
                assert(streams[i] == other);
            }
            if streams.contains(other) {
                let i = choose|i: int| 0 <= i < streams.len() && streams[i] == other;
                assert(all[i] == other);
            }
        }
        assert forall|i: int, j: int| 0 <= i < j < all.len() implies pairs_less(
            (#[trigger] all[i]).labels,
            (#[trigger] all[j]).labels,
        ) by {
            assert(pairs_less(streams[i].labels, streams[j].labels));
        }
    } else {
        assert(all[at] == StreamModel { labels, values: seq![value] });
        assert(all.contains(all[at]));
        assert forall|i: int| at <= i < streams.len() implies pairs_less(
            labels,
            (#[trigger] streams[i]).labels,
        ) by {
            lemma_pairs_less_total(streams[at].labels, labels);
            if i > at {
                assert(pairs_less(streams[at].labels, streams[i].labels));
                lemma_pairs_less_transitive(labels, streams[at].labels, streams[i].labels);
            }
        }
        assert forall|stream: StreamModel| #[trigger]
            streams.contains(stream) implies stream.labels != labels by {
            let i = choose|i: int| 0 <= i < streams.len() && streams[i] == stream;
            lemma_pairs_less_total(labels, labels);
            assert(streams[i].labels == stream.labels);
        }
        assert forall|other: StreamModel| other.labels != labels implies (#[trigger] all.contains(
            other,
        ) <==> streams.contains(other)) by {
            if all.contains(other) {
                let i = choose|i: int| 0 <= i < all.len() && all[i] == other;
                if i < at {
                    assert(streams[i] == other);
                } else {
                    assert(streams[i - 1] == other);
                }
            }
            if streams.contains(other) {
                let i = choose|i: int| 0 <= i < streams.len() && streams[i] == other;
                if i < at {
                    assert(all[i] == other);
                } else {
                    assert(all[i + 1] == other);
                }
            }
        }
        assert forall|i: int, j: int| 0 <= i < j < all.len() implies pairs_less(
            (#[trigger] all[i]).labels,
            (#[trigger] all[j]).labels,
        ) by {
            if i < at && j < at {
                assert(pairs_less(streams[i].labels, streams[j].labels));
            } else if i < at && j > at {
                assert(pairs_less(streams[i].labels, streams[j - 1].labels));
            } else if i > at {
                assert(pairs_less(streams[i - 1].labels, streams[j - 1].labels));
            } else if i == at {
                assert(all[j] == streams[j - 1]);
            } else {
                assert(all[i] == streams[i]);
            }
        }
    }
}

/// A response groups entries by their labels: there is one stream for each set of labels
/// that an entry is shown under, in ascending order, and it holds the times and lines of
/// exactly those entries, in their order.
pub proof fn streams_hold_the_lines_of_their_entries(entries: Seq<EntryModel>)
    ensures
        rising_streams(streams_of(entries)),
        forall|stream: StreamModel| #[trigger]
            streams_of(entries).contains(stream) <==> stream.values == lines_under(
                entries,
                stream.labels,
            ) && stream.values.len() > 0,
    decreases entries.len(),
{
    if entries.len() > 0 {
        let early = entries.drop_last();
        let last = entries.last();
        let labels = response_labels_of(last);
        let value = (last.timestamp, last.line);
        let front = streams_of(early);
        let all = streams_of(entries);
        let whole = StreamModel { labels, values: lines_under(entries, labels) };
        let before = StreamModel { labels, values: lines_under(early, labels) };
        streams_hold_the_lines_of_their_entries(early);
        adding_a_line_changes_one_stream(front, labels, value);
        if before.values.len() > 0 {
            assert(front.contains(before));
        } else {
            assert forall|stream: StreamModel| #[trigger]
                front.contains(stream) implies stream.labels != labels by {}
            assert(lines_under(entries, labels) =~= seq![value]);
        }
        assert(all.contains(whole));
        assert forall|stream: StreamModel| #[trigger]
            all.contains(stream) <==> stream.values == lines_under(entries, stream.labels)
                && stream.values.len() > 0 by {
            if stream.labels == labels {
                if all.contains(stream) {
                    lemma_one_stream(all, stream, whole);
                }
                if stream.values == lines_under(entries, stream.labels) {
                    assert(stream == whole);
                }
            } else {
                assert(all.contains(stream) <==> front.contains(stream));
            }
        }
    }
}

/// An entry is shown under its labels and its metadata, which win where both have a name,
/// and under a level: its own where it has one, else the one that is detected.
pub proof fn responses_show_labels_metadata_and_level(
    entry: EntryModel,
    name: Seq<char>,
    value: Seq<char>,
)
    requires
        ascending(entry.labels),
        ascending(entry.metadata),
    ensures
        response_labels_of(entry).contains((name, value)) <==> if name == "detected_level"@
            && !has_key(entry.labels, name) && !has_key(entry.metadata, name) {
            value == level_of(extend_pairs(entry.labels, entry.metadata), entry.line)
        } else {
            entry.metadata.contains((name, value)) || entry.labels.contains((name, value))
                && !has_key(entry.metadata, name)
        },
{
    let all = extend_pairs(entry.labels, entry.metadata);
    let level = "detected_level"@;
    extending_overrides(entry.labels, entry.metadata, name, value);
    inserting_binds_one_key(all, level, level_of(all, entry.line), name, value);
    if has_key(all, level) {
        let i = choose|i: int| 0 <= i < all.len() && #[trigger] all[i].0 == level;
        assert(all[i] == (level, all[i].1));
        assert(all.contains((level, all[i].1)));
        extending_overrides(entry.labels, entry.metadata, level, all[i].1);
        if entry.metadata.contains((level, all[i].1)) {
            let k = choose|k: int|
                0 <= k < entry.metadata.len() && entry.metadata[k] == (level, all[i].1);
            assert(entry.metadata[k].0 == level);
        } else {
            let k = choose|k: int|
                0 <= k < entry.labels.len() && entry.labels[k] == (level, all[i].1);
            assert(entry.labels[k].0 == level);
        }
    } else {
        if has_key(entry.metadata, level) {
            let k = choose|k: int|
                0 <= k < entry.metadata.len() && #[trigger] entry.metadata[k].0 == level;
            let bound = entry.metadata[k].1;
            assert(entry.metadata[k] == (level, bound));
            assert(entry.metadata.contains((level, bound)));
            extending_overrides(entry.labels, entry.metadata, level, bound);
            let i = choose|i: int| 0 <= i < all.len() && all[i] == (level, bound);
            assert(all[i].0 == level);
        } else if has_key(entry.labels, level) {
            let k = choose|k: int|
                0 <= k < entry.labels.len() && #[trigger] entry.labels[k].0 == level;
            let bound = entry.labels[k].1;
            assert(entry.labels[k] == (level, bound));
            assert(entry.labels.contains((level, bound)));
            extending_overrides(entry.labels, entry.metadata, level, bound);
            let i = choose|i: int| 0 <= i < all.len() && all[i] == (level, bound);
            assert(all[i].0 == level);
        }
    }
}

/// The level of a line: that of the first label among `level`, `severity`, `severity_text`,
/// `lvl` and `log_level`, in lowercase; else the first of the words `trace`, `debug`,
/// `info`, `warn`, `error` and `fatal` that the lowercase line has as a word; else unknown.
pub proof fn levels_are_detected(labels: Pairs, line: Seq<char>, k: int)
    ensures
        ({
            let names = seq!["level"@, "severity"@, "severity_text"@, "lvl"@, "log_level"@];
            let words = seq!["trace"@, "debug"@, "info"@, "warn"@, "error"@, "fatal"@];
            let unlabelled = forall|i: int|
                0 <= i < 5 ==> lookup(labels, #[trigger] names[i]) is None;
            &&& 0 <= k < 5 && lookup(labels, names[k]) is Some && (forall|i: int|
                0 <= i < k ==> lookup(labels, #[trigger] names[i]) is None) ==> level_of(
                labels,
                line,
            ) == ascii_lowered(lookup(labels, names[k])->0)
            &&& 0 <= k < 6 && unlabelled && stands_alone(ascii_lowered(line), words[k]) && (forall|
                i: int,
            |
                0 <= i < k ==> !stands_alone(ascii_lowered(line), #[trigger] words[i])) ==> level_of(
                labels,
                line,
            ) == words[k]
            &&& unlabelled && (forall|i: int|
                0 <= i < 6 ==> !stands_alone(ascii_lowered(line), #[trigger] words[i])) ==> level_of(
                labels,
                line,
            ) == "unknown"@
        }),
{
    let names = seq!["level"@, "severity"@, "severity_text"@, "lvl"@, "log_level"@];
    let words = seq!["trace"@, "debug"@, "info"@, "warn"@, "error"@, "fatal"@];
    let lowered = ascii_lowered(line);
    assert(names =~= level_names());
    assert(words =~= level_words());
    assert forall|i: int| 0 <= i < 6 implies has_word(lowered, #[trigger] words[i]) == stands_alone(
        lowered,
        words[i],
    ) by {
        lemma_stands_alone(lowered, words[i]);
    }
    if 0 <= k < 5 && lookup(labels, names[k]) is Some && (forall|i: int|
        0 <= i < k ==> lookup(labels, #[trigger] names[i]) is None) {
        lemma_first_label(labels, names, 0, k);
    }
    if forall|i: int| 0 <= i < 5 ==> lookup(labels, #[trigger] names[i]) is None {
        lemma_first_label(labels, names, 0, 5);
        if 0 <= k < 6 && stands_alone(lowered, words[k]) && (forall|i: int|
            0 <= i < k ==> !stands_alone(lowered, #[trigger] words[i])) {
            lemma_first_word(lowered, words, 0, k);
        }
        if forall|i: int| 0 <= i < 6 ==> !stands_alone(lowered, #[trigger] words[i]) {
            lemma_first_word(lowered, words, 0, 6);
        }
    }
}

proof fn lemma_first_label(labels: Pairs, names: Seq<Seq<char>>, from: int, k: int)
    requires
        0 <= from <= k <= names.len(),
        forall|i: int| from <= i < k ==> lookup(labels, #[trigger] names[i]) is None,
        k < names.len() ==> lookup(labels, names[k]) is Some,
    ensures
        first_label(labels, names, from) == if k < names.len() {
            lookup(labels, names[k])
        } else {
            None
        },
    decreases k - from,
{
    if from < k {
        assert(lookup(labels, names[from]) is None);
        lemma_first_label(labels, names, from + 1, k);
    }
}

proof fn lemma_first_word(text: Seq<char>, words: Seq<Seq<char>>, from: int, k: int)
    requires
        0 <= from <= k <= words.len(),
        forall|i: int| from <= i < k ==> !has_word(text, #[trigger] words[i]),
        k < words.len() ==> has_word(text, words[k]),
    ensures
        first_word(text, words, from) == if k < words.len() {
            Some(k)
        } else {
            None
        },
    decreases k - from,
{
    if from < k {
        assert(!has_word(text, words[from]));
        lemma_first_word(text, words, from + 1, k);
    }
}

/// Whether a character is an ASCII letter or digit.
pub open spec fn is_alphanumeric(character: char) -> bool {
    'a' <= character <= 'z' || 'A' <= character <= 'Z' || '0' <= character <= '9'
}

/// Whether a word stands in a text with no letter or digit beside it.
pub open spec fn stands_alone(text: Seq<char>, word: Seq<char>) -> bool {
    exists|at: int|
        0 <= at && at + word.len() <= text.len() && #[trigger] text.subrange(at, at + word.len())
            == word && (at > 0 ==> !is_alphanumeric(text[at - 1])) && (at + word.len() < text.len()
            ==> !is_alphanumeric(text[(at + word.len()) as int]))
}

proof fn lemma_stands_alone(text: Seq<char>, word: Seq<char>)
    ensures
        has_word(text, word) == stands_alone(text, word),
{
    if has_word(text, word) {
        let at = choose|at: int| #[trigger] word_at(text, at, word);
        assert(text.subrange(at, at + word.len()) =~= word);
    }
    if stands_alone(text, word) {
        let at = choose|at: int|
            0 <= at && at + word.len() <= text.len() && #[trigger] text.subrange(
                at,
                at + word.len(),
            ) == word && (at > 0 ==> !is_alphanumeric(text[at - 1])) && (at + word.len()
                < text.len() ==> !is_alphanumeric(text[(at + word.len()) as int]));
        assert forall|i: int| 0 <= i < word.len() implies text[at + i] == #[trigger] word[i] by {
            assert(text.subrange(at, at + word.len())[i] == word[i]);
        }
        assert(word_at(text, at, word));
    }
}

} // verus!
