//! Laws of detecting fields and counting patterns.
use vstd::prelude::*;

use crate::codec::{lemma_text_less_total, lemma_text_less_transitive, text_less};
use crate::labels::Pairs;
use crate::logql_laws::is_name;
use crate::loki_fields::{
    add_field, add_line_fields, add_metadata, ascii_space, bare_value, field_place, field_state,
    fields_in_line, json_line_fields, json_text, place_of, surrounds, value_end, value_start,
    word_edge, word_field, word_fields, DetectedModel, JsonFieldModel, LineFieldModel, LineParser,
};
use crate::loki_query::label_name;
use crate::loki_stats::{
    add_pattern, add_sample, bucket_of, pattern_place, pattern_state, sample_place, selection_holds,
    PatternModel, SelectionModel,
};
use crate::record::EntryModel;
use crate::text_set::{insert_text, inserting_adds_one_text, rising_texts};

verus! {

broadcast use vstd::seq_lib::group_seq_properties;

/// Whether a text has no ASCII white space.
pub open spec fn is_word(text: Seq<char>) -> bool {
    text.len() > 0 && forall|i: int|
        0 <= i < text.len() ==> {
            let character = #[trigger] text[i];
            character != ' ' && character != '\t' && character != '\n' && character != '\u{c}'
                && character != '\r'
        }
}

proof fn lemma_edge_shift(front: Seq<char>, rest: Seq<char>, at: int, space: bool)
    requires
        0 <= at,
    ensures
        word_edge(front + rest, front.len() + at, space) == front.len() + word_edge(
            rest,
            at,
            space,
        ),
    decreases rest.len() - at,
{
    let all = front + rest;
    if at < rest.len() {
        assert(all[front.len() + at] == rest[at]);
        lemma_edge_shift(front, rest, at + 1, space);
    }
}

proof fn lemma_edge_place(text: Seq<char>, at: int, space: bool)
    requires
        0 <= at <= text.len(),
    ensures
        at <= word_edge(text, at, space) <= text.len(),
        word_edge(text, at, space) < text.len() ==> ascii_space(
            text[word_edge(text, at, space)],
        ) == space,
    decreases text.len() - at,
{
    if at < text.len() && ascii_space(text[at]) != space {
        lemma_edge_place(text, at + 1, space);
    }
}

proof fn lemma_fields_shift(front: Seq<char>, rest: Seq<char>, at: int)
    requires
        0 <= at,
    ensures
        word_fields(front + rest, front.len() + at) == word_fields(rest, at),
    decreases rest.len() - at,
{
    let all = front + rest;
    let n = front.len() as int;
    lemma_edge_shift(front, rest, at, false);
    if at < rest.len() {
        let start = word_edge(rest, at, false);
        lemma_edge_place(rest, at, false);
        if start < rest.len() {
            lemma_edge_shift(front, rest, start, true);
            let end = word_edge(rest, start, true);
            lemma_edge_place(rest, start, true);
            assert(end > start);
            lemma_fields_shift(front, rest, end);
            assert(all.subrange(n + start, n + end) =~= rest.subrange(start, end));
        }
    }
}

proof fn lemma_edge_of_word(word: Seq<char>, rest: Seq<char>, at: int)
    requires
        is_word(word),
        0 <= at <= word.len(),
        rest.len() > 0 ==> ascii_space(rest[0]),
    ensures
        word_edge(word + rest, at, true) == word.len(),
    decreases word.len() - at,
{
    let all = word + rest;
    if at < word.len() {
        assert(all[at] == word[at]);
        lemma_edge_of_word(word, rest, at + 1);
    } else if rest.len() > 0 {
        assert(all[at] == rest[0]);
    }
}

/// The fields of a line are those of its words, one after the other: a word before white
/// space gives its own field, if it has one, before those of the rest, and white space gives
/// none.
pub proof fn words_give_their_fields(word: Seq<char>, rest: Seq<char>, space: char)
    requires
        is_word(word),
        rest.len() > 0 ==> rest[0] == space,
        space == ' ' || space == '\t' || space == '\n' || space == '\u{c}' || space == '\r',
    ensures
        word_fields(word + rest, 0) == (match word_field(word) {
            Some(field) => seq![field],
            None => Seq::<LineFieldModel>::empty(),
        }) + word_fields(rest, 0),
        word_fields(seq![space] + word, 0) == word_fields(word, 0),
        word_fields(Seq::<char>::empty(), 0) == Seq::<LineFieldModel>::empty(),
{
    let all = word + rest;
    assert(!ascii_space(word[0]));
    assert(all[0] == word[0]);
    assert(word_edge(all, 0, false) == 0);
    lemma_edge_of_word(word, rest, 0);
    assert(all.subrange(0, word.len() as int) =~= word);
    lemma_fields_shift(word, rest, 0);
    let fields = word_fields(rest, 0);
    assert(Seq::<LineFieldModel>::empty() + fields =~= fields);
    let spaced = seq![space] + word;
    assert(spaced[0] == space);
    assert(word_edge(spaced, 0, false) == word_edge(spaced, 1, false));
    lemma_edge_shift(seq![space], word, 0, false);
    lemma_fields_shift(seq![space], word, 0);
    assert(word_fields(spaced, 0) == word_fields(spaced, 1)) by {
        assert(word_edge(spaced, 1, false) == 1) by {
            assert(spaced[1] == word[0]);
        }
    }
}

/// Whether a text consists of quotes and commas.
pub open spec fn is_wrapping(text: Seq<char>) -> bool {
    forall|i: int|
        0 <= i < text.len() ==> (#[trigger] text[i]) == '"' || text[i] == '\'' || text[i] == ','
}

proof fn lemma_value_start(wrap: Seq<char>, rest: Seq<char>, at: int)
    requires
        is_wrapping(wrap),
        rest.len() > 0,
        !surrounds(rest[0]),
        0 <= at <= wrap.len(),
    ensures
        value_start(wrap + rest, at) == wrap.len(),
    decreases wrap.len() - at,
{
    let all = wrap + rest;
    if at < wrap.len() {
        assert(all[at] == wrap[at]);
        lemma_value_start(wrap, rest, at + 1);
    } else {
        assert(all[at] == rest[0]);
    }
}

proof fn lemma_value_end(front: Seq<char>, wrap: Seq<char>, start: int, end: int)
    requires
        is_wrapping(wrap),
        0 <= start < front.len(),
        !surrounds(front.last()),
        front.len() <= end <= front.len() + wrap.len(),
    ensures
        value_end(front + wrap, start, end) == front.len(),
    decreases end,
{
    let all = front + wrap;
    if end > front.len() {
        assert(all[end - 1] == wrap[end - 1 - front.len()]);
        lemma_value_end(front, wrap, start, end - 1);
    } else {
        assert(all[end - 1] == front.last());
    }
}

/// A word that is a label name, an equals sign and a value in quotes or commas is a field with
/// that name and the bare value.
pub proof fn words_are_fields(
    name: Seq<char>,
    before: Seq<char>,
    value: Seq<char>,
    behind: Seq<char>,
)
    requires
        is_name(name),
        is_wrapping(before),
        is_wrapping(behind),
        value.len() > 0,
        !is_wrapping(seq![value[0]]),
        !is_wrapping(seq![value.last()]),
    ensures
        word_field(name + seq!['='] + (before + value + behind)) == Some(
            LineFieldModel { name, value, parser: LineParser::Logfmt },
        ),
{
    let wrapped = before + value + behind;
    let word = name + seq!['='] + wrapped;
    let n = name.len() as int;
    lemma_first_place(name, seq!['='] + wrapped, 0);
    assert(name + (seq!['='] + wrapped) =~= word);
    assert(word.subrange(0, n) =~= name);
    assert(word.subrange(n + 1, word.len() as int) =~= wrapped);
    assert(!surrounds(value[0])) by {
        let one = seq![value[0]];
        let i = choose|i: int|
            0 <= i < one.len() && !((#[trigger] one[i]) == '"' || one[i] == '\'' || one[i] == ',');
        assert(one[i] == value[0]);
    }
    assert(!surrounds(value.last())) by {
        let one = seq![value.last()];
        let i = choose|i: int|
            0 <= i < one.len() && !((#[trigger] one[i]) == '"' || one[i] == '\'' || one[i] == ',');
        assert(one[i] == value.last());
    }
    let rest = value + behind;
    assert(rest[0] == value[0]);
    lemma_value_start(before, rest, 0);
    assert(before + rest =~= wrapped);
    let front = before + value;
    assert(front.last() == value.last());
    lemma_value_end(front, behind, before.len() as int, wrapped.len() as int);
    assert(bare_value(wrapped) =~= value);
    assert(label_name(name));
}

proof fn lemma_first_place(name: Seq<char>, rest: Seq<char>, at: int)
    requires
        forall|i: int| 0 <= i < name.len() ==> #[trigger] name[i] != '=',
        rest.len() > 0,
        rest[0] == '=',
        0 <= at <= name.len(),
    ensures
        place_of(name + rest, '=', at) == Some(name.len() as int),
    decreases name.len() - at,
{
    let all = name + rest;
    if at < name.len() {
        assert(all[at] == name[at]);
        lemma_first_place(name, rest, at + 1);
    } else {
        assert(all[at] == rest[0]);
    }
}

/// The fields of a JSON object are its texts, numbers and truth values, in their order.
pub proof fn objects_give_their_fields(
    left: Seq<(Seq<char>, JsonFieldModel)>,
    right: Seq<(Seq<char>, JsonFieldModel)>,
)
    ensures
        json_line_fields(left + right) == json_line_fields(left) + json_line_fields(right),
        forall|name: Seq<char>, text: Seq<char>| #[trigger]
            json_line_fields(seq![(name, JsonFieldModel::Text(text))]) == seq![
                LineFieldModel { name, value: text, parser: LineParser::Json },
            ],
        forall|name: Seq<char>, text: Seq<char>| #[trigger]
            json_line_fields(seq![(name, JsonFieldModel::Number(text))]) == seq![
                LineFieldModel { name, value: text, parser: LineParser::Json },
            ],
        forall|name: Seq<char>, truth: bool| #[trigger]
            json_line_fields(seq![(name, JsonFieldModel::Boolean(truth))]) == seq![
                LineFieldModel {
                    name,
                    value: if truth {
                        "true"@
                    } else {
                        "false"@
                    },
                    parser: LineParser::Json,
                },
            ],
        forall|name: Seq<char>| #[trigger]
            json_line_fields(seq![(name, JsonFieldModel::Other)]) == Seq::<
                LineFieldModel,
            >::empty(),
    decreases right.len(),
{
    assert forall|name: Seq<char>, field: JsonFieldModel| #[trigger]
        json_line_fields(seq![(name, field)]) == match json_text(field) {
            Some(value) => seq![LineFieldModel { name, value, parser: LineParser::Json }],
            None => Seq::empty(),
        } by {
        let one = seq![(name, field)];
        assert(one.drop_last() =~= Seq::<(Seq<char>, JsonFieldModel)>::empty());
        assert(one.last() == (name, field));
        assert(json_line_fields(one.drop_last()) =~= Seq::<LineFieldModel>::empty());
    }
    if right.len() == 0 {
        assert(left + right =~= left);
        assert(json_line_fields(left) + json_line_fields(right) =~= json_line_fields(left));
    } else {
        objects_give_their_fields(left, right.drop_last());
        assert((left + right).drop_last() =~= left + right.drop_last());
        assert((left + right).last() == right.last());
        assert(json_line_fields(left + right) =~= json_line_fields(left) + json_line_fields(
            right,
        ));
    }
}

/// Detected fields in strictly ascending order of their names, each with ascending values.
pub open spec fn rising_fields(fields: Seq<DetectedModel>) -> bool {
    &&& forall|i: int, j: int|
        0 <= i < j < fields.len() ==> text_less(
            (#[trigger] fields[i]).name,
            (#[trigger] fields[j]).name,
        )
    &&& forall|i: int| 0 <= i < fields.len() ==> rising_texts((#[trigger] fields[i]).values)
}

/// Whether fields have a value of a name.
pub open spec fn has_value(fields: Seq<DetectedModel>, name: Seq<char>, value: Seq<char>) -> bool {
    exists|i: int|
        0 <= i < fields.len() && (#[trigger] fields[i]).name == name && fields[i].values.contains(
            value,
        )
}

proof fn lemma_field_place(fields: Seq<DetectedModel>, name: Seq<char>, from: int)
    requires
        0 <= from <= fields.len(),
    ensures
        from <= field_place(fields, name, from) <= fields.len(),
        forall|i: int|
            from <= i < field_place(fields, name, from) ==> text_less(
                (#[trigger] fields[i]).name,
                name,
            ),
        field_place(fields, name, from) < fields.len() ==> !text_less(
            fields[field_place(fields, name, from)].name,
            name,
        ),
    decreases fields.len() - from,
{
    if from < fields.len() && text_less(fields[from].name, name) {
        lemma_field_place(fields, name, from + 1);
    }
}

/// Detecting a value of a field adds that value to that field, and no other.
pub proof fn detecting_adds_one_value(
    fields: Seq<DetectedModel>,
    name: Seq<char>,
    value: Seq<char>,
    parser: Option<LineParser>,
    other: Seq<char>,
    held: Seq<char>,
)
    requires
        rising_fields(fields),
    ensures
        rising_fields(add_field(fields, name, value, parser)),
        has_value(add_field(fields, name, value, parser), other, held) <==> has_value(
            fields,
            other,
            held,
        ) || other == name && held == value,
{
    let at = field_place(fields, name, 0);
    let all = add_field(fields, name, value, parser);
    lemma_field_place(fields, name, 0);
    let known = at < fields.len() && fields[at].name == name;
    let base = if known {
        fields[at].values
    } else {
        Seq::empty()
    };
    inserting_adds_one_text(base, value);
    assert(all[at].name == name && all[at].values == insert_text(base, value));
    if known {
        assert forall|i: int| 0 <= i < all.len() && i != at implies #[trigger] all[i]
            == fields[i] by {}
        assert forall|i: int, j: int| 0 <= i < j < all.len() implies text_less(
            (#[trigger] all[i]).name,
            (#[trigger] all[j]).name,
        ) by {
            assert(text_less(fields[i].name, fields[j].name));
        }
        if has_value(fields, other, held) {
            let i = choose|i: int|
                0 <= i < fields.len() && (#[trigger] fields[i]).name == other
                    && fields[i].values.contains(held);
            assert(all[i].name == other && all[i].values.contains(held));
        }
        if has_value(all, other, held) {
            let i = choose|i: int|
                0 <= i < all.len() && (#[trigger] all[i]).name == other && all[i].values.contains(
                    held,
                );
            if i != at || held != value {
                assert(fields[i].name == other && fields[i].values.contains(held));
            }
        }
    } else {
        assert forall|i: int| at <= i < fields.len() implies text_less(
            name,
            (#[trigger] fields[i]).name,
        ) by {
            lemma_text_less_total(fields[at].name, name);
            if i > at {
                assert(text_less(fields[at].name, fields[i].name));
                lemma_text_less_transitive(name, fields[at].name, fields[i].name);
            }
        }
        assert forall|i: int| 0 <= i < at implies #[trigger] all[i] == fields[i] by {}
        assert forall|i: int| at < i < all.len() implies #[trigger] all[i] == fields[i - 1] by {}
        assert forall|i: int, j: int| 0 <= i < j < all.len() implies text_less(
            (#[trigger] all[i]).name,
            (#[trigger] all[j]).name,
        ) by {
            if i < at && j < at {
                assert(text_less(fields[i].name, fields[j].name));
            } else if i < at && j > at {
                assert(text_less(fields[i].name, fields[j - 1].name));
            } else if i > at {
                assert(text_less(fields[i - 1].name, fields[j - 1].name));
            } else if i == at {
                assert(text_less(name, fields[j - 1].name));
            } else {
                assert(text_less(fields[i].name, name));
            }
        }
        assert forall|i: int| 0 <= i < all.len() implies rising_texts((#[trigger] all[i]).values) by {
            if i < at {
                assert(rising_texts(fields[i].values));
            } else if i > at {
                assert(rising_texts(fields[i - 1].values));
            }
        }
        if has_value(fields, other, held) {
            let i = choose|i: int|
                0 <= i < fields.len() && (#[trigger] fields[i]).name == other
                    && fields[i].values.contains(held);
            if i < at {
                assert(all[i].name == other);
            } else {
                assert(all[i + 1].name == other);
            }
        }
        if has_value(all, other, held) {
            let i = choose|i: int|
                0 <= i < all.len() && (#[trigger] all[i]).name == other && all[i].values.contains(
                    held,
                );
            if i < at {
                assert(fields[i].name == other);
            } else if i > at {
                assert(fields[i - 1].name == other);
            }
        }
    }
    if other == name && held == value {
        assert(all[at].values.contains(held));
    }
}

/// Whether an entry has a value of a field, in its metadata or in its line.
pub open spec fn entry_has(entry: EntryModel, name: Seq<char>, value: Seq<char>) -> bool {
    entry.metadata.contains((name, value)) || line_has(fields_in_line(entry.line), name, value)
}

/// Whether a field of a line has a name and a value.
pub open spec fn line_has(found: Seq<LineFieldModel>, name: Seq<char>, value: Seq<char>) -> bool {
    exists|i: int|
        0 <= i < found.len() && (#[trigger] found[i]).name == name && found[i].value == value
}

proof fn lemma_metadata_detected(
    fields: Seq<DetectedModel>,
    metadata: Pairs,
    name: Seq<char>,
    value: Seq<char>,
)
    requires
        rising_fields(fields),
    ensures
        rising_fields(add_metadata(fields, metadata)),
        has_value(add_metadata(fields, metadata), name, value) <==> has_value(fields, name, value)
            || metadata.contains((name, value)),
    decreases metadata.len(),
{
    if metadata.len() > 0 {
        let early = metadata.drop_last();
        let last = metadata.last();
        lemma_metadata_detected(fields, early, name, value);
        detecting_adds_one_value(
            add_metadata(fields, early),
            last.0,
            last.1,
            None,
            name,
            value,
        );
        assert(metadata[metadata.len() - 1] == last);
        if metadata.contains((name, value)) {
            let i = choose|i: int| 0 <= i < metadata.len() && metadata[i] == (name, value);
            if i < early.len() {
                assert(early[i] == (name, value));
            }
        }
        if early.contains((name, value)) {
            let i = choose|i: int| 0 <= i < early.len() && early[i] == (name, value);
            assert(metadata[i] == (name, value));
        }
        if last == (name, value) {
            assert(metadata.contains((name, value)));
        }
    }
}

proof fn lemma_line_detected(
    fields: Seq<DetectedModel>,
    found: Seq<LineFieldModel>,
    name: Seq<char>,
    value: Seq<char>,
)
    requires
        rising_fields(fields),
    ensures
        rising_fields(add_line_fields(fields, found)),
        has_value(add_line_fields(fields, found), name, value) <==> has_value(fields, name, value)
            || line_has(found, name, value),
    decreases found.len(),
{
    if found.len() > 0 {
        let early = found.drop_last();
        let last = found.last();
        lemma_line_detected(fields, early, name, value);
        detecting_adds_one_value(
            add_line_fields(fields, early),
            last.name,
            last.value,
            Some(last.parser),
            name,
            value,
        );
        assert(found[found.len() - 1] == last);
        if line_has(found, name, value) {
            let i = choose|i: int|
                0 <= i < found.len() && (#[trigger] found[i]).name == name && found[i].value
                    == value;
            if i < early.len() {
                assert(early[i].name == name);
            }
        }
        if line_has(early, name, value) {
            let i = choose|i: int|
                0 <= i < early.len() && (#[trigger] early[i]).name == name && early[i].value
                    == value;
            assert(found[i].name == name);
        }
    }
}

/// Number of entries that a selection holds among the first `count`.
pub open spec fn held_count(
    selection: SelectionModel,
    entries: Seq<EntryModel>,
    count: int,
) -> nat
    decreases count,
{
    if count <= 0 {
        0
    } else if selection_holds(selection, entries[count - 1]) {
        held_count(selection, entries, count - 1) + 1
    } else {
        held_count(selection, entries, count - 1)
    }
}

/// Whether an entry is looked at: the selection holds it, and where there is a limit, fewer
/// entries were looked at before it.
pub open spec fn is_looked_at(
    selection: SelectionModel,
    limit: nat,
    entries: Seq<EntryModel>,
    i: int,
) -> bool {
    selection_holds(selection, entries[i]) && (limit == 0 || held_count(selection, entries, i)
        < limit)
}

/// The detected fields are those that the looked-at entries have in their metadata or in
/// their lines, ascending and each with its distinct values ascending.
pub proof fn detected_fields_are_those_of_entries(
    selection: SelectionModel,
    limit: nat,
    entries: Seq<EntryModel>,
    count: int,
    name: Seq<char>,
    value: Seq<char>,
)
    requires
        0 <= count <= entries.len(),
    ensures
        rising_fields(field_state(selection, limit, entries, count).fields),
        has_value(field_state(selection, limit, entries, count).fields, name, value) <==> exists|
            i: int,
        |
            0 <= i < count && is_looked_at(selection, limit, entries, i) && entry_has(
                #[trigger] entries[i],
                name,
                value,
            ),
        field_state(selection, limit, entries, count).scanned == if limit > 0 && limit < held_count(
            selection,
            entries,
            count,
        ) {
            limit
        } else {
            held_count(selection, entries, count)
        },
    decreases count,
{
    if count > 0 {
        let front = field_state(selection, limit, entries, count - 1);
        let entry = entries[count - 1];
        detected_fields_are_those_of_entries(
            selection,
            limit,
            entries,
            count - 1,
            name,
            value,
        );
        if is_looked_at(selection, limit, entries, count - 1) {
            lemma_metadata_detected(front.fields, entry.metadata, name, value);
            lemma_line_detected(
                add_metadata(front.fields, entry.metadata),
                fields_in_line(entry.line),
                name,
                value,
            );
            if entry_has(entry, name, value) {
                assert(entry_has(entries[count - 1], name, value));
            }
        }
    }
}

/// Counts of the samples at a time.
pub open spec fn sampled(samples: Seq<(i64, u64)>, time: i64) -> nat
    decreases samples.len(),
{
    if samples.len() == 0 {
        0
    } else if samples.last().0 == time {
        sampled(samples.drop_last(), time) + samples.last().1 as nat
    } else {
        sampled(samples.drop_last(), time)
    }
}

/// How often a pattern was counted at a time.
pub open spec fn counted(patterns: Seq<PatternModel>, text: Seq<char>, time: i64) -> nat
    decreases patterns.len(),
{
    if patterns.len() == 0 {
        0
    } else if patterns.last().pattern == text {
        counted(patterns.drop_last(), text, time) + sampled(patterns.last().samples, time)
    } else {
        counted(patterns.drop_last(), text, time)
    }
}

proof fn lemma_sampled_concat(left: Seq<(i64, u64)>, right: Seq<(i64, u64)>, time: i64)
    ensures
        sampled(left + right, time) == sampled(left, time) + sampled(right, time),
    decreases right.len(),
{
    if right.len() == 0 {
        assert(left + right =~= left);
    } else {
        lemma_sampled_concat(left, right.drop_last(), time);
        assert((left + right).drop_last() =~= left + right.drop_last());
        assert((left + right).last() == right.last());
    }
}

proof fn lemma_counted_concat(
    left: Seq<PatternModel>,
    right: Seq<PatternModel>,
    text: Seq<char>,
    time: i64,
)
    ensures
        counted(left + right, text, time) == counted(left, text, time) + counted(
            right,
            text,
            time,
        ),
    decreases right.len(),
{
    if right.len() == 0 {
        assert(left + right =~= left);
    } else {
        lemma_counted_concat(left, right.drop_last(), text, time);
        assert((left + right).drop_last() =~= left + right.drop_last());
        assert((left + right).last() == right.last());
    }
}

proof fn lemma_one_sample(time: i64, count: u64, at: i64)
    ensures
        sampled(seq![(time, count)], at) == if at == time {
            count as nat
        } else {
            0
        },
{
    let one = seq![(time, count)];
    assert(one.drop_last() =~= Seq::<(i64, u64)>::empty());
    assert(one.last() == (time, count));
    assert(sampled(one.drop_last(), at) == 0);
}

proof fn lemma_sample_place(samples: Seq<(i64, u64)>, time: int, from: int)
    requires
        0 <= from <= samples.len(),
    ensures
        from <= sample_place(samples, time, from) <= samples.len(),
    decreases samples.len() - from,
{
    if from < samples.len() && samples[from].0 < time {
        lemma_sample_place(samples, time, from + 1);
    }
}

proof fn lemma_sample_added(samples: Seq<(i64, u64)>, time: i64, at: i64)
    requires
        forall|i: int| 0 <= i < samples.len() ==> (#[trigger] samples[i]).1 < u64::MAX,
    ensures
        sampled(add_sample(samples, time), at) == sampled(samples, at) + if at == time {
            1nat
        } else {
            0
        },
{
    let k = sample_place(samples, time as int, 0);
    let all = add_sample(samples, time);
    lemma_sample_place(samples, time as int, 0);
    let early = samples.subrange(0, k);
    if k < samples.len() && samples[k].0 == time {
        let late = samples.subrange(k + 1, samples.len() as int);
        let old_one = seq![samples[k]];
        let new_one = seq![(time, (samples[k].1 + 1) as u64)];
        assert(samples =~= early + (old_one + late));
        assert(all =~= early + (new_one + late));
        lemma_sampled_concat(early, old_one + late, at);
        lemma_sampled_concat(old_one, late, at);
        lemma_sampled_concat(early, new_one + late, at);
        lemma_sampled_concat(new_one, late, at);
        lemma_one_sample(time, samples[k].1, at);
        lemma_one_sample(time, (samples[k].1 + 1) as u64, at);
        assert(old_one =~= seq![(time, samples[k].1)]);
    } else {
        let late = samples.subrange(k, samples.len() as int);
        let one = seq![(time, 1u64)];
        assert(samples =~= early + late);
        assert(all =~= early + (one + late));
        lemma_sampled_concat(early, late, at);
        lemma_sampled_concat(early, one + late, at);
        lemma_sampled_concat(one, late, at);
        lemma_one_sample(time, 1, at);
    }
}

proof fn lemma_pattern_place(patterns: Seq<PatternModel>, text: Seq<char>, from: int)
    requires
        0 <= from <= patterns.len(),
    ensures
        from <= pattern_place(patterns, text, from) <= patterns.len(),
    decreases patterns.len() - from,
{
    if from < patterns.len() && text_less(patterns[from].pattern, text) {
        lemma_pattern_place(patterns, text, from + 1);
    }
}

proof fn lemma_one_pattern(pattern: PatternModel, text: Seq<char>, time: i64)
    ensures
        counted(seq![pattern], text, time) == if pattern.pattern == text {
            sampled(pattern.samples, time)
        } else {
            0
        },
{
    let one = seq![pattern];
    assert(one.drop_last() =~= Seq::<PatternModel>::empty());
    assert(one.last() == pattern);
    assert(counted(one.drop_last(), text, time) == 0);
}

/// Whether all counts of patterns are below a bound.
pub open spec fn counts_below(patterns: Seq<PatternModel>, bound: int) -> bool {
    forall|i: int, k: int|
        0 <= i < patterns.len() && 0 <= k < patterns[i].samples.len() ==> (
        #[trigger] patterns[i].samples[k]).1 < bound
}

/// Counting a line counts its pattern once more at its time, and no other.
pub proof fn counting_counts_one(
    patterns: Seq<PatternModel>,
    text: Seq<char>,
    time: i64,
    other: Seq<char>,
    at: i64,
    bound: int,
)
    requires
        counts_below(patterns, bound),
        1 <= bound <= u64::MAX,
    ensures
        counted(add_pattern(patterns, text, time), other, at) == counted(patterns, other, at)
            + if other == text && at == time {
            1nat
        } else {
            0
        },
        counts_below(add_pattern(patterns, text, time), bound + 1),
{
    let k = pattern_place(patterns, text, 0);
    let all = add_pattern(patterns, text, time);
    lemma_pattern_place(patterns, text, 0);
    let early = patterns.subrange(0, k);
    if k < patterns.len() && patterns[k].pattern == text {
        let late = patterns.subrange(k + 1, patterns.len() as int);
        let samples = patterns[k].samples;
        let new = PatternModel { pattern: text, samples: add_sample(samples, time) };
        assert(patterns =~= early + (seq![patterns[k]] + late));
        assert(all =~= early + (seq![new] + late));
        lemma_counted_concat(early, seq![patterns[k]] + late, other, at);
        lemma_counted_concat(seq![patterns[k]], late, other, at);
        lemma_counted_concat(early, seq![new] + late, other, at);
        lemma_counted_concat(seq![new], late, other, at);
        lemma_one_pattern(patterns[k], other, at);
        lemma_one_pattern(new, other, at);
        assert forall|i: int| 0 <= i < samples.len() implies (#[trigger] samples[i]).1
            < u64::MAX by {
            assert(patterns[k].samples[i].1 < bound);
        }
        lemma_sample_added(samples, time, at);
        let place = sample_place(samples, time as int, 0);
        lemma_sample_place(samples, time as int, 0);
        assert forall|i: int, n: int|
            0 <= i < all.len() && 0 <= n < all[i].samples.len() implies (
        #[trigger] all[i].samples[n]).1 < bound + 1 by {
            if i != k {
                assert(all[i] == patterns[i]);
                assert(patterns[i].samples[n].1 < bound);
            } else if place < samples.len() && samples[place].0 == time {
                assert(patterns[k].samples[n].1 < bound);
            } else if n < place {
                assert(patterns[k].samples[n].1 < bound);
            } else if n > place {
                assert(patterns[k].samples[n - 1].1 < bound);
            }
        }
    } else {
        let late = patterns.subrange(k, patterns.len() as int);
        let new = PatternModel { pattern: text, samples: seq![(time, 1u64)] };
        assert(patterns =~= early + late);
        assert(all =~= early + (seq![new] + late));
        lemma_counted_concat(early, late, other, at);
        lemma_counted_concat(early, seq![new] + late, other, at);
        lemma_counted_concat(seq![new], late, other, at);
        lemma_one_pattern(new, other, at);
        lemma_one_sample(time, 1, at);
        assert forall|i: int, n: int|
            0 <= i < all.len() && 0 <= n < all[i].samples.len() implies (
        #[trigger] all[i].samples[n]).1 < bound + 1 by {
            if i < k {
                assert(all[i] == patterns[i]);
                assert(patterns[i].samples[n].1 < bound);
            } else if i > k {
                assert(all[i] == patterns[i - 1]);
                assert(patterns[i - 1].samples[n].1 < bound);
            }
        }
    }
}

/// Number of looked-at entries among the first `count` with a pattern in the step of a time.
pub open spec fn entries_with(
    selection: SelectionModel,
    step: i64,
    limit: nat,
    entries: Seq<EntryModel>,
    texts: Seq<Seq<char>>,
    text: Seq<char>,
    time: i64,
    count: int,
) -> nat
    decreases count,
{
    if count <= 0 {
        0
    } else {
        entries_with(selection, step, limit, entries, texts, text, time, count - 1) + if is_looked_at(
            selection,
            limit,
            entries,
            count - 1,
        ) && texts[count - 1] == text && step_start(selection.start, step, entries[count
            - 1].timestamp) == time {
            1nat
        } else {
            0
        }
    }
}

/// Start in seconds of the step that holds a time: steps follow each other from the start of
/// the span on.
pub open spec fn step_start(start: i64, step: i64, time: i64) -> i64 {
    let distance = if time - start > i64::MAX {
        i64::MAX as int
    } else {
        time - start
    };
    ((start + (distance - distance % (step as int))) / 1_000_000_000) as i64
}

/// A pattern is counted, at the start of each step, once for each looked-at entry with that
/// pattern whose time lies in the step.
pub proof fn patterns_count_entries(
    selection: SelectionModel,
    step: i64,
    limit: nat,
    entries: Seq<EntryModel>,
    texts: Seq<Seq<char>>,
    count: int,
    text: Seq<char>,
    time: i64,
)
    requires
        step > 0,
        0 <= count <= entries.len(),
        count < u64::MAX,
    ensures
        ({
            let state = pattern_state(selection, step, limit, entries, texts, count);
            &&& counted(state.patterns, text, time) == entries_with(
                selection,
                step,
                limit,
                entries,
                texts,
                text,
                time,
                count,
            )
            &&& state.matched == if limit > 0 && limit < held_count(selection, entries, count) {
                limit
            } else {
                held_count(selection, entries, count)
            }
            &&& counts_below(state.patterns, count + 1)
        }),
    decreases count,
{
    if count > 0 {
        let front = pattern_state(selection, step, limit, entries, texts, count - 1);
        let entry = entries[count - 1];
        patterns_count_entries(
            selection,
            step,
            limit,
            entries,
            texts,
            count - 1,
            text,
            time,
        );
        let distance = if entry.timestamp - selection.start > i64::MAX {
            i64::MAX as int
        } else {
            entry.timestamp - selection.start
        };
        assert(distance / (step as int) * step == distance - distance % (step as int)) by {
            vstd::arithmetic::div_mod::lemma_fundamental_div_mod(distance, step as int);
            vstd::arithmetic::mul::lemma_mul_is_commutative(distance / (step as int), step as int);
        }
        let bucket = bucket_of(selection.start, step, entry.timestamp) as i64;
        assert(bucket == step_start(selection.start, step, entry.timestamp));
        if is_looked_at(selection, limit, entries, count - 1) {
            counting_counts_one(
                front.patterns,
                texts[count - 1],
                bucket,
                text,
                time,
                count as int,
            );
        }
    }
}

} // verus!
