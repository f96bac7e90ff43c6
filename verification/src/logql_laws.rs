//! What LogQL queries mean: which entries each comparison selects, as it is written.
use vstd::prelude::*;

use crate::api_error::ApiFault;
use crate::labels::Pairs;
use crate::loki_query::{
    anchored, brace_from, closing_quote, filter_at, filters_from, json_string, label_name,
    label_value, line_matches, matcher_at, matchers_from, name_end, operation_at, parse_query_text,
    parse_quoted, prepended, regex_error, regex_matches, selects_entry, value_matches,
    MatchOperation, MatcherModel, SelectorModel,
};
use crate::record::EntryModel;
use crate::text::{
    ascii_digit, ascii_letter, contains_text, part_at, skip_space, trim_end, trimmed, white_space,
};

verus! {

broadcast use vstd::seq_lib::group_seq_properties;

/// Whether a text stands at some place of a line.
pub open spec fn occurs_in(text: Seq<char>, line: Seq<char>) -> bool {
    exists|k: int|
        0 <= k && k + text.len() <= line.len() && #[trigger] line.subrange(k, k + text.len())
            == text
}

pub proof fn lemma_occurs(text: Seq<char>, line: Seq<char>)
    ensures
        occurs_in(text, line) == contains_text(line, text),
{
    if occurs_in(text, line) {
        let k = choose|k: int|
            0 <= k && k + text.len() <= line.len() && #[trigger] line.subrange(
                k,
                k + text.len(),
            ) == text;
        assert(part_at(line, k, text));
    }
    if contains_text(line, text) {
        let k = choose|k: int| #[trigger] part_at(line, k, text);
        assert(line.subrange(k, k + text.len()) == text);
    }
}

/// A line filter for a text selects the lines in which the text occurs at some place; the
/// negated filter selects exactly the other lines. A filter for a pattern and its negation
/// part the lines in the same way.
pub proof fn line_filters_part_the_lines(value: Seq<char>, line: Seq<char>)
    ensures
        ({
            let with = |operation: MatchOperation| MatcherModel {
                name: Seq::empty(),
                operation,
                value,
            };
            &&& line_matches(with(MatchOperation::Equal), line) <==> exists|k: int|
                0 <= k && k + value.len() <= line.len() && #[trigger] line.subrange(
                    k,
                    k + value.len(),
                ) == value
            &&& line_matches(with(MatchOperation::NotEqual), line) <==> !line_matches(
                with(MatchOperation::Equal),
                line,
            )
            &&& line_matches(with(MatchOperation::Regex), line) <==> regex_matches(value, line)
            &&& line_matches(with(MatchOperation::NotRegex), line) <==> !line_matches(
                with(MatchOperation::Regex),
                line,
            )
        }),
{
    lemma_occurs(value, line);
}

/// A label matcher for a value selects the entries whose label has it, where a missing label
/// counts as empty; the negated matcher selects exactly the others. A pattern must match the
/// whole value.
pub proof fn label_matchers_part_the_values(
    name: Seq<char>,
    value: Seq<char>,
    labels: Pairs,
)
    requires
        forall|i: int, j: int|
            0 <= i < j < labels.len() ==> (#[trigger] labels[i]).0 != (#[trigger] labels[j]).0,
    ensures
        ({
            let with = |operation: MatchOperation| MatcherModel { name, operation, value };
            let observed = label_value(labels, name);
            let missing = forall|i: int|
                0 <= i < labels.len() ==> (#[trigger] labels[i]).0 != name;
            &&& value_matches(with(MatchOperation::Equal), observed) <==> labels.contains(
                (name, value),
            ) || (missing && value.len() == 0)
            &&& value_matches(with(MatchOperation::NotEqual), observed) <==> !value_matches(
                with(MatchOperation::Equal),
                observed,
            )
            &&& forall|other: Seq<char>| labels.contains((name, other)) ==> (value_matches(
                with(MatchOperation::Regex),
                observed,
            ) <==> #[trigger] regex_matches("^(?:"@ + value + ")$"@, other))
            &&& missing ==> (value_matches(with(MatchOperation::Regex), observed)
                <==> regex_matches("^(?:"@ + value + ")$"@, Seq::empty()))
            &&& value_matches(with(MatchOperation::NotRegex), observed) <==> !value_matches(
                with(MatchOperation::Regex),
                observed,
            )
        }),
{
    lemma_label_value(labels, name);
    let empty = Seq::<char>::empty();
    if labels.contains((name, value)) {
        let k = choose|k: int| 0 <= k < labels.len() && labels[k] == (name, value);
        assert(labels[k].0 == name);
    }
    if value.len() == 0 {
        assert(value =~= empty);
    }
}

/// The value of a label is that of its pair; a missing label is empty.
proof fn lemma_label_value(labels: Pairs, name: Seq<char>)
    requires
        forall|i: int, j: int|
            0 <= i < j < labels.len() ==> (#[trigger] labels[i]).0 != (#[trigger] labels[j]).0,
    ensures
        forall|other: Seq<char>| #[trigger]
            labels.contains((name, other)) ==> label_value(labels, name) == other,
        (forall|i: int| 0 <= i < labels.len() ==> (#[trigger] labels[i]).0 != name) ==> label_value(
            labels,
            name,
        ) == Seq::<char>::empty(),
        (exists|i: int| 0 <= i < labels.len() && (#[trigger] labels[i]).0 == name)
            ==> labels.contains((name, label_value(labels, name))),
    decreases labels.len(),
{
    reveal_with_fuel(crate::labels::lookup, 2);
    if labels.len() > 0 {
        let rest = labels.drop_first();
        assert forall|i: int, j: int| 0 <= i < j < rest.len() implies (
        #[trigger] rest[i]).0 != (#[trigger] rest[j]).0 by {
            assert(rest[i] == labels[i + 1] && rest[j] == labels[j + 1]);
        }
        lemma_label_value(rest, name);
        assert forall|other: Seq<char>| #[trigger] labels.contains((name, other)) implies
            label_value(labels, name) == other by {
            let k = choose|k: int| 0 <= k < labels.len() && labels[k] == (name, other);
            if k > 0 {
                assert(labels[0].0 != labels[k].0);
                assert(rest[k - 1] == labels[k]);
                assert(rest.contains((name, other)));
            }
        }
        if forall|i: int| 0 <= i < labels.len() ==> (#[trigger] labels[i]).0 != name {
            assert(labels[0].0 != name);
            assert forall|i: int| 0 <= i < rest.len() implies (#[trigger] rest[i]).0 != name by {
                assert(rest[i] == labels[i + 1]);
            }
        }
        if exists|i: int| 0 <= i < labels.len() && (#[trigger] labels[i]).0 == name {
            let i = choose|i: int| 0 <= i < labels.len() && (#[trigger] labels[i]).0 == name;
            if labels[0].0 == name {
                assert(labels[0] == (name, label_value(labels, name)));
            } else {
                assert(rest[i - 1] == labels[i]);
                assert(rest.contains((name, label_value(rest, name))));
                let m = choose|m: int|
                    0 <= m < rest.len() && rest[m] == (name, label_value(rest, name));
                assert(labels[m + 1] == rest[m]);
            }
        }
    }
}

proof fn lemma_space_extends(text: Seq<char>, more: Seq<char>, at: int)
    requires
        0 <= at <= text.len(),
        more.len() > 0,
        !white_space(more[0]),
    ensures
        skip_space(text + more, at) == skip_space(text, at),
        at <= skip_space(text, at) <= text.len(),
    decreases text.len() - at,
{
    if at < text.len() {
        assert((text + more)[at] == text[at]);
        if white_space(text[at]) {
            lemma_space_extends(text, more, at + 1);
        }
    } else {
        assert((text + more)[at] == more[0]);
    }
}

proof fn lemma_closing_extends(text: Seq<char>, more: Seq<char>, at: int, escaped: bool)
    requires
        0 <= at,
        closing_quote(text, at, escaped) is Some,
    ensures
        closing_quote(text + more, at, escaped) == closing_quote(text, at, escaped),
        at <= closing_quote(text, at, escaped)->0 < text.len(),
    decreases text.len() - at,
{
    if at < text.len() {
        assert((text + more)[at] == text[at]);
        if escaped {
            lemma_closing_extends(text, more, at + 1, false);
        } else if text[at] == '\\' {
            lemma_closing_extends(text, more, at + 1, true);
        } else if text[at] != '"' {
            lemma_closing_extends(text, more, at + 1, false);
        }
    }
}

proof fn lemma_quoted_extends(text: Seq<char>, more: Seq<char>, at: int)
    requires
        0 <= at,
        parse_quoted(text, at) is Ok,
    ensures
        parse_quoted(text + more, at) == parse_quoted(text, at),
        at < parse_quoted(text, at)->Ok_0.1 <= text.len(),
{
    assert((text + more)[at] == text[at]);
    lemma_closing_extends(text, more, at + 1, false);
    let end = closing_quote(text, at + 1, false)->0;
    assert((text + more).subrange(at, end + 1) =~= text.subrange(at, end + 1));
}

proof fn lemma_closing_shifts(front: Seq<char>, text: Seq<char>, at: int, escaped: bool)
    requires
        0 <= at,
    ensures
        closing_quote(front + text, front.len() + at, escaped) == match closing_quote(
            text,
            at,
            escaped,
        ) {
            Some(end) => Some(front.len() + end),
            None => None,
        },
    decreases text.len() - at,
{
    if at < text.len() {
        assert((front + text)[front.len() + at] == text[at]);
        lemma_closing_shifts(front, text, at + 1, false);
        lemma_closing_shifts(front, text, at + 1, true);
    }
}

/// Whether a text is one quoted literal that stands for a value.
pub open spec fn literal_of(literal: Seq<char>, value: Seq<char>) -> bool {
    &&& literal.len() >= 2
    &&& literal[0] == '"'
    &&& closing_quote(literal, 1, false) == Some(literal.len() - 1)
    &&& json_string(literal) == Ok::<_, Seq<char>>(value)
}

pub proof fn lemma_literal_read(
    front: Seq<char>,
    literal: Seq<char>,
    more: Seq<char>,
    value: Seq<char>,
)
    requires
        literal_of(literal, value),
    ensures
        parse_quoted(front + literal + more, front.len() as int) == Ok::<_, ApiFault>(
            (value, (front.len() + literal.len()) as int),
        ),
{
    let text = front + literal;
    lemma_closing_shifts(front, literal, 1, false);
    assert(text[front.len() as int] == literal[0]);
    assert(text.subrange(front.len() as int, text.len() as int) =~= literal);
    assert(parse_quoted(text, front.len() as int) == Ok::<_, ApiFault>(
        (value, text.len() as int),
    ));
    lemma_quoted_extends(text, more, front.len() as int);
}

proof fn lemma_filter_extends(text: Seq<char>, more: Seq<char>, at: int)
    requires
        0 <= at,
        filter_at(text, at) is Ok,
        more.len() > 0,
        !white_space(more[0]),
    ensures
        filter_at(text + more, at) == filter_at(text, at),
        at < filter_at(text, at)->Ok_0.1 <= text.len(),
{
    assert((text + more)[at] == text[at]);
    assert((text + more)[at + 1] == text[at + 1]);
    lemma_space_extends(text, more, at + 2);
    lemma_quoted_extends(text, more, skip_space(text, at + 2));
}

proof fn lemma_filters_extend(text: Seq<char>, more: Seq<char>, at: int)
    requires
        0 <= at <= text.len(),
        filters_from(text, at) is Ok,
        more.len() > 0,
        !white_space(more[0]),
    ensures
        filters_from(text + more, at) == prepended(
            filters_from(text, at)->Ok_0,
            filters_from(text + more, text.len() as int),
        ),
    decreases text.len() - at,
{
    lemma_space_extends(text, more, at);
    let start = skip_space(text, at);
    let rest = filters_from(text + more, text.len() as int);
    if start >= text.len() {
        lemma_space_extends(text, more, text.len() as int);
        let none = Seq::<MatcherModel>::empty();
        if rest is Ok {
            assert(none + rest->Ok_0 =~= rest->Ok_0);
        }
        assert(filters_from(text + more, at) == rest);
    } else {
        lemma_filter_extends(text, more, start);
        let (filter, next) = filter_at(text, start)->Ok_0;
        lemma_filters_extend(text, more, next);
        let tail = filters_from(text, next)->Ok_0;
        if rest is Ok {
            assert(seq![filter] + (tail + rest->Ok_0) =~= (seq![filter] + tail) + rest->Ok_0);
        }
    }
}

proof fn lemma_brace_extends(text: Seq<char>, more: Seq<char>, at: int)
    requires
        0 <= at,
        brace_from(text, at) is Some,
    ensures
        brace_from(text + more, at) == brace_from(text, at),
        at <= brace_from(text, at)->0 < text.len(),
    decreases text.len() - at,
{
    if at < text.len() {
        assert((text + more)[at] == text[at]);
        if text[at] != '}' {
            lemma_brace_extends(text, more, at + 1);
        }
    }
}

/// The filter that is written behind other filters.
proof fn lemma_written_filter(
    tail: Seq<char>,
    written: Seq<char>,
    literal: Seq<char>,
    value: Seq<char>,
)
    requires
        written == seq!['|', '='] || written == seq!['!', '='] || written == seq!['|', '~']
            || written == seq!['!', '~'],
        literal_of(literal, value),
    ensures
        match filters_from(tail + (written + literal), tail.len() as int) {
            Ok(filters) => {
                &&& filters.len() == 1
                &&& filters[0].value == value
                &&& filters[0].operation == if written == seq!['|', '='] {
                    MatchOperation::Equal
                } else if written == seq!['!', '='] {
                    MatchOperation::NotEqual
                } else if written == seq!['|', '~'] {
                    MatchOperation::Regex
                } else {
                    MatchOperation::NotRegex
                }
                &&& !(written[1] == '~' && regex_error(value) is Some)
            },
            Err(_) => written[1] == '~' && regex_error(value) is Some,
        },
{
    let more = written + literal;
    let longer = tail + more;
    let at = tail.len() as int;
    let front = tail + written;
    assert(more[0] == written[0]);
    lemma_space_extends(tail, more, at);
    assert(longer[at] == written[0] && longer[at + 1] == written[1]);
    assert(longer =~= front + literal + Seq::<char>::empty());
    lemma_literal_read(front, literal, Seq::empty(), value);
    assert(longer[at + 2] == literal[0]);
    assert(!white_space('"'));
    assert(skip_space(longer, at + 2) == at + 2);
    assert(parse_quoted(longer, at + 2) == Ok::<_, ApiFault>((value, longer.len() as int)));
    if filter_at(longer, at) is Ok {
        let (filter, next) = filter_at(longer, at)->Ok_0;
        assert(next == longer.len());
        assert(skip_space(longer, next) == longer.len());
        assert(filters_from(longer, next) == Ok::<_, ApiFault>(Seq::<MatcherModel>::empty()));
        assert(filters_from(longer, at)->Ok_0 =~= seq![filter]);
    }
}

/// One more filter asks one more thing of the line.
proof fn lemma_selects_pushed(
    old: SelectorModel,
    new: SelectorModel,
    filter: MatcherModel,
    entry: EntryModel,
)
    requires
        new.matchers == old.matchers,
        new.filters == old.filters.push(filter),
    ensures
        selects_entry(new, entry) <==> selects_entry(old, entry) && line_matches(
            filter,
            entry.line,
        ),
{
    let count = old.filters.len() as int;
    assert(new.filters[count] == filter);
    if selects_entry(new, entry) {
        assert forall|i: int| 0 <= i < old.filters.len() implies line_matches(
            #[trigger] old.filters[i],
            entry.line,
        ) by {
            assert(line_matches(new.filters[i], entry.line));
        }
        assert(line_matches(new.filters[count], entry.line));
    }
    if selects_entry(old, entry) && line_matches(filter, entry.line) {
        assert forall|i: int| 0 <= i < new.filters.len() implies line_matches(
            #[trigger] new.filters[i],
            entry.line,
        ) by {
            if i < count {
                assert(line_matches(old.filters[i], entry.line));
            }
        }
    }
}

/// What a written line filter asks of a line: the text occurs, the text does not occur, the
/// pattern matches, the pattern does not match.
pub open spec fn line_is_asked_for(written: Seq<char>, value: Seq<char>, line: Seq<char>) -> bool {
    if written == seq!['|', '='] {
        occurs_in(value, line)
    } else if written == seq!['!', '='] {
        !occurs_in(value, line)
    } else if written == seq!['|', '~'] {
        regex_matches(value, line)
    } else {
        !regex_matches(value, line)
    }
}

/// A line filter that is written behind a query narrows it: of the entries that the query
/// selects, `|=` keeps those with the text somewhere in their line, `!=` exactly the others,
/// `|~` those whose line the pattern matches and `!~` exactly the others. A pattern that does
/// not compile refuses the query.
pub proof fn written_filters_narrow(
    query: Seq<char>,
    written: Seq<char>,
    literal: Seq<char>,
    value: Seq<char>,
    entry: EntryModel,
)
    requires
        parse_query_text(query) is Ok,
        written == seq!['|', '='] || written == seq!['!', '='] || written == seq!['|', '~']
            || written == seq!['!', '~'],
        literal_of(literal, value),
    ensures
        ({
            let narrowed = parse_query_text(query + (written + literal));
            if written[1] == '~' && regex_error(value) is Some {
                narrowed is Err
            } else {
                &&& narrowed is Ok
                &&& selects_entry(narrowed->Ok_0, entry) <==> selects_entry(
                    parse_query_text(query)->Ok_0,
                    entry,
                ) && line_is_asked_for(written, value, entry.line)
            }
        }),
{
    let more = written + literal;
    let full = query + more;
    let old = parse_query_text(query)->Ok_0;
    let end = brace_from(query, 0)->0;
    let tail = query.subrange(end + 1, query.len() as int);
    assert(more[0] == written[0]);
    lemma_brace_extends(query, more, 0);
    assert(full.subrange(0, end + 1) =~= query.subrange(0, end + 1));
    assert(full.subrange(end + 1, full.len() as int) =~= tail + more);
    lemma_filters_extend(tail, more, 0);
    lemma_written_filter(tail, written, literal, value);
    lemma_occurs(value, entry.line);
    if !(written[1] == '~' && regex_error(value) is Some) {
        let filter = filters_from(tail + more, tail.len() as int)->Ok_0[0];
        let new = parse_query_text(full)->Ok_0;
        assert(new.filters =~= old.filters.push(filter));
        lemma_selects_pushed(old, new, filter, entry);
    }
}

proof fn lemma_space_shifts(front: Seq<char>, text: Seq<char>, at: int)
    requires
        0 <= at <= text.len(),
    ensures
        skip_space(front + text, front.len() + at) == front.len() + skip_space(text, at),
        at <= skip_space(text, at) <= text.len(),
    decreases text.len() - at,
{
    if at < text.len() {
        assert((front + text)[front.len() + at] == text[at]);
        lemma_space_shifts(front, text, at + 1);
    }
}

proof fn lemma_name_end_shifts(front: Seq<char>, text: Seq<char>, at: int, bang: bool)
    requires
        0 <= at <= text.len(),
    ensures
        name_end(front + text, front.len() + at, bang) == match name_end(text, at, bang) {
            Some(end) => Some(front.len() + end),
            None => None,
        },
        name_end(text, at, bang) matches Some(end) ==> at <= end < text.len(),
    decreases text.len() - at,
{
    if at < text.len() {
        assert((front + text)[front.len() + at] == text[at]);
        lemma_name_end_shifts(front, text, at + 1, bang);
    }
}

proof fn lemma_quoted_shifts(front: Seq<char>, text: Seq<char>, at: int)
    requires
        0 <= at <= text.len(),
    ensures
        parse_quoted(front + text, front.len() + at) == match parse_quoted(text, at) {
            Ok((value, end)) => Ok((value, front.len() + end)),
            Err(fault) => Err(fault),
        },
        parse_quoted(text, at) matches Ok((_, end)) ==> at < end <= text.len(),
{
    let all = front + text;
    if at < text.len() {
        assert(all[front.len() + at] == text[at]);
        lemma_closing_shifts(front, text, at + 1, false);
        crate::loki_query::lemma_closing_quote(text, at + 1, false);
        if closing_quote(text, at + 1, false) is Some {
            let end = closing_quote(text, at + 1, false)->0;
            assert(all.subrange(front.len() + at, front.len() + end + 1) =~= text.subrange(
                at,
                end + 1,
            ));
        }
    }
}

proof fn lemma_operation_shifts(front: Seq<char>, text: Seq<char>, at: int)
    requires
        0 <= at <= text.len(),
    ensures
        operation_at(front + text, front.len() + at) == match operation_at(text, at) {
            Some((operation, next)) => Some((operation, front.len() + next)),
            None => None,
        },
        operation_at(text, at) matches Some((_, next)) ==> at < next <= text.len(),
{
    let all = front + text;
    if at < text.len() {
        assert(all[front.len() + at] == text[at]);
        if at + 1 < text.len() {
            assert(all[front.len() + at + 1] == text[at + 1]);
        }
    }
}

proof fn lemma_matcher_shifts(front: Seq<char>, text: Seq<char>, at: int)
    requires
        0 <= at <= text.len(),
    ensures
        matcher_at(front + text, front.len() + at) == match matcher_at(text, at) {
            Ok((matcher, next)) => Ok((matcher, front.len() + next)),
            Err(fault) => Err(fault),
        },
        matcher_at(text, at) matches Ok((_, next)) ==> at < next <= text.len(),
{
    let all = front + text;
    lemma_name_end_shifts(front, text, at, true);
    if name_end(text, at, true) is Some {
        let end = name_end(text, at, true)->0;
        assert(all.subrange(front.len() + at, front.len() + end) =~= text.subrange(at, end));
        lemma_space_shifts(front, text, end);
        let op = skip_space(text, end);
        lemma_operation_shifts(front, text, op);
        if operation_at(text, op) is Some {
            let next = (operation_at(text, op)->0).1;
            lemma_space_shifts(front, text, next);
            lemma_quoted_shifts(front, text, skip_space(text, next));
        }
    }
}

proof fn lemma_matchers_shift(front: Seq<char>, text: Seq<char>, at: int)
    requires
        0 <= at <= text.len(),
    ensures
        matchers_from(front + text, front.len() + at) == matchers_from(text, at),
    decreases text.len() - at,
{
    let all = front + text;
    lemma_space_shifts(front, text, at);
    let start = skip_space(text, at);
    if start < text.len() {
        lemma_matcher_shifts(front, text, start);
        match matcher_at(text, start) {
            Err(_) => {},
            Ok((matcher, next)) => {
                lemma_space_shifts(front, text, next);
                let comma = skip_space(text, next);
                if comma < text.len() {
                    assert(all[front.len() + comma] == text[comma]);
                    lemma_matchers_shift(front, text, comma + 1);
                }
            },
        }
    }
}

/// Whether a text is a label name: letters, digits and underscores, with no digit in front.
pub open spec fn is_name(name: Seq<char>) -> bool {
    &&& name.len() > 0
    &&& !('0' <= name[0] <= '9')
    &&& forall|i: int|
        0 <= i < name.len() ==> {
            let character = #[trigger] name[i];
            'a' <= character <= 'z' || 'A' <= character <= 'Z' || '0' <= character <= '9'
                || character == '_'
        }
}

/// What a written label matcher asks of the labels of an entry: the label has the value, the
/// label has another one, the pattern matches the whole value, the pattern does not. A missing
/// label counts as empty.
pub open spec fn labels_are_asked_for(
    name: Seq<char>,
    written: Seq<char>,
    value: Seq<char>,
    labels: Pairs,
) -> bool {
    let missing = forall|i: int| 0 <= i < labels.len() ==> (#[trigger] labels[i]).0 != name;
    let equal = labels.contains((name, value)) || (missing && value.len() == 0);
    let pattern = "^(?:"@ + value + ")$"@;
    let fits = (missing && regex_matches(pattern, Seq::empty())) || exists|i: int|
        0 <= i < labels.len() && (#[trigger] labels[i]).0 == name && regex_matches(
            pattern,
            labels[i].1,
        );
    if written == seq!['='] {
        equal
    } else if written == seq!['!', '='] {
        !equal
    } else if written == seq!['=', '~'] {
        fits
    } else {
        !fits
    }
}

proof fn lemma_asked_for(
    name: Seq<char>,
    written: Seq<char>,
    value: Seq<char>,
    labels: Pairs,
    matcher: MatcherModel,
)
    requires
        forall|i: int, j: int|
            0 <= i < j < labels.len() ==> (#[trigger] labels[i]).0 != (#[trigger] labels[j]).0,
        written == seq!['='] || written == seq!['!', '='] || written == seq!['=', '~'] || written
            == seq!['!', '~'],
        matcher.name == name,
        matcher.value == value,
        matcher.operation == if written == seq!['='] {
            MatchOperation::Equal
        } else if written == seq!['!', '='] {
            MatchOperation::NotEqual
        } else if written == seq!['=', '~'] {
            MatchOperation::Regex
        } else {
            MatchOperation::NotRegex
        },
    ensures
        value_matches(matcher, label_value(labels, name)) == labels_are_asked_for(
            name,
            written,
            value,
            labels,
        ),
{
    label_matchers_part_the_values(name, value, labels);
    lemma_label_value(labels, name);
    let observed = label_value(labels, name);
    let pattern = "^(?:"@ + value + ")$"@;
    assert(seq!['=', '~'][0] == '=');
    assert(seq!['=', '~'].len() == 2 && seq!['='].len() == 1 && seq!['!', '='].len() == 2);
    assert(seq!['=', '~'][0] != seq!['!', '='][0]);
    assert(seq!['!', '~'][1] != seq!['!', '='][1]);
    assert(seq!['!', '~'][0] != seq!['=', '~'][0]);
    if exists|i: int| 0 <= i < labels.len() && (#[trigger] labels[i]).0 == name {
        let k = choose|k: int| 0 <= k < labels.len() && labels[k] == (name, observed);
        assert(labels[k].0 == name && labels[k].1 == observed);
        assert forall|i: int| 0 <= i < labels.len() && (#[trigger] labels[i]).0
            == name implies labels[i].1 == observed by {
            if i < k {
                assert(labels[i].0 != labels[k].0);
            } else if k < i {
                assert(labels[k].0 != labels[i].0);
            }
        }
    }
}

proof fn lemma_name_found(name: Seq<char>, more: Seq<char>, at: int)
    requires
        is_name(name),
        0 <= at <= name.len(),
        more.len() > 0,
        more[0] == '=' || more[0] == '!',
    ensures
        name_end(name + more, at, true) == Some(name.len() as int),
    decreases name.len() - at,
{
    let text = name + more;
    if at < name.len() {
        assert(text[at] == name[at]);
        assert(!white_space(name[at])) by {
            let character = name[at];
            assert('a' <= character <= 'z' || 'A' <= character <= 'Z' || '0' <= character <= '9'
                || character == '_');
        }
        lemma_name_found(name, more, at + 1);
    } else {
        assert(text[at] == more[0]);
    }
}

/// The matcher that is written in front of other text.
proof fn lemma_written_matcher(
    name: Seq<char>,
    written: Seq<char>,
    literal: Seq<char>,
    value: Seq<char>,
    more: Seq<char>,
)
    requires
        is_name(name),
        written == seq!['='] || written == seq!['!', '='] || written == seq!['=', '~'] || written
            == seq!['!', '~'],
        literal_of(literal, value),
    ensures
        ({
            let text = name + written + literal;
            let refused = written.last() == '~' && regex_error("^(?:"@ + value + ")$"@) is Some;
            match matcher_at(text + more, 0) {
                Ok((matcher, next)) => {
                    &&& !refused
                    &&& next == text.len()
                    &&& matcher.name == name
                    &&& matcher.value == value
                    &&& matcher.operation == if written == seq!['='] {
                        MatchOperation::Equal
                    } else if written == seq!['!', '='] {
                        MatchOperation::NotEqual
                    } else if written == seq!['=', '~'] {
                        MatchOperation::Regex
                    } else {
                        MatchOperation::NotRegex
                    }
                },
                Err(_) => refused,
            }
        }),
{
    let text = name + written + literal + more;
    let rest = written + literal + more;
    let end = name.len() as int;
    assert(text =~= name + rest);
    assert(rest[0] == written[0]);
    lemma_name_found(name, rest, 0);
    assert(text.subrange(0, end) =~= name);
    assert(label_name(name)) by {
        assert(name[0] == '_' || ascii_letter(name[0])) by {
            let character = name[0];
            assert('a' <= character <= 'z' || 'A' <= character <= 'Z' || '0' <= character <= '9'
                || character == '_');
        }
        assert forall|i: int| 1 <= i < name.len() implies (#[trigger] name[i]) == '_'
            || ascii_letter(name[i]) || ascii_digit(name[i]) by {
            let character = name[i];
            assert('a' <= character <= 'z' || 'A' <= character <= 'Z' || '0' <= character <= '9'
                || character == '_');
        }
    }
    assert(text[end] == written[0]);
    assert(skip_space(text, end) == end);
    let front = name + written;
    let at = front.len() as int;
    assert(text =~= front + literal + more);
    lemma_literal_read(front, literal, more, value);
    assert(text[at] == literal[0]);
    assert(!white_space('"'));
    assert(skip_space(text, at) == at);
    if written.len() == 2 {
        assert(text[end + 1] == written[1]);
    } else {
        assert(text[end + 1] == literal[0]);
    }
    assert(operation_at(text, end) == Some(
        (
            if written == seq!['='] {
                MatchOperation::Equal
            } else if written == seq!['!', '='] {
                MatchOperation::NotEqual
            } else if written == seq!['=', '~'] {
                MatchOperation::Regex
            } else {
                MatchOperation::NotRegex
            },
            at,
        ),
    ));
    assert(anchored(value) == "^(?:"@ + value + ")$"@);
}

proof fn lemma_first_brace(text: Seq<char>, at: int)
    requires
        0 <= at < text.len(),
        text.last() == '}',
        forall|i: int| 0 <= i < text.len() - 1 ==> #[trigger] text[i] != '}',
    ensures
        brace_from(text, at) == Some(text.len() - 1),
    decreases text.len() - at,
{
    if at < text.len() - 1 {
        assert(text[at] != '}');
        lemma_first_brace(text, at + 1);
    } else {
        assert(text[at] == text.last());
    }
}

/// The selector of a query that is only a selector.
proof fn lemma_braced(inner: Seq<char>)
    requires
        forall|i: int| 0 <= i < inner.len() ==> #[trigger] inner[i] != '}',
    ensures
        parse_query_text(seq!['{'] + inner + seq!['}']) == match matchers_from(inner, 0) {
            Ok(matchers) => Ok(SelectorModel { matchers, filters: Seq::empty() }),
            Err(fault) => Err(fault),
        },
{
    let text = seq!['{'] + inner + seq!['}'];
    let count = text.len() as int;
    assert forall|i: int| 0 <= i < count - 1 implies #[trigger] text[i] != '}' by {
        if i > 0 {
            assert(text[i] == inner[i - 1]);
        }
    }
    lemma_first_brace(text, 0);
    assert(text.subrange(0, count) =~= text);
    assert(text[0] == '{' && text[count - 1] == '}');
    assert(!white_space('{') && !white_space('}'));
    assert(skip_space(text, 0) == 0);
    assert(trim_end(text, count) == count);
    assert(trimmed(text) =~= text);
    assert(text.subrange(1, count - 1) =~= inner);
    let rest = text.subrange(count, count);
    assert(skip_space(rest, 0) == 0);
    assert(filters_from(rest, 0) == Ok::<_, ApiFault>(Seq::<MatcherModel>::empty()));
}

/// A label matcher that is written in front of others narrows the selector: of the entries
/// that the others select, `=` keeps those whose label has the value, `!=` exactly those whose
/// label has another one, `=~` those whose whole value the pattern matches and `!~` exactly
/// the others. A missing label counts as empty. A pattern that does not compile refuses the
/// query.
pub proof fn written_matchers_narrow(
    name: Seq<char>,
    written: Seq<char>,
    literal: Seq<char>,
    value: Seq<char>,
    others: Seq<char>,
    entry: EntryModel,
)
    requires
        is_name(name),
        written == seq!['='] || written == seq!['!', '='] || written == seq!['=', '~'] || written
            == seq!['!', '~'],
        literal_of(literal, value),
        forall|i: int| 0 <= i < literal.len() ==> #[trigger] literal[i] != '}',
        forall|i: int| 0 <= i < others.len() ==> #[trigger] others[i] != '}',
        parse_query_text(seq!['{'] + others + seq!['}']) is Ok,
        forall|i: int, j: int|
            0 <= i < j < entry.labels.len() ==> (#[trigger] entry.labels[i]).0 != (
            #[trigger] entry.labels[j]).0,
    ensures
        ({
            let matcher = name + written + literal;
            let narrowed = parse_query_text(
                seq!['{'] + (matcher + seq![','] + others) + seq!['}'],
            );
            let refused = written.last() == '~' && regex_error("^(?:"@ + value + ")$"@) is Some;
            &&& narrowed is Err <==> refused
            &&& narrowed matches Ok(selector) ==> (selects_entry(selector, entry)
                <==> selects_entry(parse_query_text(seq!['{'] + others + seq!['}'])->Ok_0, entry)
                && labels_are_asked_for(name, written, value, entry.labels))
        }),
{
    let matcher = name + written + literal;
    let behind = seq![','] + others;
    let inner = matcher + seq![','] + others;
    assert(inner =~= matcher + behind);
    lemma_written_matcher(name, written, literal, value, behind);
    lemma_braces_absent(name, written, literal, others);
    lemma_braced(inner);
    lemma_braced(others);
    assert(inner[0] == name[0]);
    assert(!white_space(name[0])) by {
        let character = name[0];
        assert('a' <= character <= 'z' || 'A' <= character <= 'Z' || '0' <= character <= '9'
            || character == '_');
    }
    assert(skip_space(inner, 0) == 0);
    let at = matcher.len() as int;
    assert(inner[at] == ',');
    assert(!white_space(','));
    assert(skip_space(inner, at) == at);
    let front = matcher + seq![','];
    lemma_matchers_shift(front, others, 0);
    assert(front + others =~= inner);
    if matcher_at(inner, 0) is Ok {
        let found = matcher_at(inner, 0)->Ok_0.0;
        let rest = matchers_from(others, 0)->Ok_0;
        assert(matchers_from(inner, 0) == Ok::<_, ApiFault>(seq![found] + rest));
        lemma_asked_for(name, written, value, entry.labels, found);
        let old = SelectorModel { matchers: rest, filters: Seq::empty() };
        let new = SelectorModel { matchers: seq![found] + rest, filters: Seq::empty() };
        lemma_selects_in_front(old, new, found, entry);
    }
}

proof fn lemma_braces_absent(
    name: Seq<char>,
    written: Seq<char>,
    literal: Seq<char>,
    others: Seq<char>,
)
    requires
        is_name(name),
        written == seq!['='] || written == seq!['!', '='] || written == seq!['=', '~'] || written
            == seq!['!', '~'],
        forall|i: int| 0 <= i < literal.len() ==> #[trigger] literal[i] != '}',
        forall|i: int| 0 <= i < others.len() ==> #[trigger] others[i] != '}',
    ensures
        ({
            let inner = name + written + literal + seq![','] + others;
            forall|i: int| 0 <= i < inner.len() ==> #[trigger] inner[i] != '}'
        }),
{
    let inner = name + written + literal + seq![','] + others;
    assert forall|i: int| 0 <= i < inner.len() implies #[trigger] inner[i] != '}' by {
        let a = name.len() as int;
        let b = a + written.len();
        let c = b + literal.len();
        if i < a {
            assert(inner[i] == name[i]);
            let character = name[i];
            assert('a' <= character <= 'z' || 'A' <= character <= 'Z' || '0' <= character <= '9'
                || character == '_');
        } else if i < b {
            assert(inner[i] == written[i - a]);
        } else if i < c {
            assert(inner[i] == literal[i - b]);
        } else if i > c {
            assert(inner[i] == others[i - c - 1]);
        }
    }
}

/// One more matcher asks one more thing of the labels.
proof fn lemma_selects_in_front(
    old: SelectorModel,
    new: SelectorModel,
    matcher: MatcherModel,
    entry: EntryModel,
)
    requires
        new.filters == old.filters,
        new.matchers == seq![matcher] + old.matchers,
    ensures
        selects_entry(new, entry) <==> selects_entry(old, entry) && value_matches(
            matcher,
            label_value(entry.labels, matcher.name),
        ),
{
    assert(new.matchers[0] == matcher);
    if selects_entry(new, entry) {
        assert forall|i: int| 0 <= i < old.matchers.len() implies value_matches(
            #[trigger] old.matchers[i],
            label_value(entry.labels, old.matchers[i].name),
        ) by {
            assert(new.matchers[i + 1] == old.matchers[i]);
        }
    }
    if selects_entry(old, entry) && value_matches(
        matcher,
        label_value(entry.labels, matcher.name),
    ) {
        assert forall|i: int| 0 <= i < new.matchers.len() implies value_matches(
            #[trigger] new.matchers[i],
            label_value(entry.labels, new.matchers[i].name),
        ) by {
            if i > 0 {
                assert(new.matchers[i] == old.matchers[i - 1]);
            }
        }
    }
}

/// The empty selector selects every entry.
pub proof fn empty_selector_selects_all(entry: EntryModel)
    ensures
        parse_query_text(seq!['{', '}']) matches Ok(selector) && selects_entry(selector, entry),
{
    let none = Seq::<char>::empty();
    lemma_braced(none);
    assert(seq!['{'] + none + seq!['}'] =~= seq!['{', '}']);
    assert(skip_space(none, 0) == 0);
    assert(matchers_from(none, 0) == Ok::<_, ApiFault>(Seq::<MatcherModel>::empty()));
}

} // verus!
