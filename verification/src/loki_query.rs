//! LogQL stream selectors and line filters.
use vstd::prelude::*;

use crate::api_error::{bad, same_outcome, ApiFault, LokiApiError};
use crate::codec::same_text;
use crate::labels::{has_key, insert_pair, lookup, LabelMap, Pairs};
use crate::record::{EntryModel, LokiEntry};
use crate::text::{
    ascii_digit, ascii_letter, chars_between, chars_of, contains_text, debug_string, debug_text,
    is_ascii_digit, is_ascii_letter, is_white_space, lemma_skip_space, skip_space, skip_spaces,
    text_between, text_contains, trim, trimmed, white_space,
};

verus! {

broadcast use vstd::seq_lib::group_seq_properties;

/// How a matcher compares.
#[derive(Debug, Clone, Copy, PartialEq, Eq, Structural)]
pub enum MatchOperation {
    /// Equal, or contained.
    Equal,
    /// Not equal, or not contained.
    NotEqual,
    /// Matches a regular expression.
    Regex,
    /// Does not match a regular expression.
    NotRegex,
}

/// A compiled regular expression.
#[verifier::external_type_specification]
#[verifier::external_body]
pub struct ExRegex(regex::Regex);

/// The pattern of a compiled regular expression.
pub uninterp spec fn regex_source(compiled: regex::Regex) -> Seq<char>;

/// What is wrong with a regular expression; `None` where it compiles.
pub uninterp spec fn regex_error(pattern: Seq<char>) -> Option<Seq<char>>;

/// Whether a regular expression that compiles matches somewhere in a text.
pub uninterp spec fn regex_matches(pattern: Seq<char>, text: Seq<char>) -> bool;

/// Compiles a regular expression.
///
/// Calls `regex::Regex::new`, whose success and error message depend on the pattern
/// alone. A compiled expression stands for its pattern.
#[verifier::external_body]
fn compile_regex(pattern: &str) -> (result: Result<regex::Regex, String>)
    ensures
        match result {
            Ok(compiled) => regex_error(pattern@) is None && regex_source(compiled) == pattern@,
            Err(message) => regex_error(pattern@) == Some(message@),
        },
{
    regex::Regex::new(pattern).map_err(|error| error.to_string())
}

/// Whether a regular expression matches somewhere in a text.
///
/// Calls `regex::Regex::is_match`, which depends on the pattern and the text alone.
#[verifier::external_body]
fn regex_is_match(compiled: &regex::Regex, text: &str) -> (matches: bool)
    ensures
        matches == regex_matches(regex_source(*compiled), text@),
{
    compiled.is_match(text)
}

/// The text of a JSON string literal, or what is wrong with it.
pub uninterp spec fn json_string(literal: Seq<char>) -> Result<Seq<char>, Seq<char>>;

/// Reads a JSON string literal.
///
/// Calls `serde_json::from_str` for `String`, which depends on the literal alone.
#[verifier::external_body]
fn read_json_string(literal: &str) -> (result: Result<String, String>)
    ensures
        match result {
            Ok(text) => json_string(literal@) == Ok::<_, Seq<char>>(text@),
            Err(message) => json_string(literal@) == Err::<Seq<char>, _>(message@),
        },
{
    serde_json::from_str(literal).map_err(|error| error.to_string())
}

/// Whether a text names a label.
pub open spec fn label_name(name: Seq<char>) -> bool {
    &&& name.len() > 0
    &&& forall|i: int|
        0 <= i < name.len() ==> #[trigger] name[i] == '_' || ascii_letter(name[i]) || (i > 0
            && ascii_digit(name[i]))
}

/// The fault of a text that does not name a label.
pub open spec fn name_fault(name: Seq<char>) -> ApiFault {
    bad("invalid label name "@ + debug_text(name))
}

/// Checks that a text names a label.
pub fn validate_label_name(name: &str) -> (result: Result<(), LokiApiError>)
    ensures
        match result {
            Ok(_) => label_name(name@),
            Err(error) => !label_name(name@) && error@ == name_fault(name@),
        },
{
    let characters = chars_of(name);
    let mut valid = characters.len() > 0;
    let mut index: usize = 0;
    while index < characters.len()
        invariant
            index <= characters@.len(),
            characters@ == name@,
            valid == (characters@.len() > 0 && forall|i: int|
                0 <= i < index ==> #[trigger] characters@[i] == '_' || ascii_letter(characters@[i])
                    || (i > 0 && ascii_digit(characters@[i]))),
        decreases characters@.len() - index,
    {
        let character: char = characters[index];
        if !(character == '_' || is_ascii_letter(character) || (index > 0 && is_ascii_digit(
            character,
        ))) {
            valid = false;
        }
        index = index + 1;
    }
    if valid {
        Ok(())
    } else {
        let message = "invalid label name ".to_owned().concat(&debug_string(name));
        Err(LokiApiError::bad_request(&message))
    }
}

/// First faulty name among labels.
pub open spec fn names_fault(labels: Pairs) -> Option<ApiFault>
    decreases labels.len(),
{
    if labels.len() == 0 {
        None
    } else {
        match names_fault(labels.drop_last()) {
            Some(fault) => Some(fault),
            None => if label_name(labels.last().0) {
                None
            } else {
                Some(name_fault(labels.last().0))
            },
        }
    }
}

/// What is wrong with the labels of a stream.
pub open spec fn labels_fault(labels: Pairs) -> Option<ApiFault> {
    if labels.len() == 0 {
        Some(bad("at least one stream label is required"@))
    } else {
        names_fault(labels)
    }
}

proof fn lemma_names_fault(labels: Pairs, n: int)
    requires
        0 <= n <= labels.len(),
        names_fault(labels.subrange(0, n)) is Some,
    ensures
        names_fault(labels) == names_fault(labels.subrange(0, n)),
    decreases labels.len(),
{
    if n < labels.len() {
        assert(labels.drop_last().subrange(0, n) =~= labels.subrange(0, n));
        lemma_names_fault(labels.drop_last(), n);
    } else {
        assert(labels.subrange(0, n) =~= labels);
    }
}

/// Checks the labels of a stream.
pub fn validate_labels(labels: &LabelMap) -> (result: Result<(), LokiApiError>)
    ensures
        match result {
            Ok(_) => labels_fault(labels@) is None,
            Err(error) => labels_fault(labels@) == Some(error@),
        },
{
    if labels.is_empty() {
        return Err(LokiApiError::bad_request("at least one stream label is required"));
    }
    let mut index: usize = 0;
    proof {
        assert(labels@.subrange(0, 0) =~= Pairs::empty());
    }
    while index < labels.len()
        invariant
            index <= labels@.len(),
            names_fault(labels@.subrange(0, index as int)) is None,
        decreases labels@.len() - index,
    {
        proof {
            let part = labels@.subrange(0, index + 1);
            assert(part.drop_last() =~= labels@.subrange(0, index as int));
            assert(part.last() == labels@[index as int]);
        }
        match validate_label_name(labels.key_at(index)) {
            Ok(_) => {},
            Err(error) => {
                proof {
                    lemma_names_fault(labels@, index + 1);
                }
                return Err(error);
            },
        }
        index = index + 1;
    }
    proof {
        assert(labels@.subrange(0, index as int) =~= labels@);
    }
    Ok(())
}

/// Place of the quote that closes a literal, from `at` on; `None` where none does.
pub open spec fn closing_quote(text: Seq<char>, at: int, escaped: bool) -> Option<int>
    decreases text.len() - at,
{
    if at >= text.len() {
        None
    } else if escaped {
        closing_quote(text, at + 1, false)
    } else if text[at] == '\\' {
        closing_quote(text, at + 1, true)
    } else if text[at] == '"' {
        Some(at)
    } else {
        closing_quote(text, at + 1, false)
    }
}

/// The text of a quoted literal at a place, and the place behind it.
pub open spec fn parse_quoted(text: Seq<char>, at: int) -> Result<(Seq<char>, int), ApiFault> {
    if at >= text.len() || text[at] != '"' {
        Err(bad("expected quoted string"@))
    } else {
        match closing_quote(text, at + 1, false) {
            None => Err(bad("unterminated quoted string"@)),
            Some(end) => match json_string(text.subrange(at, end + 1)) {
                Ok(value) => Ok((value, end + 1)),
                Err(message) => Err(bad(message)),
            },
        }
    }
}

pub proof fn lemma_closing_quote(text: Seq<char>, at: int, escaped: bool)
    requires
        0 <= at,
    ensures
        closing_quote(text, at, escaped) matches Some(end) ==> at <= end < text.len(),
    decreases text.len() - at,
{
    if at < text.len() {
        lemma_closing_quote(text, at + 1, false);
        lemma_closing_quote(text, at + 1, true);
    }
}

/// Reads a quoted literal at a place.
fn read_quoted(text: &Vec<char>, at: usize) -> (result: Result<(String, usize), LokiApiError>)
    requires
        at <= text@.len(),
    ensures
        match (result, parse_quoted(text@, at as int)) {
            (Ok((value, next)), Ok((model, end))) => value@ == model && next == end && at < next
                <= text@.len(),
            (Err(error), Err(fault)) => error@ == fault,
            _ => false,
        },
{
    if at >= text.len() || text[at] != '"' {
        return Err(LokiApiError::bad_request("expected quoted string"));
    }
    let mut escaped = false;
    let mut index: usize = at + 1;
    while index < text.len()
        invariant
            at + 1 <= index <= text@.len(),
            text@[at as int] == '"',
            closing_quote(text@, at + 1, false) == closing_quote(text@, index as int, escaped),
        decreases text@.len() - index,
    {
        if escaped {
            escaped = false;
        } else if text[index] == '\\' {
            escaped = true;
        } else if text[index] == '"' {
            let literal = text_between(text, at, index + 1);
            return match read_json_string(&literal) {
                Ok(value) => Ok((value, index + 1)),
                Err(message) => Err(LokiApiError::bad_request(&message)),
            };
        }
        index = index + 1;
    }
    Err(LokiApiError::bad_request("unterminated quoted string"))
}

/// Value of a label matcher.
#[verifier::ext_equal]
pub struct MatcherModel {
    /// Label name; empty for a line filter.
    pub name: Seq<char>,
    /// Comparison.
    pub operation: MatchOperation,
    /// Expected value or pattern.
    pub value: Seq<char>,
}

/// A pattern that must match a whole text.
pub open spec fn anchored(pattern: Seq<char>) -> Seq<char> {
    "^(?:"@ + pattern + ")$"@
}

/// Whether an operation uses a regular expression.
pub open spec fn uses_regex(operation: MatchOperation) -> bool {
    operation == MatchOperation::Regex || operation == MatchOperation::NotRegex
}

/// Comparison with a label value.
#[derive(Debug)]
pub struct LabelMatcher {
    /// Label name.
    pub name: String,
    /// Comparison.
    pub operation: MatchOperation,
    /// Expected value or pattern.
    pub value: String,
    /// Compiled pattern, for a regular expression.
    pub regex: Option<regex::Regex>,
}

impl View for LabelMatcher {
    type V = MatcherModel;

    open spec fn view(&self) -> MatcherModel {
        MatcherModel { name: self.name@, operation: self.operation, value: self.value@ }
    }
}

/// Whether a label value satisfies a matcher.
pub open spec fn value_matches(matcher: MatcherModel, observed: Seq<char>) -> bool {
    match matcher.operation {
        MatchOperation::Equal => observed == matcher.value,
        MatchOperation::NotEqual => observed != matcher.value,
        MatchOperation::Regex => regex_matches(anchored(matcher.value), observed),
        MatchOperation::NotRegex => !regex_matches(anchored(matcher.value), observed),
    }
}

/// Value of a label; empty where it is missing.
pub open spec fn label_value(labels: Pairs, name: Seq<char>) -> Seq<char> {
    match lookup(labels, name) {
        Some(value) => value,
        None => Seq::empty(),
    }
}

impl LabelMatcher {
    /// The compiled pattern is the one of the value.
    pub open spec fn well_formed(self) -> bool {
        if uses_regex(self.operation) {
            self.regex matches Some(compiled) && regex_source(compiled) == anchored(self.value@)
        } else {
            self.regex is None
        }
    }

    /// Whether labels satisfy the matcher; a missing label counts as empty.
    pub fn matches(&self, labels: &LabelMap) -> (matches: bool)
        requires
            self.well_formed(),
        ensures
            matches == value_matches(self@, label_value(labels@, self.name@)),
    {
        let empty = String::new();
        proof {
            assert(empty@ =~= Seq::<char>::empty());
        }
        let observed: &String = match labels.get(&self.name) {
            Some(value) => value,
            None => &empty,
        };
        match self.operation {
            MatchOperation::Equal => same_text(observed, &self.value),
            MatchOperation::NotEqual => !same_text(observed, &self.value),
            MatchOperation::Regex => match &self.regex {
                Some(compiled) => regex_is_match(compiled, observed),
                None => false,
            },
            MatchOperation::NotRegex => match &self.regex {
                Some(compiled) => !regex_is_match(compiled, observed),
                None => false,
            },
        }
    }
}

/// Condition on a log line.
#[derive(Debug)]
pub struct LineFilter {
    /// Comparison.
    pub operation: MatchOperation,
    /// Expected part or pattern.
    pub value: String,
    /// Compiled pattern, for a regular expression.
    pub regex: Option<regex::Regex>,
}

impl View for LineFilter {
    type V = MatcherModel;

    open spec fn view(&self) -> MatcherModel {
        MatcherModel { name: Seq::empty(), operation: self.operation, value: self.value@ }
    }
}

/// Whether a line satisfies a filter.
pub open spec fn line_matches(filter: MatcherModel, line: Seq<char>) -> bool {
    match filter.operation {
        MatchOperation::Equal => contains_text(line, filter.value),
        MatchOperation::NotEqual => !contains_text(line, filter.value),
        MatchOperation::Regex => regex_matches(filter.value, line),
        MatchOperation::NotRegex => !regex_matches(filter.value, line),
    }
}

impl LineFilter {
    /// The compiled pattern is the one of the value.
    pub open spec fn well_formed(self) -> bool {
        if uses_regex(self.operation) {
            self.regex matches Some(compiled) && regex_source(compiled) == self.value@
        } else {
            self.regex is None
        }
    }

    /// Whether a line satisfies the filter.
    pub fn matches(&self, line: &str) -> (matches: bool)
        requires
            self.well_formed(),
        ensures
            matches == line_matches(self@, line@),
    {
        match self.operation {
            MatchOperation::Equal => text_contains(&chars_of(line), &chars_of(&self.value)),
            MatchOperation::NotEqual => !text_contains(&chars_of(line), &chars_of(&self.value)),
            MatchOperation::Regex => match &self.regex {
                Some(compiled) => regex_is_match(compiled, line),
                None => false,
            },
            MatchOperation::NotRegex => match &self.regex {
                Some(compiled) => !regex_is_match(compiled, line),
                None => false,
            },
        }
    }
}

/// First place from `at` on where a label name ends.
pub open spec fn name_end(text: Seq<char>, at: int, bang: bool) -> Option<int>
    decreases text.len() - at,
{
    if at >= text.len() {
        None
    } else if text[at] == '=' || (bang && text[at] == '!') || white_space(text[at]) {
        Some(at)
    } else {
        name_end(text, at + 1, bang)
    }
}

pub proof fn lemma_name_end(text: Seq<char>, at: int, bang: bool)
    requires
        0 <= at,
    ensures
        name_end(text, at, bang) matches Some(end) ==> at <= end < text.len(),
    decreases text.len() - at,
{
    if at < text.len() {
        lemma_name_end(text, at + 1, bang);
    }
}

/// First place from `at` on where a label name ends.
fn find_name_end(text: &Vec<char>, at: usize, bang: bool) -> (end: Option<usize>)
    requires
        at <= text@.len(),
    ensures
        match (end, name_end(text@, at as int, bang)) {
            (Some(found), Some(model)) => found == model && at <= found < text@.len(),
            (None, None) => true,
            _ => false,
        },
{
    let mut index: usize = at;
    while index < text.len()
        invariant
            at <= index <= text@.len(),
            name_end(text@, at as int, bang) == name_end(text@, index as int, bang),
        decreases text@.len() - index,
    {
        if text[index] == '=' || (bang && text[index] == '!') || is_white_space(text[index]) {
            return Some(index);
        }
        index = index + 1;
    }
    None
}

/// The operation at a place, and the place behind it.
pub open spec fn operation_at(text: Seq<char>, at: int) -> Option<(MatchOperation, int)> {
    if at + 1 < text.len() && text[at] == '=' && text[at + 1] == '~' {
        Some((MatchOperation::Regex, at + 2))
    } else if at + 1 < text.len() && text[at] == '!' && text[at + 1] == '~' {
        Some((MatchOperation::NotRegex, at + 2))
    } else if at + 1 < text.len() && text[at] == '!' && text[at + 1] == '=' {
        Some((MatchOperation::NotEqual, at + 2))
    } else if at < text.len() && text[at] == '=' {
        Some((MatchOperation::Equal, at + 1))
    } else {
        None
    }
}

/// The operation at a place, and the place behind it.
fn read_operation(text: &Vec<char>, at: usize) -> (found: Option<(MatchOperation, usize)>)
    requires
        at <= text@.len(),
    ensures
        match (found, operation_at(text@, at as int)) {
            (Some((operation, next)), Some((model, end))) => operation == model && next == end && at
                < next <= text@.len(),
            (None, None) => true,
            _ => false,
        },
{
    let total: usize = text.len();
    if at >= total {
        return None;
    }
    let left: usize = total - at;
    if left > 1 && text[at] == '=' && text[at + 1] == '~' {
        Some((MatchOperation::Regex, at + 2))
    } else if left > 1 && text[at] == '!' && text[at + 1] == '~' {
        Some((MatchOperation::NotRegex, at + 2))
    } else if left > 1 && text[at] == '!' && text[at + 1] == '=' {
        Some((MatchOperation::NotEqual, at + 2))
    } else if text[at] == '=' {
        Some((MatchOperation::Equal, at + 1))
    } else {
        None
    }
}

/// The matcher at a place that is not white space, and the place behind it.
pub open spec fn matcher_at(text: Seq<char>, at: int) -> Result<(MatcherModel, int), ApiFault> {
    match name_end(text, at, true) {
        None => Err(bad("invalid label matcher"@)),
        Some(end) => {
            let name = text.subrange(at, end);
            if !label_name(name) {
                Err(name_fault(name))
            } else {
                match operation_at(text, skip_space(text, end)) {
                    None => Err(bad("invalid label matcher operation"@)),
                    Some((operation, next)) => match parse_quoted(text, skip_space(text, next)) {
                        Err(fault) => Err(fault),
                        Ok((value, behind)) => if uses_regex(operation) && (regex_error(
                            anchored(value),
                        ) is Some) {
                            Err(
                                bad("invalid label regex: "@ + regex_error(anchored(value))->0),
                            )
                        } else {
                            Ok((MatcherModel { name, operation, value }, behind))
                        },
                    },
                }
            }
        },
    }
}

proof fn lemma_matcher_at(text: Seq<char>, at: int)
    requires
        0 <= at <= text.len(),
    ensures
        matcher_at(text, at) matches Ok((_, next)) ==> at < next <= text.len(),
{
    lemma_name_end(text, at, true);
    if name_end(text, at, true) is Some {
        let end = name_end(text, at, true)->0;
        lemma_skip_space(text, end);
        let op = skip_space(text, end);
        if operation_at(text, op) is Some {
            let next = (operation_at(text, op)->0).1;
            lemma_skip_space(text, next);
            lemma_closing_quote(text, skip_space(text, next) + 1, false);
        }
    }
}

/// The matchers from a place on.
pub open spec fn matchers_from(text: Seq<char>, at: int) -> Result<Seq<MatcherModel>, ApiFault>
    decreases text.len() - at,
    via matchers_from_decreases
{
    let start = skip_space(text, at);
    if at < 0 || at > text.len() || start >= text.len() {
        Ok(Seq::empty())
    } else {
        match matcher_at(text, start) {
            Err(fault) => Err(fault),
            Ok((matcher, next)) => {
                let comma = skip_space(text, next);
                if comma >= text.len() {
                    Ok(seq![matcher])
                } else if text[comma] != ',' {
                    Err(bad("expected comma between label matchers"@))
                } else {
                    match matchers_from(text, comma + 1) {
                        Err(fault) => Err(fault),
                        Ok(rest) => Ok(seq![matcher] + rest),
                    }
                }
            },
        }
    }
}

#[via_fn]
proof fn matchers_from_decreases(text: Seq<char>, at: int) {
    if 0 <= at <= text.len() {
        lemma_skip_space(text, at);
        let start = skip_space(text, at);
        lemma_matcher_at(text, start);
        if matcher_at(text, start) is Ok {
            lemma_skip_space(text, matcher_at(text, start)->Ok_0.1);
        }
    }
}

/// The matchers of a stream selector in braces.
pub open spec fn parse_selector(input: Seq<char>) -> Result<Seq<MatcherModel>, ApiFault> {
    let text = trimmed(input);
    if text.len() < 2 || text[0] != '{' || text.last() != '}' {
        Err(bad("invalid stream selector"@))
    } else {
        matchers_from(text.subrange(1, text.len() - 1), 0)
    }
}

/// Values of matchers.
pub open spec fn matchers_view(matchers: Seq<LabelMatcher>) -> Seq<MatcherModel> {
    matchers.map_values(|matcher: LabelMatcher| matcher@)
}

/// Values of filters.
pub open spec fn filters_view(filters: Seq<LineFilter>) -> Seq<MatcherModel> {
    filters.map_values(|filter: LineFilter| filter@)
}

/// Whether all compiled patterns are those of their values.
pub open spec fn matchers_formed(matchers: Seq<LabelMatcher>) -> bool {
    forall|i: int| 0 <= i < matchers.len() ==> (#[trigger] matchers[i]).well_formed()
}

/// Whether all compiled patterns are those of their values.
pub open spec fn filters_formed(filters: Seq<LineFilter>) -> bool {
    forall|i: int| 0 <= i < filters.len() ==> (#[trigger] filters[i]).well_formed()
}

/// Items in front of the items of a result.
pub open spec fn prepended<T>(done: Seq<T>, rest: Result<Seq<T>, ApiFault>) -> Result<
    Seq<T>,
    ApiFault,
> {
    match rest {
        Ok(items) => Ok(done + items),
        Err(fault) => Err(fault),
    }
}

fn anchored_pattern(value: &str) -> (pattern: String)
    ensures
        pattern@ == anchored(value@),
{
    let pattern = "^(?:".to_owned().concat(value).concat(")$");
    proof {
        assert(pattern@ =~= anchored(value@));
    }
    pattern
}

/// Reads the matcher at a place.
fn read_matcher(text: &Vec<char>, at: usize) -> (result: Result<
    (LabelMatcher, usize),
    LokiApiError,
>)
    requires
        at <= text@.len(),
    ensures
        match (result, matcher_at(text@, at as int)) {
            (Ok((matcher, next)), Ok((model, end))) => matcher@ == model && matcher.well_formed()
                && next == end && at < next <= text@.len(),
            (Err(error), Err(fault)) => error@ == fault,
            _ => false,
        },
{
    let end: usize = match find_name_end(text, at, true) {
        Some(end) => end,
        None => return Err(LokiApiError::bad_request("invalid label matcher")),
    };
    let name = text_between(text, at, end);
    match validate_label_name(&name) {
        Ok(_) => {},
        Err(error) => return Err(error),
    }
    let (operation, next) = match read_operation(text, skip_spaces(text, end)) {
        Some(found) => found,
        None => return Err(LokiApiError::bad_request("invalid label matcher operation")),
    };
    let (value, behind) = match read_quoted(text, skip_spaces(text, next)) {
        Ok(found) => found,
        Err(error) => return Err(error),
    };
    let regex = match operation {
        MatchOperation::Regex | MatchOperation::NotRegex => {
            match compile_regex(&anchored_pattern(&value)) {
                Ok(compiled) => Some(compiled),
                Err(message) => {
                    let text = "invalid label regex: ".to_owned().concat(&message);
                    return Err(LokiApiError::bad_request(&text));
                },
            }
        },
        _ => None,
    };
    Ok((LabelMatcher { name, operation, value, regex }, behind))
}

/// Reads the matchers of a stream selector in braces.
pub fn parse_selector_matchers(input: &Vec<char>) -> (result: Result<
    Vec<LabelMatcher>,
    LokiApiError,
>)
    ensures
        match (result, parse_selector(input@)) {
            (Ok(matchers), Ok(models)) => matchers_view(matchers@) == models && matchers_formed(
                matchers@,
            ),
            (Err(error), Err(fault)) => error@ == fault,
            _ => false,
        },
{
    let text = trim(input);
    let total: usize = text.len();
    if total < 2 || text[0] != '{' || text[total - 1] != '}' {
        return Err(LokiApiError::bad_request("invalid stream selector"));
    }
    let inner = chars_between(&text, 1, total - 1);
    let mut matchers: Vec<LabelMatcher> = Vec::new();
    let mut at: usize = 0;
    let ghost wanted = matchers_from(inner@, 0);
    proof {
        let none = matchers_view(matchers@);
        assert(none =~= Seq::<MatcherModel>::empty());
        if wanted is Ok {
            assert(none + wanted->Ok_0 =~= wanted->Ok_0);
        }
    }
    loop
        invariant_except_break
            at <= inner@.len(),
            wanted == matchers_from(inner@, 0),
            matchers_formed(matchers@),
            wanted == prepended(matchers_view(matchers@), matchers_from(inner@, at as int)),
        invariant
            parse_selector(input@) == wanted,
        ensures
            matchers_formed(matchers@),
            wanted == Ok::<_, ApiFault>(matchers_view(matchers@)),
        decreases inner@.len() - at,
    {
        let ghost done = matchers_view(matchers@);
        let start: usize = skip_spaces(&inner, at);
        if start >= inner.len() {
            proof {
                assert(done + Seq::<MatcherModel>::empty() =~= done);
            }
            break;
        }
        let (matcher, next) = match read_matcher(&inner, start) {
            Ok(found) => found,
            Err(error) => return Err(error),
        };
        let ghost model = matcher@;
        let comma: usize = skip_spaces(&inner, next);
        proof {
            assert(matchers_view(matchers@.push(matcher)) =~= done.push(model));
        }
        matchers.push(matcher);
        if comma >= inner.len() {
            proof {
                assert(done + seq![model] =~= done.push(model));
            }
            break;
        }
        if inner[comma] != ',' {
            return Err(LokiApiError::bad_request("expected comma between label matchers"));
        }
        proof {
            let rest = matchers_from(inner@, comma + 1);
            if rest is Ok {
                assert(done + (seq![model] + rest->Ok_0) =~= done.push(model) + rest->Ok_0);
            }
        }
        at = comma + 1;
    }
    Ok(matchers)
}

/// The line filter operation at a place, and the place behind it.
pub open spec fn filter_operation_at(text: Seq<char>, at: int) -> Option<(MatchOperation, int)> {
    if at + 1 >= text.len() {
        None
    } else if text[at] == '|' && text[at + 1] == '=' {
        Some((MatchOperation::Equal, at + 2))
    } else if text[at] == '!' && text[at + 1] == '=' {
        Some((MatchOperation::NotEqual, at + 2))
    } else if text[at] == '|' && text[at + 1] == '~' {
        Some((MatchOperation::Regex, at + 2))
    } else if text[at] == '!' && text[at + 1] == '~' {
        Some((MatchOperation::NotRegex, at + 2))
    } else {
        None
    }
}

/// The line filter at a place that is not white space, and the place behind it.
pub open spec fn filter_at(text: Seq<char>, at: int) -> Result<(MatcherModel, int), ApiFault> {
    match filter_operation_at(text, at) {
        None => Err(bad("unsupported or invalid LogQL pipeline stage"@)),
        Some((operation, next)) => match parse_quoted(text, skip_space(text, next)) {
            Err(fault) => Err(fault),
            Ok((value, behind)) => if uses_regex(operation) && regex_error(value) is Some {
                Err(bad("invalid regex: "@ + regex_error(value)->0))
            } else {
                Ok((MatcherModel { name: Seq::empty(), operation, value }, behind))
            },
        },
    }
}

proof fn lemma_filter_at(text: Seq<char>, at: int)
    requires
        0 <= at <= text.len(),
    ensures
        filter_at(text, at) matches Ok((_, next)) ==> at < next <= text.len(),
{
    if filter_operation_at(text, at) is Some {
        let next = (filter_operation_at(text, at)->0).1;
        lemma_skip_space(text, next);
        lemma_closing_quote(text, skip_space(text, next) + 1, false);
    }
}

/// The line filters from a place on.
pub open spec fn filters_from(text: Seq<char>, at: int) -> Result<Seq<MatcherModel>, ApiFault>
    decreases text.len() - at,
    via filters_from_decreases
{
    let start = skip_space(text, at);
    if at < 0 || at > text.len() || start >= text.len() {
        Ok(Seq::empty())
    } else {
        match filter_at(text, start) {
            Err(fault) => Err(fault),
            Ok((filter, next)) => match filters_from(text, next) {
                Err(fault) => Err(fault),
                Ok(rest) => Ok(seq![filter] + rest),
            },
        }
    }
}

#[via_fn]
proof fn filters_from_decreases(text: Seq<char>, at: int) {
    if 0 <= at <= text.len() {
        lemma_skip_space(text, at);
        lemma_filter_at(text, skip_space(text, at));
    }
}

/// Reads the line filter at a place.
fn read_filter(text: &Vec<char>, at: usize) -> (result: Result<(LineFilter, usize), LokiApiError>)
    requires
        at <= text@.len(),
    ensures
        match (result, filter_at(text@, at as int)) {
            (Ok((filter, next)), Ok((model, end))) => filter@ == model && filter.well_formed()
                && next == end && at < next <= text@.len(),
            (Err(error), Err(fault)) => error@ == fault,
            _ => false,
        },
{
    let total: usize = text.len();
    if total - at < 2 {
        return Err(LokiApiError::bad_request("unsupported or invalid LogQL pipeline stage"));
    }
    let operation = match (text[at], text[at + 1]) {
        ('|', '=') => MatchOperation::Equal,
        ('!', '=') => MatchOperation::NotEqual,
        ('|', '~') => MatchOperation::Regex,
        ('!', '~') => MatchOperation::NotRegex,
        _ => return Err(
            LokiApiError::bad_request("unsupported or invalid LogQL pipeline stage"),
        ),
    };
    let (value, behind) = match read_quoted(text, skip_spaces(text, at + 2)) {
        Ok(found) => found,
        Err(error) => return Err(error),
    };
    let regex = match operation {
        MatchOperation::Regex | MatchOperation::NotRegex => {
            match compile_regex(&value) {
                Ok(compiled) => Some(compiled),
                Err(message) => {
                    let text = "invalid regex: ".to_owned().concat(&message);
                    return Err(LokiApiError::bad_request(&text));
                },
            }
        },
        _ => None,
    };
    Ok((LineFilter { operation, value, regex }, behind))
}

/// Reads line filters.
pub fn parse_line_filters(text: &Vec<char>) -> (result: Result<Vec<LineFilter>, LokiApiError>)
    ensures
        match (result, filters_from(text@, 0)) {
            (Ok(filters), Ok(models)) => filters_view(filters@) == models && filters_formed(
                filters@,
            ),
            (Err(error), Err(fault)) => error@ == fault,
            _ => false,
        },
{
    let mut filters: Vec<LineFilter> = Vec::new();
    let mut at: usize = 0;
    let ghost wanted = filters_from(text@, 0);
    proof {
        let none = filters_view(filters@);
        assert(none =~= Seq::<MatcherModel>::empty());
        if wanted is Ok {
            assert(none + wanted->Ok_0 =~= wanted->Ok_0);
        }
    }
    loop
        invariant
            at <= text@.len(),
            wanted == filters_from(text@, 0),
            filters_formed(filters@),
            wanted == prepended(filters_view(filters@), filters_from(text@, at as int)),
        decreases text@.len() - at,
    {
        let ghost done = filters_view(filters@);
        let start: usize = skip_spaces(text, at);
        if start >= text.len() {
            proof {
                assert(done + Seq::<MatcherModel>::empty() =~= done);
            }
            return Ok(filters);
        }
        let (filter, next) = match read_filter(text, start) {
            Ok(found) => found,
            Err(error) => return Err(error),
        };
        proof {
            let model = filter@;
            assert(filters_view(filters@.push(filter)) =~= done.push(model));
            let rest = filters_from(text@, next as int);
            if rest is Ok {
                assert(done + (seq![model] + rest->Ok_0) =~= done.push(model) + rest->Ok_0);
            }
        }
        filters.push(filter);
        at = next;
    }
}

/// Value of a query: label matchers and line filters.
#[verifier::ext_equal]
pub struct SelectorModel {
    /// Conditions on labels.
    pub matchers: Seq<MatcherModel>,
    /// Conditions on the line.
    pub filters: Seq<MatcherModel>,
}

/// First closing brace.
pub open spec fn brace_from(text: Seq<char>, at: int) -> Option<int>
    decreases text.len() - at,
{
    if at >= text.len() {
        None
    } else if text[at] == '}' {
        Some(at)
    } else {
        brace_from(text, at + 1)
    }
}

/// The selector of a query.
pub open spec fn parse_query_text(text: Seq<char>) -> Result<SelectorModel, ApiFault> {
    match brace_from(text, 0) {
        None => Err(bad("LogQL query requires a stream selector"@)),
        Some(end) => match parse_selector(text.subrange(0, end + 1)) {
            Err(fault) => Err(fault),
            Ok(matchers) => match filters_from(text.subrange(end + 1, text.len() as int), 0) {
                Err(fault) => Err(fault),
                Ok(filters) => Ok(SelectorModel { matchers, filters }),
            },
        },
    }
}

/// Stream selector with line filters.
#[derive(Debug)]
pub struct LogSelector {
    /// Conditions on labels.
    pub matchers: Vec<LabelMatcher>,
    /// Conditions on the line.
    pub line_filters: Vec<LineFilter>,
}

impl View for LogSelector {
    type V = SelectorModel;

    open spec fn view(&self) -> SelectorModel {
        SelectorModel {
            matchers: matchers_view(self.matchers@),
            filters: filters_view(self.line_filters@),
        }
    }
}

/// Whether a selector selects an entry.
pub open spec fn selects_entry(selector: SelectorModel, entry: EntryModel) -> bool {
    &&& forall|i: int|
        0 <= i < selector.matchers.len() ==> value_matches(
            #[trigger] selector.matchers[i],
            label_value(entry.labels, selector.matchers[i].name),
        )
    &&& forall|i: int|
        0 <= i < selector.filters.len() ==> line_matches(
            #[trigger] selector.filters[i],
            entry.line,
        )
}

impl LogSelector {
    /// All compiled patterns are those of their values.
    pub open spec fn well_formed(self) -> bool {
        matchers_formed(self.matchers@) && filters_formed(self.line_filters@)
    }

    /// Whether an entry is selected.
    pub fn matches(&self, entry: &LokiEntry) -> (matches: bool)
        requires
            self.well_formed(),
        ensures
            matches == selects_entry(self@, entry@),
    {
        let mut index: usize = 0;
        while index < self.matchers.len()
            invariant
                self.well_formed(),
                index <= self.matchers@.len(),
                forall|i: int|
                    0 <= i < index ==> value_matches(
                        #[trigger] self@.matchers[i],
                        label_value(entry@.labels, self@.matchers[i].name),
                    ),
            decreases self.matchers@.len() - index,
        {
            proof {
                assert(self@.matchers[index as int] == self.matchers@[index as int]@);
            }
            if !self.matchers[index].matches(&entry.labels) {
                return false;
            }
            index = index + 1;
        }
        let mut place: usize = 0;
        while place < self.line_filters.len()
            invariant
                self.well_formed(),
                place <= self.line_filters@.len(),
                forall|i: int|
                    0 <= i < place ==> line_matches(#[trigger] self@.filters[i], entry@.line),
            decreases self.line_filters@.len() - place,
        {
            proof {
                assert(self@.filters[place as int] == self.line_filters@[place as int]@);
            }
            if !self.line_filters[place].matches(&entry.line) {
                return false;
            }
            place = place + 1;
        }
        true
    }
}

/// Reads a LogQL query.
pub fn parse_log_query(expression: &str) -> (result: Result<LogSelector, LokiApiError>)
    ensures
        same_outcome(result, parse_query_text(expression@)),
        result matches Ok(selector) ==> selector.well_formed(),
{
    let text = chars_of(expression);
    let mut end: usize = 0;
    while end < text.len() && text[end] != '}'
        invariant
            end <= text@.len(),
            text@ == expression@,
            brace_from(text@, 0) == brace_from(text@, end as int),
        decreases text@.len() - end,
    {
        end = end + 1;
    }
    if end >= text.len() {
        return Err(LokiApiError::bad_request("LogQL query requires a stream selector"));
    }
    let matchers = match parse_selector_matchers(&chars_between(&text, 0, end + 1)) {
        Ok(matchers) => matchers,
        Err(error) => return Err(error),
    };
    let line_filters = match parse_line_filters(&chars_between(&text, end + 1, text.len())) {
        Ok(filters) => filters,
        Err(error) => return Err(error),
    };
    Ok(LogSelector { matchers, line_filters })
}

/// The label at a place that is not white space, and the place behind it.
pub open spec fn label_at(text: Seq<char>, at: int) -> Result<
    ((Seq<char>, Seq<char>), int),
    ApiFault,
> {
    match name_end(text, at, false) {
        None => Err(bad("invalid label matcher"@)),
        Some(end) => {
            let name = text.subrange(at, end);
            if !label_name(name) {
                Err(name_fault(name))
            } else {
                match operation_at(text, skip_space(text, end)) {
                    None => Err(bad("invalid label matcher operation"@)),
                    Some((operation, next)) => match parse_quoted(text, skip_space(text, next)) {
                        Err(fault) => Err(fault),
                        Ok((value, behind)) => if operation != MatchOperation::Equal {
                            Err(
                                bad("non-equality matchers are not valid in pushed label sets"@),
                            )
                        } else {
                            Ok(((name, value), behind))
                        },
                    },
                }
            }
        },
    }
}

proof fn lemma_label_at(text: Seq<char>, at: int)
    requires
        0 <= at <= text.len(),
    ensures
        label_at(text, at) matches Ok((_, next)) ==> at < next <= text.len(),
{
    lemma_name_end(text, at, false);
    if name_end(text, at, false) is Some {
        let end = name_end(text, at, false)->0;
        lemma_skip_space(text, end);
        let op = skip_space(text, end);
        if operation_at(text, op) is Some {
            let next = (operation_at(text, op)->0).1;
            lemma_skip_space(text, next);
            lemma_closing_quote(text, skip_space(text, next) + 1, false);
        }
    }
}

/// The labels of a set from a place on, added to those before it.
pub open spec fn labels_from(text: Seq<char>, at: int, labels: Pairs) -> Result<Pairs, ApiFault>
    decreases text.len() - at,
    via labels_from_decreases
{
    let start = skip_space(text, at);
    if at < 0 || at > text.len() || start >= text.len() {
        Ok(labels)
    } else {
        match label_at(text, start) {
            Err(fault) => Err(fault),
            Ok((label, next)) => if has_key(labels, label.0) {
                Err(bad("duplicate label name"@))
            } else {
                let all = insert_pair(labels, label.0, label.1);
                let comma = skip_space(text, next);
                if comma >= text.len() {
                    Ok(all)
                } else if text[comma] != ',' {
                    Err(bad("expected comma between labels"@))
                } else {
                    labels_from(text, comma + 1, all)
                }
            },
        }
    }
}

#[via_fn]
proof fn labels_from_decreases(text: Seq<char>, at: int, labels: Pairs) {
    if 0 <= at <= text.len() {
        lemma_skip_space(text, at);
        let start = skip_space(text, at);
        lemma_label_at(text, start);
        if label_at(text, start) is Ok {
            lemma_skip_space(text, label_at(text, start)->Ok_0.1);
        }
    }
}

/// The labels of a pushed label set.
pub open spec fn label_set_of(input: Seq<char>) -> Result<Pairs, ApiFault> {
    let text = trimmed(input);
    if text.len() < 2 || text[0] != '{' || text.last() != '}' {
        Err(bad("invalid label set"@))
    } else {
        checked_labels(labels_from(text.subrange(1, text.len() - 1), 0, Seq::empty()))
    }
}

/// Labels, where nothing is wrong with them.
pub open spec fn checked_labels(read: Result<Pairs, ApiFault>) -> Result<Pairs, ApiFault> {
    match read {
        Err(fault) => Err(fault),
        Ok(labels) => match labels_fault(labels) {
            Some(fault) => Err(fault),
            None => Ok(labels),
        },
    }
}

/// Reads the label at a place.
fn read_label(text: &Vec<char>, at: usize) -> (result: Result<
    (String, String, usize),
    LokiApiError,
>)
    requires
        at <= text@.len(),
    ensures
        match (result, label_at(text@, at as int)) {
            (Ok((name, value, next)), Ok((label, end))) => (name@, value@) == label && next == end
                && at < next <= text@.len(),
            (Err(error), Err(fault)) => error@ == fault,
            _ => false,
        },
{
    let end: usize = match find_name_end(text, at, false) {
        Some(end) => end,
        None => return Err(LokiApiError::bad_request("invalid label matcher")),
    };
    let name = text_between(text, at, end);
    match validate_label_name(&name) {
        Ok(_) => {},
        Err(error) => return Err(error),
    }
    let (operation, next) = match read_operation(text, skip_spaces(text, end)) {
        Some(found) => found,
        None => return Err(LokiApiError::bad_request("invalid label matcher operation")),
    };
    let (value, behind) = match read_quoted(text, skip_spaces(text, next)) {
        Ok(found) => found,
        Err(error) => return Err(error),
    };
    if operation != MatchOperation::Equal {
        return Err(
            LokiApiError::bad_request("non-equality matchers are not valid in pushed label sets"),
        );
    }
    Ok((name, value, behind))
}

/// Reads a pushed label set.
pub fn parse_label_set(input: &str) -> (result: Result<LabelMap, LokiApiError>)
    ensures
        same_outcome(result, label_set_of(input@)),
{
    let text = trim(&chars_of(input));
    let total: usize = text.len();
    if total < 2 || text[0] != '{' || text[total - 1] != '}' {
        return Err(LokiApiError::bad_request("invalid label set"));
    }
    let inner = chars_between(&text, 1, total - 1);
    let mut labels = LabelMap::new();
    let mut at: usize = 0;
    let ghost wanted = labels_from(inner@, 0, Seq::empty());
    loop
        invariant_except_break
            at <= inner@.len(),
            wanted == labels_from(inner@, at as int, labels@),
        invariant
            label_set_of(input@) == checked_labels(wanted),
        ensures
            wanted == Ok::<_, ApiFault>(labels@),
        decreases inner@.len() - at,
    {
        let start: usize = skip_spaces(&inner, at);
        if start >= inner.len() {
            break;
        }
        let (name, value, next) = match read_label(&inner, start) {
            Ok(found) => found,
            Err(error) => return Err(error),
        };
        if labels.contains_key(&name) {
            return Err(LokiApiError::bad_request("duplicate label name"));
        }
        let _ = labels.insert(name, value);
        let comma: usize = skip_spaces(&inner, next);
        if comma >= inner.len() {
            break;
        }
        if inner[comma] != ',' {
            return Err(LokiApiError::bad_request("expected comma between labels"));
        }
        at = comma + 1;
    }
    match validate_labels(&labels) {
        Ok(_) => Ok(labels),
        Err(error) => Err(error),
    }
}

} // verus!
