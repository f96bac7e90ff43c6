//! Fields detected in structured metadata and in lines.
use vstd::prelude::*;

use crate::codec::{same_text, text_is_less, text_less};
use crate::labels::{lookup, Pairs};
use crate::loki_query::{label_name, validate_label_name};
use crate::loki_stats::{limit_reached, selection_holds, Selection, SelectionModel};
use crate::native_query::strings_view;
use crate::record::{entries_view, EntryModel, LokiEntry};
use crate::text::{chars_between, chars_of, text_between, text_of};
use crate::text_set::{add_text, insert_text};

verus! {

broadcast use vstd::seq_lib::group_seq_properties;

/// Field of a JSON object.
#[derive(Debug, PartialEq, Eq)]
pub enum JsonField {
    /// Text.
    Text(String),
    /// Number, as it is shown once it is read.
    Number(String),
    /// Truth value.
    Boolean(bool),
    /// Anything else.
    Other,
}

/// Value of a field of a JSON object.
#[verifier::ext_equal]
pub enum JsonFieldModel {
    /// Text.
    Text(Seq<char>),
    /// Number, as it is shown once it is read.
    Number(Seq<char>),
    /// Truth value.
    Boolean(bool),
    /// Anything else.
    Other,
}

impl View for JsonField {
    type V = JsonFieldModel;

    open spec fn view(&self) -> JsonFieldModel {
        match self {
            JsonField::Text(text) => JsonFieldModel::Text(text@),
            JsonField::Number(text) => JsonFieldModel::Number(text@),
            JsonField::Boolean(value) => JsonFieldModel::Boolean(*value),
            JsonField::Other => JsonFieldModel::Other,
        }
    }
}

/// Values of the fields of a JSON object.
pub open spec fn json_fields_view(fields: Seq<(String, JsonField)>) -> Seq<
    (Seq<char>, JsonFieldModel),
> {
    fields.map_values(|field: (String, JsonField)| (field.0@, field.1@))
}

/// The fields of a line that is a JSON object, in the order in which the object is
/// walked.
pub uninterp spec fn json_object(line: Seq<char>) -> Option<Seq<(Seq<char>, JsonFieldModel)>>;

/// Reads a line that is a JSON object.
///
/// Calls `serde_json::from_str` for a JSON value; whether the line is an object, and its
/// fields, depend on the line alone.
#[verifier::external_body]
fn read_json_object(line: &str) -> (fields: Option<Vec<(String, JsonField)>>)
    ensures
        match fields {
            Some(list) => json_object(line@) == Some(json_fields_view(list@)),
            None => json_object(line@) is None,
        },
{
    match serde_json::from_str::<serde_json::Value>(line) {
        Ok(serde_json::Value::Object(object)) => Some(
            object.into_iter().map(|(name, value)| (name, match value {
                serde_json::Value::String(text) => JsonField::Text(text),
                serde_json::Value::Number(number) => JsonField::Number(number.to_string()),
                serde_json::Value::Bool(value) => JsonField::Boolean(value),
                _ => JsonField::Other,
            })).collect(),
        ),
        _ => None,
    }
}

/// How a field was found in a line.
#[derive(Debug, Clone, Copy, PartialEq, Eq, Structural)]
pub enum LineParser {
    /// The line is a JSON object.
    Json,
    /// The line has words with an equals sign.
    Logfmt,
}

impl LineParser {
    /// Name of the parser.
    pub open spec fn text(self) -> Seq<char> {
        match self {
            LineParser::Json => "json"@,
            LineParser::Logfmt => "logfmt"@,
        }
    }

    /// Name of the parser.
    pub fn name(self) -> (name: &'static str)
        ensures
            name@ == self.text(),
    {
        match self {
            LineParser::Json => "json",
            LineParser::Logfmt => "logfmt",
        }
    }
}

/// Value of a field found in a line.
#[verifier::ext_equal]
pub struct LineFieldModel {
    /// Name.
    pub name: Seq<char>,
    /// Value.
    pub value: Seq<char>,
    /// How it was found.
    pub parser: LineParser,
}

/// Field found in a line.
#[derive(Debug, PartialEq, Eq)]
pub struct LineField {
    /// Name.
    pub name: String,
    /// Value.
    pub value: String,
    /// How it was found.
    pub parser: LineParser,
}

impl View for LineField {
    type V = LineFieldModel;

    open spec fn view(&self) -> LineFieldModel {
        LineFieldModel { name: self.name@, value: self.value@, parser: self.parser }
    }
}

/// Values of fields found in a line.
pub open spec fn line_fields_view(fields: Seq<LineField>) -> Seq<LineFieldModel> {
    fields.map_values(|field: LineField| field@)
}

/// Text of a field of a JSON object, if it is a text, a number or a truth value.
pub open spec fn json_text(field: JsonFieldModel) -> Option<Seq<char>> {
    match field {
        JsonFieldModel::Text(text) => Some(text),
        JsonFieldModel::Number(text) => Some(text),
        JsonFieldModel::Boolean(value) => Some(
            if value {
                "true"@
            } else {
                "false"@
            },
        ),
        JsonFieldModel::Other => None,
    }
}

/// Fields of a JSON object that have a text.
pub open spec fn json_line_fields(fields: Seq<(Seq<char>, JsonFieldModel)>) -> Seq<LineFieldModel>
    decreases fields.len(),
{
    if fields.len() == 0 {
        Seq::empty()
    } else {
        let front = json_line_fields(fields.drop_last());
        match json_text(fields.last().1) {
            Some(value) => front.push(
                LineFieldModel { name: fields.last().0, value, parser: LineParser::Json },
            ),
            None => front,
        }
    }
}

fn json_value_text(field: &JsonField) -> (text: Option<String>)
    ensures
        match (text, json_text(field@)) {
            (Some(found), Some(model)) => found@ == model,
            (None, None) => true,
            _ => false,
        },
{
    match field {
        JsonField::Text(text) => Some(text.clone()),
        JsonField::Number(text) => Some(text.clone()),
        JsonField::Boolean(value) => if *value {
            Some("true".to_owned())
        } else {
            Some("false".to_owned())
        },
        JsonField::Other => None,
    }
}

/// Fields of a JSON object that have a text.
pub fn fields_of_object(fields: &Vec<(String, JsonField)>) -> (found: Vec<LineField>)
    ensures
        line_fields_view(found@) == json_line_fields(json_fields_view(fields@)),
{
    let ghost models = json_fields_view(fields@);
    let mut found: Vec<LineField> = Vec::new();
    let mut index: usize = 0;
    proof {
        assert(line_fields_view(found@) =~= json_line_fields(models.subrange(0, 0)));
    }
    while index < fields.len()
        invariant
            index <= fields@.len(),
            models == json_fields_view(fields@),
            line_fields_view(found@) == json_line_fields(models.subrange(0, index as int)),
        decreases fields@.len() - index,
    {
        proof {
            let part = models.subrange(0, index + 1);
            assert(part.drop_last() =~= models.subrange(0, index as int));
            assert(part.last() == (fields@[index as int].0@, fields@[index as int].1@));
        }
        match json_value_text(&fields[index].1) {
            Some(value) => {
                let field = LineField {
                    name: fields[index].0.clone(),
                    value,
                    parser: LineParser::Json,
                };
                proof {
                    assert(line_fields_view(found@.push(field)) =~= line_fields_view(
                        found@,
                    ).push(field@));
                }
                found.push(field);
            },
            None => {},
        }
        index = index + 1;
    }
    proof {
        assert(models.subrange(0, index as int) =~= models);
    }
    found
}

/// Space, tab, line feed, form feed or carriage return.
pub open spec fn ascii_space(character: char) -> bool {
    character == ' ' || character == '\t' || character == '\n' || character == '\u{c}' || character
        == '\r'
}

/// First place from `at` on, whose character is or is not ASCII white space.
pub open spec fn word_edge(text: Seq<char>, at: int, space: bool) -> int
    decreases text.len() - at,
{
    if at >= text.len() {
        text.len() as int
    } else if ascii_space(text[at]) == space {
        at
    } else {
        word_edge(text, at + 1, space)
    }
}

proof fn lemma_word_edge(text: Seq<char>, at: int, space: bool)
    requires
        0 <= at <= text.len(),
    ensures
        at <= word_edge(text, at, space) <= text.len(),
        word_edge(text, at, space) < text.len() ==> ascii_space(
            text[word_edge(text, at, space)],
        ) == space,
    decreases text.len() - at,
{
    if at < text.len() && ascii_space(text[at]) != space {
        lemma_word_edge(text, at + 1, space);
    }
}

/// First place of a character from `at` on.
pub open spec fn place_of(text: Seq<char>, wanted: char, at: int) -> Option<int>
    decreases text.len() - at,
{
    if at >= text.len() {
        None
    } else if text[at] == wanted {
        Some(at)
    } else {
        place_of(text, wanted, at + 1)
    }
}

/// Characters that may surround a value.
pub open spec fn surrounds(character: char) -> bool {
    character == '"' || character == '\'' || character == ','
}

/// First place from `at` on that does not surround a value.
pub open spec fn value_start(text: Seq<char>, at: int) -> int
    decreases text.len() - at,
{
    if at >= text.len() {
        text.len() as int
    } else if surrounds(text[at]) {
        value_start(text, at + 1)
    } else {
        at
    }
}

/// Place behind the last character before `end` that does not surround a value.
pub open spec fn value_end(text: Seq<char>, start: int, end: int) -> int
    decreases end,
{
    if end <= start || end <= 0 {
        start
    } else if surrounds(text[end - 1]) {
        value_end(text, start, end - 1)
    } else {
        end
    }
}

/// A text without the characters that surround it.
pub open spec fn bare_value(text: Seq<char>) -> Seq<char> {
    let start = value_start(text, 0);
    text.subrange(start, value_end(text, start, text.len() as int))
}

/// Field of a word: a label name, an equals sign and a value that is not empty.
pub open spec fn word_field(word: Seq<char>) -> Option<LineFieldModel> {
    match place_of(word, '=', 0) {
        None => None,
        Some(at) => {
            let name = word.subrange(0, at);
            let value = bare_value(word.subrange(at + 1, word.len() as int));
            if label_name(name) && value.len() > 0 {
                Some(LineFieldModel { name, value, parser: LineParser::Logfmt })
            } else {
                None
            }
        },
    }
}

/// Fields of the words of a line, from `at` on.
pub open spec fn word_fields(line: Seq<char>, at: int) -> Seq<LineFieldModel>
    decreases line.len() - at, via word_fields_decreases
{
    let start = word_edge(line, at, false);
    if at < 0 || at >= line.len() || start >= line.len() {
        Seq::empty()
    } else {
        let end = word_edge(line, start, true);
        match word_field(line.subrange(start, end)) {
            Some(field) => seq![field] + word_fields(line, end),
            None => word_fields(line, end),
        }
    }
}

#[via_fn]
proof fn word_fields_decreases(line: Seq<char>, at: int) {
    if 0 <= at < line.len() {
        lemma_word_edge(line, at, false);
        let start = word_edge(line, at, false);
        if start < line.len() {
            lemma_word_edge(line, start, true);
            assert(!ascii_space(line[start]));
            lemma_word_edge(line, start + 1, true);
        }
    }
}

/// Fields found in a line: those of a JSON object, or those of its words.
pub open spec fn fields_in_line(line: Seq<char>) -> Seq<LineFieldModel> {
    match json_object(line) {
        Some(fields) => json_line_fields(fields),
        None => word_fields(line, 0),
    }
}

fn is_ascii_space(character: char) -> (space: bool)
    ensures
        space == ascii_space(character),
{
    character == ' ' || character == '\t' || character == '\n' || character == '\u{c}' || character
        == '\r'
}

fn find_edge(text: &Vec<char>, at: usize, space: bool) -> (edge: usize)
    requires
        at <= text@.len(),
    ensures
        edge == word_edge(text@, at as int, space),
        at <= edge <= text@.len(),
{
    let mut place: usize = at;
    while place < text.len() && is_ascii_space(text[place]) != space
        invariant
            at <= place <= text@.len(),
            word_edge(text@, at as int, space) == word_edge(text@, place as int, space),
        decreases text@.len() - place,
    {
        place = place + 1;
    }
    place
}

fn is_surround(character: char) -> (surround: bool)
    ensures
        surround == surrounds(character),
{
    character == '"' || character == '\'' || character == ','
}

fn strip_value(text: &Vec<char>) -> (value: Vec<char>)
    ensures
        value@ == bare_value(text@),
{
    let total: usize = text.len();
    let mut start: usize = 0;
    while start < total && is_surround(text[start])
        invariant
            start <= total == text@.len(),
            value_start(text@, 0) == value_start(text@, start as int),
        decreases total - start,
    {
        start = start + 1;
    }
    let mut end: usize = total;
    while end > start && is_surround(text[end - 1])
        invariant
            start <= end <= total == text@.len(),
            value_end(text@, start as int, total as int) == value_end(
                text@,
                start as int,
                end as int,
            ),
        decreases end,
    {
        end = end - 1;
    }
    chars_between(text, start, end)
}

fn read_word(word: &Vec<char>) -> (field: Option<LineField>)
    ensures
        match (field, word_field(word@)) {
            (Some(found), Some(model)) => found@ == model,
            (None, None) => true,
            _ => false,
        },
{
    let mut at: usize = 0;
    while at < word.len() && word[at] != '='
        invariant
            at <= word@.len(),
            place_of(word@, '=', 0) == place_of(word@, '=', at as int),
        decreases word@.len() - at,
    {
        at = at + 1;
    }
    if at >= word.len() {
        return None;
    }
    let name = text_between(word, 0, at);
    if validate_label_name(&name).is_err() {
        return None;
    }
    let value = strip_value(&chars_between(word, at + 1, word.len()));
    if value.len() == 0 {
        return None;
    }
    Some(LineField { name, value: text_of(&value), parser: LineParser::Logfmt })
}

/// Fields of the words of a line.
pub fn fields_of_words(line: &str) -> (found: Vec<LineField>)
    ensures
        line_fields_view(found@) == word_fields(line@, 0),
{
    let text = chars_of(line);
    let mut found: Vec<LineField> = Vec::new();
    let mut at: usize = 0;
    let ghost all = word_fields(text@, 0);
    proof {
        assert(line_fields_view(found@) + all =~= all);
    }
    while at < text.len()
        invariant
            at <= text@.len(),
            text@ == line@,
            all == word_fields(text@, 0),
            line_fields_view(found@) + word_fields(text@, at as int) == all,
        decreases text@.len() - at,
    {
        let start = find_edge(&text, at, false);
        if start >= text.len() {
            proof {
                assert(line_fields_view(found@) + word_fields(text@, at as int)
                    =~= line_fields_view(found@));
            }
            return found;
        }
        let end = find_edge(&text, start, true);
        proof {
            lemma_word_edge(text@, at as int, false);
            assert(!ascii_space(text@[start as int]));
            lemma_word_edge(text@, start + 1, true);
        }
        let ghost before = line_fields_view(found@);
        match read_word(&chars_between(&text, start, end)) {
            Some(field) => {
                proof {
                    assert(line_fields_view(found@.push(field)) =~= before.push(field@));
                    assert(before.push(field@) + word_fields(text@, end as int) =~= before + (
                    seq![field@] + word_fields(text@, end as int)));
                }
                found.push(field);
            },
            None => {},
        }
        at = end;
    }
    proof {
        assert(line_fields_view(found@) + word_fields(text@, at as int) =~= line_fields_view(
            found@,
        ));
    }
    found
}

/// Fields found in a line.
pub fn detect_line_fields(line: &str) -> (found: Vec<LineField>)
    ensures
        line_fields_view(found@) == fields_in_line(line@),
{
    match read_json_object(line) {
        Some(fields) => fields_of_object(&fields),
        None => fields_of_words(line),
    }
}

/// Value of a detected field.
#[verifier::ext_equal]
pub struct DetectedModel {
    /// Name.
    pub name: Seq<char>,
    /// Distinct values in ascending order.
    pub values: Seq<Seq<char>>,
    /// Found in JSON lines.
    pub json: bool,
    /// Found in words.
    pub logfmt: bool,
}

/// Field detected in metadata or lines.
#[derive(Debug, PartialEq, Eq)]
pub struct DetectedField {
    /// Name.
    pub name: String,
    /// Distinct values in ascending order.
    pub values: Vec<String>,
    /// Found in JSON lines.
    pub json: bool,
    /// Found in words.
    pub logfmt: bool,
}

impl View for DetectedField {
    type V = DetectedModel;

    open spec fn view(&self) -> DetectedModel {
        DetectedModel {
            name: self.name@,
            values: strings_view(self.values@),
            json: self.json,
            logfmt: self.logfmt,
        }
    }
}

/// Values of detected fields.
pub open spec fn detected_view(fields: Seq<DetectedField>) -> Seq<DetectedModel> {
    fields.map_values(|field: DetectedField| field@)
}

/// First field from `from` on whose name is not below another one.
pub open spec fn field_place(fields: Seq<DetectedModel>, name: Seq<char>, from: int) -> int
    decreases fields.len() - from,
{
    if from >= fields.len() {
        fields.len() as int
    } else if text_less(fields[from].name, name) {
        field_place(fields, name, from + 1)
    } else {
        from
    }
}

/// A field with one more value.
pub open spec fn with_value(
    field: DetectedModel,
    value: Seq<char>,
    parser: Option<LineParser>,
) -> DetectedModel {
    DetectedModel {
        name: field.name,
        values: insert_text(field.values, value),
        json: field.json || parser == Some(LineParser::Json),
        logfmt: field.logfmt || parser == Some(LineParser::Logfmt),
    }
}

/// Fields in ascending name order with one more value of a field.
pub open spec fn add_field(
    fields: Seq<DetectedModel>,
    name: Seq<char>,
    value: Seq<char>,
    parser: Option<LineParser>,
) -> Seq<DetectedModel> {
    let at = field_place(fields, name, 0);
    if at < fields.len() && fields[at].name == name {
        fields.update(at, with_value(fields[at], value, parser))
    } else {
        fields.insert(
            at,
            with_value(
                DetectedModel { name, values: Seq::empty(), json: false, logfmt: false },
                value,
                parser,
            ),
        )
    }
}

fn push_field(
    fields: &mut Vec<DetectedField>,
    name: &String,
    value: &String,
    parser: Option<LineParser>,
)
    ensures
        detected_view(final(fields)@) == add_field(
            detected_view(old(fields)@),
            name@,
            value@,
            parser,
        ),
{
    let ghost model = detected_view(fields@);
    let ghost raw = fields@;
    let json = match parser {
        Some(LineParser::Json) => true,
        _ => false,
    };
    let logfmt = match parser {
        Some(LineParser::Logfmt) => true,
        _ => false,
    };
    let mut at: usize = 0;
    while at < fields.len() && text_is_less(&fields[at].name, name)
        invariant
            at <= fields@.len(),
            model == detected_view(fields@),
            field_place(model, name@, 0) == field_place(model, name@, at as int),
        decreases fields@.len() - at,
    {
        proof {
            assert(model[at as int] == fields@[at as int]@);
        }
        at = at + 1;
    }
    proof {
        if at < fields@.len() {
            assert(model[at as int] == fields@[at as int]@);
        }
    }
    if at < fields.len() && same_text(&fields[at].name, name) {
        add_text(&mut fields[at].values, value.clone());
        if json {
            fields[at].json = true;
        }
        if logfmt {
            fields[at].logfmt = true;
        }
        proof {
            assert(fields@[at as int]@ =~= with_value(model[at as int], value@, parser));
            assert(detected_view(fields@) =~= add_field(model, name@, value@, parser));
        }
    } else {
        let mut values: Vec<String> = Vec::new();
        proof {
            assert(strings_view(values@) =~= Seq::<Seq<char>>::empty());
        }
        add_text(&mut values, value.clone());
        let field = DetectedField { name: name.clone(), values, json, logfmt };
        proof {
            assert(detected_view(raw.insert(at as int, field)) =~= model.insert(
                at as int,
                field@,
            ));
        }
        fields.insert(at, field);
    }
}

/// Fields with the structured metadata of an entry.
pub open spec fn add_metadata(fields: Seq<DetectedModel>, metadata: Pairs) -> Seq<DetectedModel>
    decreases metadata.len(),
{
    if metadata.len() == 0 {
        fields
    } else {
        add_field(
            add_metadata(fields, metadata.drop_last()),
            metadata.last().0,
            metadata.last().1,
            None,
        )
    }
}

/// Fields with those found in a line.
pub open spec fn add_line_fields(fields: Seq<DetectedModel>, found: Seq<LineFieldModel>) -> Seq<
    DetectedModel,
>
    decreases found.len(),
{
    if found.len() == 0 {
        fields
    } else {
        add_field(
            add_line_fields(fields, found.drop_last()),
            found.last().name,
            found.last().value,
            Some(found.last().parser),
        )
    }
}

/// Fields with those of an entry.
pub open spec fn add_entry_fields(fields: Seq<DetectedModel>, entry: EntryModel) -> Seq<
    DetectedModel,
> {
    add_line_fields(add_metadata(fields, entry.metadata), fields_in_line(entry.line))
}

fn push_entry_fields(fields: &mut Vec<DetectedField>, entry: &LokiEntry)
    ensures
        detected_view(final(fields)@) == add_entry_fields(detected_view(old(fields)@), entry@),
{
    let ghost before = detected_view(fields@);
    let metadata = &entry.structured_metadata;
    let total: usize = metadata.len();
    let mut index: usize = 0;
    proof {
        assert(metadata@.subrange(0, 0) =~= Pairs::empty());
    }
    while index < total
        invariant
            index <= total == metadata@.len(),
            detected_view(fields@) == add_metadata(
                before,
                metadata@.subrange(0, index as int),
            ),
        decreases total - index,
    {
        proof {
            let part = metadata@.subrange(0, index + 1);
            assert(part.drop_last() =~= metadata@.subrange(0, index as int));
            assert(part.last() == metadata@[index as int]);
        }
        push_field(fields, metadata.key_at(index), metadata.value_at(index), None);
        index = index + 1;
    }
    proof {
        assert(metadata@.subrange(0, index as int) =~= metadata@);
    }
    let ghost middle = detected_view(fields@);
    let found = detect_line_fields(&entry.line);
    let ghost models = line_fields_view(found@);
    let mut place: usize = 0;
    proof {
        assert(models.subrange(0, 0) =~= Seq::<LineFieldModel>::empty());
    }
    while place < found.len()
        invariant
            place <= found@.len(),
            models == line_fields_view(found@),
            detected_view(fields@) == add_line_fields(
                middle,
                models.subrange(0, place as int),
            ),
        decreases found@.len() - place,
    {
        proof {
            let part = models.subrange(0, place + 1);
            assert(part.drop_last() =~= models.subrange(0, place as int));
            assert(part.last() == found@[place as int]@);
        }
        push_field(fields, &found[place].name, &found[place].value, Some(found[place].parser));
        place = place + 1;
    }
    proof {
        assert(models.subrange(0, place as int) =~= models);
    }
}

/// Fields found and entries looked at.
#[verifier::ext_equal]
pub struct FieldState {
    /// Fields.
    pub fields: Seq<DetectedModel>,
    /// Entries looked at.
    pub scanned: nat,
}

/// Fields of the first `count` entries of a selection, up to a limit of entries.
pub open spec fn field_state(
    selection: SelectionModel,
    line_limit: nat,
    entries: Seq<EntryModel>,
    count: int,
) -> FieldState
    decreases count,
{
    if count <= 0 {
        FieldState { fields: Seq::empty(), scanned: 0 }
    } else {
        let front = field_state(selection, line_limit, entries, count - 1);
        let entry = entries[count - 1];
        if limit_reached(front.scanned, line_limit) || !selection_holds(selection, entry) {
            front
        } else {
            FieldState {
                fields: add_entry_fields(front.fields, entry),
                scanned: front.scanned + 1,
            }
        }
    }
}

proof fn lemma_field_limit(
    selection: SelectionModel,
    line_limit: nat,
    entries: Seq<EntryModel>,
    from: int,
    to: int,
)
    requires
        0 <= from <= to,
        limit_reached(field_state(selection, line_limit, entries, from).scanned, line_limit),
    ensures
        field_state(selection, line_limit, entries, to) == field_state(
            selection,
            line_limit,
            entries,
            from,
        ),
    decreases to - from,
{
    if from < to {
        lemma_field_limit(selection, line_limit, entries, from, to - 1);
    }
}

fn scan_fields(selection: &Selection, line_limit: usize, entries: &Vec<LokiEntry>) -> (fields: Vec<
    DetectedField,
>)
    requires
        selection.selector.well_formed(),
    ensures
        detected_view(fields@) == field_state(
            selection@,
            line_limit as nat,
            entries_view(entries@),
            entries@.len() as int,
        ).fields,
{
    let ghost models = entries_view(entries@);
    let ghost chosen = selection@;
    let mut fields: Vec<DetectedField> = Vec::new();
    let mut scanned: usize = 0;
    let mut index: usize = 0;
    proof {
        assert(detected_view(fields@) =~= Seq::<DetectedModel>::empty());
    }
    while index < entries.len()
        invariant
            selection.selector.well_formed(),
            index <= entries@.len(),
            scanned <= index,
            models == entries_view(entries@),
            chosen == selection@,
            !limit_reached(scanned as nat, line_limit as nat),
            field_state(chosen, line_limit as nat, models, index as int) == (FieldState {
                fields: detected_view(fields@),
                scanned: scanned as nat,
            }),
        decreases entries@.len() - index,
    {
        proof {
            assert(models[index as int] == entries@[index as int]@);
        }
        if selection.holds(&entries[index]) {
            push_entry_fields(&mut fields, &entries[index]);
            scanned = scanned + 1;
            if scanned == line_limit {
                proof {
                    assert(field_state(chosen, line_limit as nat, models, index + 1).scanned
                        == scanned);
                    lemma_field_limit(
                        chosen,
                        line_limit as nat,
                        models,
                        index + 1,
                        entries@.len() as int,
                    );
                }
                return fields;
            }
        }
        index = index + 1;
    }
    fields
}

/// Fields of the entries of a selection: of the first `line_limit` entries, the first
/// `field_limit` fields in name order.
pub fn detected_fields(
    selection: &Selection,
    line_limit: usize,
    field_limit: usize,
    entries: &Vec<LokiEntry>,
) -> (fields: Vec<DetectedField>)
    requires
        selection.selector.well_formed(),
    ensures
        detected_view(fields@) == crate::posting::limited(
            field_state(
                selection@,
                line_limit as nat,
                entries_view(entries@),
                entries@.len() as int,
            ).fields,
            field_limit as nat,
        ),
{
    let mut fields = scan_fields(selection, line_limit, entries);
    let ghost all = detected_view(fields@);
    if fields.len() > field_limit {
        fields.truncate(field_limit);
    }
    proof {
        assert(detected_view(fields@) =~= crate::posting::limited(all, field_limit as nat));
    }
    fields
}

/// Values with those that a line holds for a name.
pub open spec fn add_named(
    values: Seq<Seq<char>>,
    found: Seq<LineFieldModel>,
    name: Seq<char>,
) -> Seq<Seq<char>>
    decreases found.len(),
{
    if found.len() == 0 {
        values
    } else {
        let front = add_named(values, found.drop_last(), name);
        if found.last().name == name {
            insert_text(front, found.last().value)
        } else {
            front
        }
    }
}

/// Values with those that an entry holds for a name.
pub open spec fn add_entry_values(
    values: Seq<Seq<char>>,
    entry: EntryModel,
    name: Seq<char>,
) -> Seq<Seq<char>> {
    let first = match lookup(entry.metadata, name) {
        Some(value) => insert_text(values, value),
        None => values,
    };
    add_named(first, fields_in_line(entry.line), name)
}

fn push_entry_values(values: &mut Vec<String>, entry: &LokiEntry, name: &str)
    ensures
        strings_view(final(values)@) == add_entry_values(
            strings_view(old(values)@),
            entry@,
            name@,
        ),
{
    match entry.structured_metadata.get(name) {
        Some(value) => add_text(values, value.clone()),
        None => {},
    }
    let ghost middle = strings_view(values@);
    let found = detect_line_fields(&entry.line);
    let ghost models = line_fields_view(found@);
    let mut place: usize = 0;
    proof {
        assert(models.subrange(0, 0) =~= Seq::<LineFieldModel>::empty());
    }
    while place < found.len()
        invariant
            place <= found@.len(),
            models == line_fields_view(found@),
            strings_view(values@) == add_named(
                middle,
                models.subrange(0, place as int),
                name@,
            ),
        decreases found@.len() - place,
    {
        proof {
            let part = models.subrange(0, place + 1);
            assert(part.drop_last() =~= models.subrange(0, place as int));
            assert(part.last() == found@[place as int]@);
        }
        if same_text(&found[place].name, name) {
            add_text(values, found[place].value.clone());
        }
        place = place + 1;
    }
    proof {
        assert(models.subrange(0, place as int) =~= models);
    }
}

/// Values found, entries looked at, and whether the search is over.
#[verifier::ext_equal]
pub struct ValueState {
    /// Values in ascending order.
    pub values: Seq<Seq<char>>,
    /// Entries looked at.
    pub scanned: nat,
    /// Whether a limit was met after an entry.
    pub over: bool,
}

/// Values of a field in the first `count` entries of a selection; the search ends after
/// the entry at which a limit is met.
pub open spec fn value_state(
    selection: SelectionModel,
    name: Seq<char>,
    line_limit: nat,
    value_limit: nat,
    entries: Seq<EntryModel>,
    count: int,
) -> ValueState
    decreases count,
{
    if count <= 0 {
        ValueState { values: Seq::empty(), scanned: 0, over: false }
    } else {
        let front = value_state(selection, name, line_limit, value_limit, entries, count - 1);
        let entry = entries[count - 1];
        if front.over || !selection_holds(selection, entry) {
            front
        } else {
            let values = add_entry_values(front.values, entry, name);
            let scanned = front.scanned + 1;
            ValueState {
                values,
                scanned,
                over: scanned == line_limit || values.len() == value_limit,
            }
        }
    }
}

proof fn lemma_values_over(
    selection: SelectionModel,
    name: Seq<char>,
    line_limit: nat,
    value_limit: nat,
    entries: Seq<EntryModel>,
    from: int,
    to: int,
)
    requires
        0 <= from <= to,
        value_state(selection, name, line_limit, value_limit, entries, from).over,
    ensures
        value_state(selection, name, line_limit, value_limit, entries, to) == value_state(
            selection,
            name,
            line_limit,
            value_limit,
            entries,
            from,
        ),
    decreases to - from,
{
    if from < to {
        lemma_values_over(selection, name, line_limit, value_limit, entries, from, to - 1);
    }
}

/// Values of a field in the entries of a selection.
pub fn detected_field_values(
    selection: &Selection,
    name: &str,
    line_limit: usize,
    value_limit: usize,
    entries: &Vec<LokiEntry>,
) -> (values: Vec<String>)
    requires
        selection.selector.well_formed(),
    ensures
        strings_view(values@) == value_state(
            selection@,
            name@,
            line_limit as nat,
            value_limit as nat,
            entries_view(entries@),
            entries@.len() as int,
        ).values,
{
    let ghost models = entries_view(entries@);
    let ghost chosen = selection@;
    let mut values: Vec<String> = Vec::new();
    let mut scanned: usize = 0;
    let mut index: usize = 0;
    proof {
        assert(strings_view(values@) =~= Seq::<Seq<char>>::empty());
    }
    while index < entries.len()
        invariant
            selection.selector.well_formed(),
            index <= entries@.len(),
            scanned <= index,
            models == entries_view(entries@),
            chosen == selection@,
            value_state(
                chosen,
                name@,
                line_limit as nat,
                value_limit as nat,
                models,
                index as int,
            ) == (ValueState {
                values: strings_view(values@),
                scanned: scanned as nat,
                over: false,
            }),
        decreases entries@.len() - index,
    {
        proof {
            assert(models[index as int] == entries@[index as int]@);
        }
        if selection.holds(&entries[index]) {
            push_entry_values(&mut values, &entries[index], name);
            scanned = scanned + 1;
            proof {
                assert(strings_view(values@).len() == values@.len());
            }
            if scanned == line_limit || values.len() == value_limit {
                proof {
                    lemma_values_over(
                        chosen,
                        name@,
                        line_limit as nat,
                        value_limit as nat,
                        models,
                        index + 1,
                        entries@.len() as int,
                    );
                }
                return values;
            }
        }
        index = index + 1;
    }
    values
}

/// Names of the parsers that found a field, in ascending order.
pub fn parser_names(field: &DetectedField) -> (names: Vec<&'static str>)
    ensures
        names@.len() == (if field.json {
            1int
        } else {
            0
        }) + (if field.logfmt {
            1int
        } else {
            0
        }),
        field.json ==> names@[0]@ == "json"@,
        field.logfmt ==> names@.last()@ == "logfmt"@,
{
    let mut names: Vec<&'static str> = Vec::new();
    if field.json {
        names.push("json");
    }
    if field.logfmt {
        names.push("logfmt");
    }
    names
}

} // verus!
