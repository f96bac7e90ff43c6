//! Normalization of pushed entries and the streams of a response.
use vstd::prelude::*;

use crate::api_error::{bad, ApiFault, LokiApiError};
use crate::codec::same_text;
use crate::labels::{
    ascending, extend_pairs, has_key, insert_pair, lookup, pairs_less, LabelMap, Pairs,
};
use crate::loki_query::{labels_fault, label_set_of, parse_label_set, validate_labels};
use crate::loki_time::{read_i64_text, signed_in};
use crate::record::{entries_view, EntryModel, EventModel, LokiEntry, OtlpLogEvent};
use crate::text::{
    ascii_digit, ascii_letter, ascii_lowered, chars_of, holds_part, is_ascii_digit,
    is_ascii_letter, lower_ascii, part_at, text_of,
};

verus! {

broadcast use vstd::seq_lib::group_seq_properties;

/// Labels that may name the service of a stream, best first.
pub open spec fn service_names() -> Seq<Seq<char>> {
    seq![
        "service"@,
        "app"@,
        "application"@,
        "name"@,
        "app_kubernetes_io_name"@,
        "container"@,
        "container_name"@,
        "component"@,
        "workload"@,
        "job"@,
        "service.name"@,
    ]
}

/// Labels that may hold the level of an entry, best first.
pub open spec fn level_names() -> Seq<Seq<char>> {
    seq!["level"@, "severity"@, "severity_text"@, "lvl"@, "log_level"@]
}

/// Levels that are looked for in a line, in this order.
pub open spec fn level_words() -> Seq<Seq<char>> {
    seq!["trace"@, "debug"@, "info"@, "warn"@, "error"@, "fatal"@]
}

/// Texts of string slices.
pub open spec fn slices_view(texts: Seq<&'static str>) -> Seq<Seq<char>> {
    texts.map_values(|text: &'static str| text@)
}

fn service_list() -> (names: Vec<&'static str>)
    ensures
        slices_view(names@) == service_names(),
{
    let names: Vec<&'static str> = vec![
        "service",
        "app",
        "application",
        "name",
        "app_kubernetes_io_name",
        "container",
        "container_name",
        "component",
        "workload",
        "job",
        "service.name",
    ];
    proof {
        assert(slices_view(names@) =~= service_names());
    }
    names
}

fn level_list() -> (names: Vec<&'static str>)
    ensures
        slices_view(names@) == level_names(),
{
    let names: Vec<&'static str> = vec!["level", "severity", "severity_text", "lvl", "log_level"];
    proof {
        assert(slices_view(names@) =~= level_names());
    }
    names
}

fn word_list() -> (words: Vec<&'static str>)
    ensures
        slices_view(words@) == level_words(),
{
    let words: Vec<&'static str> = vec!["trace", "debug", "info", "warn", "error", "fatal"];
    proof {
        assert(slices_view(words@) =~= level_words());
    }
    words
}

/// Value of the first of several labels that is there, from `at` on.
pub open spec fn first_label(labels: Pairs, names: Seq<Seq<char>>, at: int) -> Option<Seq<char>>
    decreases names.len() - at,
{
    if at >= names.len() {
        None
    } else {
        match lookup(labels, names[at]) {
            Some(value) => Some(value),
            None => first_label(labels, names, at + 1),
        }
    }
}

/// Value of the first of several labels that is there.
fn find_label(labels: &LabelMap, names: &Vec<&'static str>) -> (value: Option<String>)
    ensures
        match (value, first_label(labels@, slices_view(names@), 0)) {
            (Some(found), Some(model)) => found@ == model,
            (None, None) => true,
            _ => false,
        },
{
    let ghost texts = slices_view(names@);
    let mut index: usize = 0;
    while index < names.len()
        invariant
            index <= names@.len(),
            texts == slices_view(names@),
            first_label(labels@, texts, 0) == first_label(labels@, texts, index as int),
        decreases names@.len() - index,
    {
        proof {
            assert(texts[index as int] == names@[index as int]@);
        }
        match labels.get(names[index]) {
            Some(value) => return Some(value.clone()),
            None => {},
        }
        index = index + 1;
    }
    None
}

/// Labels of a stream, with a service name where one can be found.
pub open spec fn normalized_labels(labels: Pairs) -> Pairs {
    if has_key(labels, "service_name"@) {
        labels
    } else {
        match first_label(labels, service_names(), 0) {
            Some(service) => insert_pair(labels, "service_name"@, service),
            None => labels,
        }
    }
}

/// Adds a service name to the labels of a stream, where one can be found.
pub fn normalize_stream_labels(labels: LabelMap) -> (normalized: LabelMap)
    ensures
        normalized@ == normalized_labels(labels@),
{
    let mut labels = labels;
    if !labels.contains_key("service_name") {
        match find_label(&labels, &service_list()) {
            Some(service) => {
                let _ = labels.insert("service_name".to_owned(), service);
            },
            None => {},
        }
    }
    labels
}

/// ASCII letter or digit.
pub open spec fn word_character(character: char) -> bool {
    ascii_letter(character) || ascii_digit(character)
}

/// Whether a text holds a word at a place, with no letter or digit beside it.
pub open spec fn word_at(text: Seq<char>, at: int, word: Seq<char>) -> bool {
    &&& part_at(text, at, word)
    &&& at > 0 ==> !word_character(text[at - 1])
    &&& at + word.len() < text.len() ==> !word_character(text[(at + word.len()) as int])
}

/// Whether a text holds a word.
pub open spec fn has_word(text: Seq<char>, word: Seq<char>) -> bool {
    exists|at: int| #[trigger] word_at(text, at, word)
}

/// First word of a list that a text holds, from `from` on.
pub open spec fn first_word(text: Seq<char>, words: Seq<Seq<char>>, from: int) -> Option<int>
    decreases words.len() - from,
{
    if from >= words.len() {
        None
    } else if has_word(text, words[from]) {
        Some(from)
    } else {
        first_word(text, words, from + 1)
    }
}

/// Level of an entry: the level label in lowercase, or the first level word of the
/// line.
pub open spec fn level_of(labels: Pairs, line: Seq<char>) -> Seq<char> {
    match first_label(labels, level_names(), 0) {
        Some(level) => ascii_lowered(level),
        None => match first_word(ascii_lowered(line), level_words(), 0) {
            Some(index) => level_words()[index],
            None => "unknown"@,
        },
    }
}

/// Whether a text holds a word.
fn holds_word(text: &Vec<char>, word: &Vec<char>) -> (holds: bool)
    ensures
        holds == has_word(text@, word@),
{
    let total: usize = text.len();
    let mut at: usize = 0;
    while at <= total
        invariant
            at <= total + 1,
            total == text@.len(),
            forall|i: int| 0 <= i < at ==> !#[trigger] word_at(text@, i, word@),
        decreases total + 1 - at,
    {
        if holds_part(text, at, word) {
            let free_before = at == 0 || !(is_ascii_letter(text[at - 1]) || is_ascii_digit(
                text[at - 1],
            ));
            let end: usize = at + word.len();
            let free_behind = end == total || !(is_ascii_letter(text[end]) || is_ascii_digit(
                text[end],
            ));
            if free_before && free_behind {
                proof {
                    assert(word_at(text@, at as int, word@));
                }
                return true;
            }
        }
        if at == total {
            proof {
                assert forall|i: int| !#[trigger] word_at(text@, i, word@) by {}
            }
            return false;
        }
        at = at + 1;
    }
    false
}

/// Level of an entry.
pub fn detected_level(labels: &LabelMap, line: &str) -> (level: String)
    ensures
        level@ == level_of(labels@, line@),
{
    match find_label(labels, &level_list()) {
        Some(level) => return text_of(&lower_ascii(&chars_of(&level))),
        None => {},
    }
    let text = lower_ascii(&chars_of(line));
    let words = word_list();
    let mut index: usize = 0;
    while index < words.len()
        invariant
            index <= words@.len(),
            slices_view(words@) == level_words(),
            text@ == ascii_lowered(line@),
            first_label(labels@, level_names(), 0) is None,
            first_word(text@, level_words(), 0) == first_word(
                text@,
                level_words(),
                index as int,
            ),
        decreases words@.len() - index,
    {
        let word = chars_of(words[index]);
        proof {
            assert(slices_view(words@)[index as int] == words@[index as int]@);
        }
        if holds_word(&text, &word) {
            return words[index].to_owned();
        }
        index = index + 1;
    }
    "unknown".to_owned()
}

/// Labels of an entry in a response: those of the stream, the structured metadata,
/// and the level unless there is one.
pub open spec fn response_labels_of(entry: EntryModel) -> Pairs {
    let all = extend_pairs(entry.labels, entry.metadata);
    if has_key(all, "detected_level"@) {
        all
    } else {
        insert_pair(all, "detected_level"@, level_of(all, entry.line))
    }
}

/// Labels of an entry in a response.
pub fn response_labels(entry: &LokiEntry) -> (labels: LabelMap)
    ensures
        labels@ == response_labels_of(entry@),
{
    let mut labels = entry.labels.clone();
    labels.extend(&entry.structured_metadata);
    if !labels.contains_key("detected_level") {
        let level = detected_level(&labels, &entry.line);
        let _ = labels.insert("detected_level".to_owned(), level);
    }
    labels
}

/// Value of one stream of a response: its labels, and its lines with their times.
#[verifier::ext_equal]
pub struct StreamModel {
    /// Labels of the stream.
    pub labels: Pairs,
    /// Timestamps and lines.
    pub values: Seq<(i64, Seq<char>)>,
}

/// One stream of a response.
#[derive(Debug)]
pub struct ResponseStream {
    /// Labels of the stream.
    pub labels: LabelMap,
    /// Timestamps and lines.
    pub values: Vec<(i64, String)>,
}

/// Timestamps and lines.
pub open spec fn values_view(values: Seq<(i64, String)>) -> Seq<(i64, Seq<char>)> {
    values.map_values(|value: (i64, String)| (value.0, value.1@))
}

impl View for ResponseStream {
    type V = StreamModel;

    open spec fn view(&self) -> StreamModel {
        StreamModel { labels: self.labels@, values: values_view(self.values@) }
    }
}

/// Values of streams.
pub open spec fn streams_view(streams: Seq<ResponseStream>) -> Seq<StreamModel> {
    streams.map_values(|stream: ResponseStream| stream@)
}

/// First stream from `from` on whose labels are not below others.
pub open spec fn stream_place(streams: Seq<StreamModel>, labels: Pairs, from: int) -> int
    decreases streams.len() - from,
{
    if from >= streams.len() {
        streams.len() as int
    } else if pairs_less(streams[from].labels, labels) {
        stream_place(streams, labels, from + 1)
    } else {
        from
    }
}

/// Streams in ascending label order with one more line.
pub open spec fn add_line(
    streams: Seq<StreamModel>,
    labels: Pairs,
    value: (i64, Seq<char>),
) -> Seq<StreamModel> {
    let at = stream_place(streams, labels, 0);
    if at < streams.len() && streams[at].labels == labels {
        streams.update(at, StreamModel { labels, values: streams[at].values.push(value) })
    } else {
        streams.insert(at, StreamModel { labels, values: seq![value] })
    }
}

/// Streams of entries, in ascending label order; lines keep their order.
pub open spec fn streams_of(entries: Seq<EntryModel>) -> Seq<StreamModel>
    decreases entries.len(),
{
    if entries.len() == 0 {
        Seq::empty()
    } else {
        let last = entries.last();
        add_line(
            streams_of(entries.drop_last()),
            response_labels_of(last),
            (last.timestamp, last.line),
        )
    }
}

/// Adds a line to its stream.
fn push_line(streams: &mut Vec<ResponseStream>, labels: LabelMap, timestamp: i64, line: String)
    ensures
        streams_view(final(streams)@) == add_line(
            streams_view(old(streams)@),
            labels@,
            (timestamp, line@),
        ),
{
    let ghost model = streams_view(streams@);
    let ghost raw = streams@;
    let ghost value = (timestamp, line@);
    let mut at: usize = 0;
    while at < streams.len() && streams[at].labels.is_less(&labels)
        invariant
            at <= streams@.len(),
            model == streams_view(streams@),
            stream_place(model, labels@, 0) == stream_place(model, labels@, at as int),
        decreases streams@.len() - at,
    {
        at = at + 1;
    }
    if at < streams.len() && streams[at].labels.same(&labels) {
        streams[at].values.push((timestamp, line));
        proof {
            assert(model[at as int] == raw[at as int]@);
            assert(values_view(streams@[at as int].values@) =~= model[at as int].values.push(
                value,
            ));
            assert(streams_view(streams@) =~= add_line(model, labels@, value));
        }
    } else {
        let mut values: Vec<(i64, String)> = Vec::new();
        values.push((timestamp, line));
        let stream = ResponseStream { labels, values };
        proof {
            assert(values_view(values@) =~= seq![value]);
            assert(streams_view(raw.insert(at as int, stream)) =~= model.insert(
                at as int,
                stream@,
            ));
        }
        streams.insert(at, stream);
    }
}

/// Groups entries into the streams of a response.
pub fn group_streams(entries: &Vec<LokiEntry>) -> (streams: Vec<ResponseStream>)
    ensures
        streams_view(streams@) == streams_of(entries_view(entries@)),
{
    let ghost models = entries_view(entries@);
    let mut streams: Vec<ResponseStream> = Vec::new();
    let mut index: usize = 0;
    proof {
        assert(streams_view(streams@) =~= streams_of(models.subrange(0, 0)));
    }
    while index < entries.len()
        invariant
            index <= entries@.len(),
            models == entries_view(entries@),
            streams_view(streams@) == streams_of(models.subrange(0, index as int)),
        decreases entries@.len() - index,
    {
        proof {
            let part = models.subrange(0, index + 1);
            assert(part.drop_last() =~= models.subrange(0, index as int));
            assert(part.last() == entries@[index as int]@);
        }
        push_line(
            &mut streams,
            response_labels(&entries[index]),
            entries[index].timestamp_unix_nanos,
            entries[index].line.clone(),
        );
        index = index + 1;
    }
    proof {
        assert(models.subrange(0, index as int) =~= models);
    }
    streams
}

/// Item of a pushed JSON value.
#[derive(Debug, PartialEq, Eq)]
pub enum PushItem {
    /// Text.
    Text(String),
    /// Object; fields that are no text are `None`.
    Fields(Vec<(String, Option<String>)>),
    /// Anything else.
    Other,
}

/// Value of an item of a pushed JSON value.
#[verifier::ext_equal]
pub enum ItemModel {
    /// Text.
    Text(Seq<char>),
    /// Object; fields that are no text are `None`.
    Fields(Seq<(Seq<char>, Option<Seq<char>>)>),
    /// Anything else.
    Other,
}

/// Fields of an object.
pub open spec fn item_fields(fields: Seq<(String, Option<String>)>) -> Seq<
    (Seq<char>, Option<Seq<char>>),
> {
    fields.map_values(
        |field: (String, Option<String>)|
            (
                field.0@,
                match field.1 {
                    Some(text) => Some(text@),
                    None => None,
                },
            ),
    )
}

impl View for PushItem {
    type V = ItemModel;

    open spec fn view(&self) -> ItemModel {
        match self {
            PushItem::Text(text) => ItemModel::Text(text@),
            PushItem::Fields(fields) => ItemModel::Fields(item_fields(fields@)),
            PushItem::Other => ItemModel::Other,
        }
    }
}

/// Structured metadata of an object, where all its fields are texts.
pub open spec fn metadata_of(fields: Seq<(Seq<char>, Option<Seq<char>>)>) -> Result<
    Pairs,
    ApiFault,
>
    decreases fields.len(),
{
    if fields.len() == 0 {
        Ok(Seq::empty())
    } else {
        match metadata_of(fields.drop_last()) {
            Err(fault) => Err(fault),
            Ok(front) => match fields.last().1 {
                Some(text) => Ok(insert_pair(front, fields.last().0, text)),
                None => Err(bad("structured metadata values must be strings"@)),
            },
        }
    }
}

proof fn lemma_metadata_fault(fields: Seq<(Seq<char>, Option<Seq<char>>)>, n: int)
    requires
        0 <= n <= fields.len(),
        metadata_of(fields.subrange(0, n)) is Err,
    ensures
        metadata_of(fields) == metadata_of(fields.subrange(0, n)),
    decreases fields.len(),
{
    if n < fields.len() {
        assert(fields.drop_last().subrange(0, n) =~= fields.subrange(0, n));
        lemma_metadata_fault(fields.drop_last(), n);
    } else {
        assert(fields.subrange(0, n) =~= fields);
    }
}

/// Structured metadata of an item.
pub open spec fn item_metadata(item: ItemModel) -> Result<Pairs, ApiFault> {
    match item {
        ItemModel::Fields(fields) => metadata_of(fields),
        _ => Err(bad("structured metadata must be an object"@)),
    }
}

/// Reads structured metadata.
fn parse_metadata(item: &PushItem) -> (result: Result<LabelMap, LokiApiError>)
    ensures
        crate::api_error::same_outcome(result, item_metadata(item@)),
{
    let fields = match item {
        PushItem::Fields(fields) => fields,
        _ => return Err(LokiApiError::bad_request("structured metadata must be an object")),
    };
    let ghost models = item_fields(fields@);
    let mut metadata = LabelMap::new();
    let mut index: usize = 0;
    proof {
        assert(models.subrange(0, 0) =~= Seq::<(Seq<char>, Option<Seq<char>>)>::empty());
    }
    while index < fields.len()
        invariant
            index <= fields@.len(),
            models == item_fields(fields@),
            item_metadata(item@) == metadata_of(models),
            metadata_of(models.subrange(0, index as int)) == Ok::<_, ApiFault>(metadata@),
        decreases fields@.len() - index,
    {
        let ghost part = models.subrange(0, index + 1);
        proof {
            assert(part.drop_last() =~= models.subrange(0, index as int));
            assert(part.last() == models[index as int]);
        }
        match &fields[index].1 {
            Some(text) => {
                let _ = metadata.insert(fields[index].0.clone(), text.clone());
            },
            None => {
                proof {
                    lemma_metadata_fault(models, index + 1);
                }
                return Err(
                    LokiApiError::bad_request("structured metadata values must be strings"),
                );
            },
        }
        index = index + 1;
    }
    proof {
        assert(models.subrange(0, index as int) =~= models);
    }
    Ok(metadata)
}

/// Items of a value.
pub open spec fn items_view(items: Seq<PushItem>) -> Seq<ItemModel> {
    items.map_values(|item: PushItem| item@)
}

/// The entry of a pushed value in a stream.
pub open spec fn pushed_entry(items: Seq<ItemModel>, labels: Pairs) -> Result<
    EntryModel,
    ApiFault,
> {
    if items.len() < 2 || items.len() > 3 {
        Err(bad("push value must contain timestamp, line, and optional metadata"@))
    } else {
        match items[0] {
            ItemModel::Text(stamp) => match signed_in(stamp, i64::MIN as int, i64::MAX as int) {
                None => Err(bad("push timestamp is not an integer"@)),
                Some(timestamp) => match items[1] {
                    ItemModel::Text(line) => {
                        let metadata = if items.len() == 3 {
                            item_metadata(items[2])
                        } else {
                            Ok(Seq::empty())
                        };
                        match metadata {
                            Err(fault) => Err(fault),
                            Ok(metadata) => Ok(
                                EntryModel { timestamp: timestamp as i64, labels, line, metadata },
                            ),
                        }
                    },
                    _ => Err(bad("push line must be a string"@)),
                },
            },
            _ => Err(bad("push timestamp must be a string"@)),
        }
    }
}

/// Reads a pushed value.
fn read_push_value(items: &Vec<PushItem>, labels: &LabelMap) -> (result: Result<
    LokiEntry,
    LokiApiError,
>)
    ensures
        crate::api_error::same_outcome(result, pushed_entry(items_view(items@), labels@)),
{
    let ghost models = items_view(items@);
    if items.len() < 2 || items.len() > 3 {
        return Err(
            LokiApiError::bad_request(
                "push value must contain timestamp, line, and optional metadata",
            ),
        );
    }
    proof {
        assert(models[0] == items@[0]@);
        assert(models[1] == items@[1]@);
    }
    let timestamp: i64 = match &items[0] {
        PushItem::Text(text) => match read_i64_text(&chars_of(text)) {
            Some(timestamp) => timestamp,
            None => return Err(LokiApiError::bad_request("push timestamp is not an integer")),
        },
        _ => return Err(LokiApiError::bad_request("push timestamp must be a string")),
    };
    let line = match &items[1] {
        PushItem::Text(text) => text.clone(),
        _ => return Err(LokiApiError::bad_request("push line must be a string")),
    };
    let metadata = if items.len() == 3 {
        proof {
            assert(models[2] == items@[2]@);
        }
        match parse_metadata(&items[2]) {
            Ok(metadata) => metadata,
            Err(error) => return Err(error),
        }
    } else {
        LabelMap::new()
    };
    Ok(
        LokiEntry {
            timestamp_unix_nanos: timestamp,
            labels: labels.clone(),
            line,
            structured_metadata: metadata,
        },
    )
}

/// Stream of a JSON push.
#[derive(Debug)]
pub struct PushStream {
    /// Stream labels.
    pub stream: LabelMap,
    /// Values: timestamp, line and optional metadata each.
    pub values: Vec<Vec<PushItem>>,
}

/// Value of a stream of a JSON push.
#[verifier::ext_equal]
pub struct PushStreamModel {
    /// Stream labels.
    pub labels: Pairs,
    /// Values.
    pub values: Seq<Seq<ItemModel>>,
}

impl View for PushStream {
    type V = PushStreamModel;

    open spec fn view(&self) -> PushStreamModel {
        PushStreamModel {
            labels: self.stream@,
            values: self.values@.map_values(|items: Vec<PushItem>| items_view(items@)),
        }
    }
}

/// Entries of values of a stream.
pub open spec fn value_entries(values: Seq<Seq<ItemModel>>, labels: Pairs) -> Result<
    Seq<EntryModel>,
    ApiFault,
>
    decreases values.len(),
{
    if values.len() == 0 {
        Ok(Seq::empty())
    } else {
        match value_entries(values.drop_last(), labels) {
            Err(fault) => Err(fault),
            Ok(front) => match pushed_entry(values.last(), labels) {
                Err(fault) => Err(fault),
                Ok(entry) => Ok(front.push(entry)),
            },
        }
    }
}

proof fn lemma_values_fault(values: Seq<Seq<ItemModel>>, labels: Pairs, n: int)
    requires
        0 <= n <= values.len(),
        value_entries(values.subrange(0, n), labels) is Err,
    ensures
        value_entries(values, labels) == value_entries(values.subrange(0, n), labels),
    decreases values.len(),
{
    if n < values.len() {
        assert(values.drop_last().subrange(0, n) =~= values.subrange(0, n));
        lemma_values_fault(values.drop_last(), labels, n);
    } else {
        assert(values.subrange(0, n) =~= values);
    }
}

/// Entries of a stream of a JSON push.
pub open spec fn stream_entries_of(stream: PushStreamModel) -> Result<Seq<EntryModel>, ApiFault> {
    match labels_fault(stream.labels) {
        Some(fault) => Err(fault),
        None => value_entries(stream.values, normalized_labels(stream.labels)),
    }
}

/// Entries of a JSON push.
pub open spec fn json_push_of(streams: Seq<PushStreamModel>) -> Result<Seq<EntryModel>, ApiFault>
    decreases streams.len(),
{
    if streams.len() == 0 {
        Ok(Seq::empty())
    } else {
        match json_push_of(streams.drop_last()) {
            Err(fault) => Err(fault),
            Ok(front) => match stream_entries_of(streams.last()) {
                Err(fault) => Err(fault),
                Ok(entries) => Ok(front + entries),
            },
        }
    }
}

proof fn lemma_push_fault(streams: Seq<PushStreamModel>, n: int)
    requires
        0 <= n <= streams.len(),
        json_push_of(streams.subrange(0, n)) is Err,
    ensures
        json_push_of(streams) == json_push_of(streams.subrange(0, n)),
    decreases streams.len(),
{
    if n < streams.len() {
        assert(streams.drop_last().subrange(0, n) =~= streams.subrange(0, n));
        lemma_push_fault(streams.drop_last(), n);
    } else {
        assert(streams.subrange(0, n) =~= streams);
    }
}

fn append_entries(entries: &mut Vec<LokiEntry>, more: Vec<LokiEntry>)
    ensures
        entries_view(final(entries)@) == entries_view(old(entries)@) + entries_view(more@),
{
    let ghost before = entries@;
    let ghost added = more@;
    let mut more = more;
    entries.append(&mut more);
    proof {
        assert(entries_view(entries@) =~= entries_view(before) + entries_view(added));
    }
}

/// Reads a stream of a JSON push.
fn read_push_stream(stream: &PushStream) -> (result: Result<Vec<LokiEntry>, LokiApiError>)
    ensures
        match (result, stream_entries_of(stream@)) {
            (Ok(entries), Ok(models)) => entries_view(entries@) == models,
            (Err(error), Err(fault)) => error@ == fault,
            _ => false,
        },
{
    match validate_labels(&stream.stream) {
        Ok(_) => {},
        Err(error) => return Err(error),
    }
    let labels = normalize_stream_labels(stream.stream.clone());
    let ghost values = stream@.values;
    let mut entries: Vec<LokiEntry> = Vec::new();
    let mut index: usize = 0;
    proof {
        assert(values.subrange(0, 0) =~= Seq::<Seq<ItemModel>>::empty());
        assert(entries_view(entries@) =~= Seq::<EntryModel>::empty());
    }
    while index < stream.values.len()
        invariant
            index <= stream.values@.len(),
            values == stream@.values,
            stream_entries_of(stream@) == value_entries(values, labels@),
            value_entries(values.subrange(0, index as int), labels@) == Ok::<_, ApiFault>(
                entries_view(entries@),
            ),
        decreases stream.values@.len() - index,
    {
        proof {
            let part = values.subrange(0, index + 1);
            assert(part.drop_last() =~= values.subrange(0, index as int));
            assert(part.last() == items_view(stream.values@[index as int]@));
        }
        match read_push_value(&stream.values[index], &labels) {
            Ok(entry) => {
                proof {
                    assert(entries_view(entries@.push(entry)) =~= entries_view(entries@).push(
                        entry@,
                    ));
                }
                entries.push(entry);
            },
            Err(error) => {
                proof {
                    lemma_values_fault(values, labels@, index + 1);
                }
                return Err(error);
            },
        }
        index = index + 1;
    }
    proof {
        assert(values.subrange(0, index as int) =~= values);
    }
    Ok(entries)
}

/// Values of the streams of a JSON push.
pub open spec fn push_streams_view(streams: Seq<PushStream>) -> Seq<PushStreamModel> {
    streams.map_values(|stream: PushStream| stream@)
}

/// Reads a JSON push.
pub fn decode_json_push(streams: &Vec<PushStream>) -> (result: Result<
    Vec<LokiEntry>,
    LokiApiError,
>)
    ensures
        match (result, json_push_of(push_streams_view(streams@))) {
            (Ok(entries), Ok(models)) => entries_view(entries@) == models,
            (Err(error), Err(fault)) => error@ == fault,
            _ => false,
        },
{
    let ghost models = push_streams_view(streams@);
    let mut entries: Vec<LokiEntry> = Vec::new();
    let mut index: usize = 0;
    proof {
        assert(models.subrange(0, 0) =~= Seq::<PushStreamModel>::empty());
        assert(entries_view(entries@) =~= Seq::<EntryModel>::empty());
    }
    while index < streams.len()
        invariant
            index <= streams@.len(),
            models == push_streams_view(streams@),
            json_push_of(models.subrange(0, index as int)) == Ok::<_, ApiFault>(
                entries_view(entries@),
            ),
        decreases streams@.len() - index,
    {
        proof {
            let part = models.subrange(0, index + 1);
            assert(part.drop_last() =~= models.subrange(0, index as int));
            assert(part.last() == streams@[index as int]@);
        }
        match read_push_stream(&streams[index]) {
            Ok(more) => {
                append_entries(&mut entries, more);
            },
            Err(error) => {
                proof {
                    lemma_push_fault(models, index + 1);
                }
                return Err(error);
            },
        }
        index = index + 1;
    }
    proof {
        assert(models.subrange(0, index as int) =~= models);
    }
    Ok(entries)
}

/// Entry of a protobuf push.
#[derive(Debug, PartialEq, Eq)]
pub struct ProtoEntry {
    /// Seconds and nanoseconds, where there is a timestamp.
    pub timestamp: Option<(i64, i32)>,
    /// Log line.
    pub line: String,
    /// Structured metadata.
    pub structured_metadata: Vec<(String, String)>,
}

/// Value of an entry of a protobuf push.
#[verifier::ext_equal]
pub struct ProtoEntryModel {
    /// Seconds and nanoseconds, where there is a timestamp.
    pub timestamp: Option<(i64, i32)>,
    /// Log line.
    pub line: Seq<char>,
    /// Structured metadata.
    pub metadata: Pairs,
}

impl View for ProtoEntry {
    type V = ProtoEntryModel;

    open spec fn view(&self) -> ProtoEntryModel {
        ProtoEntryModel {
            timestamp: self.timestamp,
            line: self.line@,
            metadata: crate::labels::pairs_view(self.structured_metadata@),
        }
    }
}

/// Stream of a protobuf push.
#[derive(Debug, PartialEq, Eq)]
pub struct ProtoStream {
    /// Label set.
    pub labels: String,
    /// Entries.
    pub entries: Vec<ProtoEntry>,
}

/// Value of a stream of a protobuf push.
#[verifier::ext_equal]
pub struct ProtoStreamModel {
    /// Label set.
    pub labels: Seq<char>,
    /// Entries.
    pub entries: Seq<ProtoEntryModel>,
}

impl View for ProtoStream {
    type V = ProtoStreamModel;

    open spec fn view(&self) -> ProtoStreamModel {
        ProtoStreamModel {
            labels: self.labels@,
            entries: self.entries@.map_values(|entry: ProtoEntry| entry@),
        }
    }
}

/// Nanoseconds of a protobuf timestamp.
pub open spec fn proto_nanos(seconds: i64, nanos: i32) -> Option<i64> {
    let whole = seconds * 1_000_000_000;
    if i64::MIN <= whole <= i64::MAX && i64::MIN <= whole + nanos <= i64::MAX {
        Some((whole + nanos) as i64)
    } else {
        None
    }
}

/// The entry of a protobuf push.
pub open spec fn proto_entry_of(entry: ProtoEntryModel, labels: Pairs) -> Result<
    EntryModel,
    ApiFault,
> {
    match entry.timestamp {
        None => Err(bad("push entry has no timestamp"@)),
        Some((seconds, nanos)) => match proto_nanos(seconds, nanos) {
            None => Err(bad("push timestamp is out of range"@)),
            Some(timestamp) => Ok(
                EntryModel {
                    timestamp,
                    labels,
                    line: entry.line,
                    metadata: crate::labels::collect_pairs(entry.metadata),
                },
            ),
        },
    }
}

/// Entries of a stream of a protobuf push.
pub open spec fn proto_entries_of(entries: Seq<ProtoEntryModel>, labels: Pairs) -> Result<
    Seq<EntryModel>,
    ApiFault,
>
    decreases entries.len(),
{
    if entries.len() == 0 {
        Ok(Seq::empty())
    } else {
        match proto_entries_of(entries.drop_last(), labels) {
            Err(fault) => Err(fault),
            Ok(front) => match proto_entry_of(entries.last(), labels) {
                Err(fault) => Err(fault),
                Ok(entry) => Ok(front.push(entry)),
            },
        }
    }
}

proof fn lemma_proto_fault(entries: Seq<ProtoEntryModel>, labels: Pairs, n: int)
    requires
        0 <= n <= entries.len(),
        proto_entries_of(entries.subrange(0, n), labels) is Err,
    ensures
        proto_entries_of(entries, labels) == proto_entries_of(entries.subrange(0, n), labels),
    decreases entries.len(),
{
    if n < entries.len() {
        assert(entries.drop_last().subrange(0, n) =~= entries.subrange(0, n));
        lemma_proto_fault(entries.drop_last(), labels, n);
    } else {
        assert(entries.subrange(0, n) =~= entries);
    }
}

/// Entries of a protobuf push.
pub open spec fn proto_push_of(streams: Seq<ProtoStreamModel>) -> Result<
    Seq<EntryModel>,
    ApiFault,
>
    decreases streams.len(),
{
    if streams.len() == 0 {
        Ok(Seq::empty())
    } else {
        match proto_push_of(streams.drop_last()) {
            Err(fault) => Err(fault),
            Ok(front) => match label_set_of(streams.last().labels) {
                Err(fault) => Err(fault),
                Ok(labels) => match proto_entries_of(
                    streams.last().entries,
                    normalized_labels(labels),
                ) {
                    Err(fault) => Err(fault),
                    Ok(entries) => Ok(front + entries),
                },
            },
        }
    }
}

proof fn lemma_proto_push_fault(streams: Seq<ProtoStreamModel>, n: int)
    requires
        0 <= n <= streams.len(),
        proto_push_of(streams.subrange(0, n)) is Err,
    ensures
        proto_push_of(streams) == proto_push_of(streams.subrange(0, n)),
    decreases streams.len(),
{
    if n < streams.len() {
        assert(streams.drop_last().subrange(0, n) =~= streams.subrange(0, n));
        lemma_proto_push_fault(streams.drop_last(), n);
    } else {
        assert(streams.subrange(0, n) =~= streams);
    }
}

/// Reads an entry of a protobuf push.
fn read_proto_entry(entry: &ProtoEntry, labels: &LabelMap) -> (result: Result<
    LokiEntry,
    LokiApiError,
>)
    ensures
        crate::api_error::same_outcome(result, proto_entry_of(entry@, labels@)),
{
    let (seconds, nanos) = match entry.timestamp {
        Some(timestamp) => timestamp,
        None => return Err(LokiApiError::bad_request("push entry has no timestamp")),
    };
    let timestamp: i64 = match seconds.checked_mul(1_000_000_000) {
        Some(whole) => match whole.checked_add(nanos as i64) {
            Some(timestamp) => timestamp,
            None => return Err(LokiApiError::bad_request("push timestamp is out of range")),
        },
        None => return Err(LokiApiError::bad_request("push timestamp is out of range")),
    };
    Ok(
        LokiEntry {
            timestamp_unix_nanos: timestamp,
            labels: labels.clone(),
            line: entry.line.clone(),
            structured_metadata: LabelMap::from_pairs(
                crate::labels::clone_pairs(&entry.structured_metadata),
            ),
        },
    )
}

/// Reads the entries of a stream of a protobuf push.
fn read_proto_entries(entries: &Vec<ProtoEntry>, labels: &LabelMap) -> (result: Result<
    Vec<LokiEntry>,
    LokiApiError,
>)
    ensures
        match (
            result,
            proto_entries_of(entries@.map_values(|entry: ProtoEntry| entry@), labels@),
        ) {
            (Ok(read), Ok(models)) => entries_view(read@) == models,
            (Err(error), Err(fault)) => error@ == fault,
            _ => false,
        },
{
    let ghost models = entries@.map_values(|entry: ProtoEntry| entry@);
    let mut read: Vec<LokiEntry> = Vec::new();
    let mut index: usize = 0;
    proof {
        assert(models.subrange(0, 0) =~= Seq::<ProtoEntryModel>::empty());
        assert(entries_view(read@) =~= Seq::<EntryModel>::empty());
    }
    while index < entries.len()
        invariant
            index <= entries@.len(),
            models == entries@.map_values(|entry: ProtoEntry| entry@),
            proto_entries_of(models.subrange(0, index as int), labels@) == Ok::<_, ApiFault>(
                entries_view(read@),
            ),
        decreases entries@.len() - index,
    {
        proof {
            let part = models.subrange(0, index + 1);
            assert(part.drop_last() =~= models.subrange(0, index as int));
            assert(part.last() == entries@[index as int]@);
        }
        match read_proto_entry(&entries[index], labels) {
            Ok(entry) => {
                proof {
                    assert(entries_view(read@.push(entry)) =~= entries_view(read@).push(entry@));
                }
                read.push(entry);
            },
            Err(error) => {
                proof {
                    lemma_proto_fault(models, labels@, index + 1);
                }
                return Err(error);
            },
        }
        index = index + 1;
    }
    proof {
        assert(models.subrange(0, index as int) =~= models);
    }
    Ok(read)
}

/// Values of the streams of a protobuf push.
pub open spec fn proto_streams_view(streams: Seq<ProtoStream>) -> Seq<ProtoStreamModel> {
    streams.map_values(|stream: ProtoStream| stream@)
}

/// Reads a decoded protobuf push.
pub fn decode_protobuf_push(streams: &Vec<ProtoStream>) -> (result: Result<
    Vec<LokiEntry>,
    LokiApiError,
>)
    ensures
        match (result, proto_push_of(proto_streams_view(streams@))) {
            (Ok(entries), Ok(models)) => entries_view(entries@) == models,
            (Err(error), Err(fault)) => error@ == fault,
            _ => false,
        },
{
    let ghost models = proto_streams_view(streams@);
    let mut entries: Vec<LokiEntry> = Vec::new();
    let mut index: usize = 0;
    proof {
        assert(models.subrange(0, 0) =~= Seq::<ProtoStreamModel>::empty());
        assert(entries_view(entries@) =~= Seq::<EntryModel>::empty());
    }
    while index < streams.len()
        invariant
            index <= streams@.len(),
            models == proto_streams_view(streams@),
            proto_push_of(models.subrange(0, index as int)) == Ok::<_, ApiFault>(
                entries_view(entries@),
            ),
        decreases streams@.len() - index,
    {
        proof {
            let part = models.subrange(0, index + 1);
            assert(part.drop_last() =~= models.subrange(0, index as int));
            assert(part.last() == streams@[index as int]@);
            if proto_push_of(part) is Err {
                lemma_proto_push_fault(models, index + 1);
            }
        }
        let labels = match parse_label_set(&streams[index].labels) {
            Ok(labels) => normalize_stream_labels(labels),
            Err(error) => return Err(error),
        };
        match read_proto_entries(&streams[index].entries, &labels) {
            Ok(more) => {
                append_entries(&mut entries, more);
            },
            Err(error) => return Err(error),
        }
        index = index + 1;
    }
    proof {
        assert(models.subrange(0, index as int) =~= models);
    }
    Ok(entries)
}

/// What a Snappy block decompresses to, or what is wrong with it.
pub uninterp spec fn snappy_decompressed(block: Seq<u8>) -> Result<Seq<u8>, Seq<char>>;

/// Decompresses a Snappy block.
///
/// Calls `snap::raw::Decoder::decompress_vec`, whose result and error message depend
/// on the block alone.
#[verifier::external_body]
pub(crate) fn snappy_decode(block: &[u8]) -> (result: Result<Vec<u8>, String>)
    ensures
        match result {
            Ok(bytes) => snappy_decompressed(block@) == Ok::<_, Seq<char>>(bytes@),
            Err(message) => snappy_decompressed(block@) == Err::<Seq<u8>, _>(message@),
        },
{
    snap::raw::Decoder::new().decompress_vec(block).map_err(|error| error.to_string())
}

/// Decompresses the body of a protobuf push.
pub fn decompress_push(body: &[u8]) -> (result: Result<Vec<u8>, LokiApiError>)
    ensures
        match (result, snappy_decompressed(body@)) {
            (Ok(bytes), Ok(model)) => bytes@ == model,
            (Err(error), Err(message)) => error@ == bad("invalid Snappy payload: "@ + message),
            _ => false,
        },
{
    push_payload(snappy_decode(body))
}

/// The body of a protobuf push, given what decompressing it gave.
pub fn push_payload(decompressed: Result<Vec<u8>, String>) -> (result: Result<
    Vec<u8>,
    LokiApiError,
>)
    ensures
        match (result, decompressed) {
            (Ok(bytes), Ok(model)) => bytes@ == model@,
            (Err(error), Err(message)) => error@ == bad("invalid Snappy payload: "@ + message@),
            _ => false,
        },
{
    match decompressed {
        Ok(bytes) => Ok(bytes),
        Err(message) => {
            let text = "invalid Snappy payload: ".to_owned().concat(&message);
            Err(LokiApiError::bad_request(&text))
        },
    }
}

/// A name with every character but letters, digits and underscores replaced.
pub open spec fn otlp_name(name: Seq<char>) -> Seq<char> {
    name.map_values(
        |character: char|
            if word_character(character) || character == '_' {
                character
            } else {
                '_'
            },
    )
}

/// Replaces every character of a name but letters, digits and underscores.
pub fn normalize_otlp_name(name: &str) -> (normalized: String)
    ensures
        normalized@ == otlp_name(name@),
{
    let characters = chars_of(name);
    let mut result: Vec<char> = Vec::new();
    let mut index: usize = 0;
    while index < characters.len()
        invariant
            index <= characters@.len(),
            characters@ == name@,
            result@.len() == index,
            forall|i: int| 0 <= i < index ==> result@[i] == otlp_name(name@)[i],
        decreases characters@.len() - index,
    {
        let character: char = characters[index];
        if is_ascii_letter(character) || is_ascii_digit(character) || character == '_' {
            result.push(character);
        } else {
            result.push('_');
        }
        index = index + 1;
    }
    proof {
        assert(result@ =~= otlp_name(name@));
    }
    text_of(&result)
}

/// Whether a field names the service.
pub open spec fn names_service(key: Seq<char>) -> bool {
    key == "service.name"@ || key == "resource.service.name"@
}

/// Labels of an event: the service, where fields name it.
pub open spec fn event_labels(fields: Pairs) -> Pairs
    decreases fields.len(),
{
    if fields.len() == 0 {
        Seq::empty()
    } else {
        let front = event_labels(fields.drop_last());
        if names_service(fields.last().0) {
            insert_pair(front, "service_name"@, fields.last().1)
        } else {
            front
        }
    }
}

/// Structured metadata of an event: all other fields.
pub open spec fn event_metadata(fields: Pairs) -> Pairs
    decreases fields.len(),
{
    if fields.len() == 0 {
        Seq::empty()
    } else {
        let front = event_metadata(fields.drop_last());
        if names_service(fields.last().0) {
            front
        } else {
            insert_pair(front, otlp_name(fields.last().0), fields.last().1)
        }
    }
}

/// The entry of an OTLP event.
pub open spec fn event_entry(event: EventModel) -> EntryModel {
    EntryModel {
        timestamp: if event.timestamp > i64::MAX {
            i64::MAX
        } else {
            event.timestamp as i64
        },
        labels: normalized_labels(event_labels(event.fields)),
        line: event.message,
        metadata: event_metadata(event.fields),
    }
}

/// Turns an OTLP event into an entry.
pub fn otlp_entry(event: &OtlpLogEvent) -> (entry: LokiEntry)
    ensures
        entry@ == event_entry(event@),
{
    let ghost fields = event@.fields;
    let mut labels = LabelMap::new();
    let mut metadata = LabelMap::new();
    let mut index: usize = 0;
    proof {
        assert(fields.subrange(0, 0) =~= Pairs::empty());
    }
    while index < event.fields.len()
        invariant
            index <= event.fields@.len(),
            fields == event@.fields,
            labels@ == event_labels(fields.subrange(0, index as int)),
            metadata@ == event_metadata(fields.subrange(0, index as int)),
        decreases event.fields@.len() - index,
    {
        let field = &event.fields[index];
        proof {
            let part = fields.subrange(0, index + 1);
            assert(part.drop_last() =~= fields.subrange(0, index as int));
            assert(part.last() == (field.key@, field.value@));
        }
        if same_text(&field.key, "service.name") || same_text(&field.key, "resource.service.name") {
            let _ = labels.insert("service_name".to_owned(), field.value.clone());
        } else {
            let _ = metadata.insert(normalize_otlp_name(&field.key), field.value.clone());
        }
        index = index + 1;
    }
    proof {
        assert(fields.subrange(0, index as int) =~= fields);
    }
    let timestamp: i64 = if event.timestamp_unix_nanos > i64::MAX as u64 {
        i64::MAX
    } else {
        event.timestamp_unix_nanos as i64
    };
    LokiEntry {
        timestamp_unix_nanos: timestamp,
        labels: normalize_stream_labels(labels),
        line: event.message.clone(),
        structured_metadata: metadata,
    }
}

} // verus!
