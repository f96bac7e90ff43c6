//! Index statistics, volumes and patterns of the entries of a tenant.
use vstd::prelude::*;
use vstd::utf8::encode_utf8;

use crate::api_error::{same_outcome, ApiFault, LokiApiError};
use crate::codec::{same_text, text_is_less, text_less};
use crate::labels::{LabelMap, Pairs};
use crate::loki_query::{
    parse_log_query, parse_query_text, selects_entry, LogSelector, SelectorModel,
};
use crate::loki_read::{
    in_span, line_bytes, matching_entries, query_missing, select_entries, total_line_bytes,
    QueryParams, QueryParamsModel,
};
use crate::loki_time::{
    pattern_step_nanos, query_range_bounds, range_bounds, step_of, time_option, TimeModel, TimeText,
};
use crate::native_query::strings_view;
use crate::record::{entries_view, EntryModel, LokiEntry};
use crate::text_set::{add_labels, insert_labels, maps_view};

verus! {

broadcast use vstd::seq_lib::group_seq_properties;

/// Value of a selection of entries.
#[verifier::ext_equal]
pub struct SelectionModel {
    /// Selector.
    pub selector: SelectorModel,
    /// First timestamp.
    pub start: i64,
    /// Last timestamp.
    pub end: i64,
}

/// Selector and inclusive span of time.
#[derive(Debug)]
pub struct Selection {
    /// Selector.
    pub selector: LogSelector,
    /// First timestamp.
    pub start: i64,
    /// Last timestamp.
    pub end: i64,
}

impl View for Selection {
    type V = SelectionModel;

    open spec fn view(&self) -> SelectionModel {
        SelectionModel { selector: self.selector@, start: self.start, end: self.end }
    }
}

/// Whether a selection holds an entry.
pub open spec fn selection_holds(selection: SelectionModel, entry: EntryModel) -> bool {
    in_span(entry, selection.start, selection.end) && selects_entry(selection.selector, entry)
}

impl Selection {
    /// Whether the selection holds an entry.
    pub fn holds(&self, entry: &LokiEntry) -> (holds: bool)
        requires
            self.selector.well_formed(),
        ensures
            holds == selection_holds(self@, entry@),
    {
        entry.timestamp_unix_nanos >= self.start && entry.timestamp_unix_nanos <= self.end
            && self.selector.matches(entry)
    }
}

/// The selection of a query text and a span.
pub open spec fn selection_of(query: Seq<char>, params: QueryParamsModel, now: i64) -> Result<
    SelectionModel,
    ApiFault,
> {
    match parse_query_text(query) {
        Err(fault) => Err(fault),
        Ok(selector) => match range_bounds(params.range, now) {
            Err(fault) => Err(fault),
            Ok((start, end)) => Ok(SelectionModel { selector, start, end }),
        },
    }
}

/// The query text of parameters; all entries by default.
pub open spec fn query_or_all(params: QueryParamsModel) -> Seq<char> {
    match params.query {
        Some(query) => query,
        None => "{}"@,
    }
}

fn select(query: &str, params: &QueryParams, now: i64) -> (result: Result<Selection, LokiApiError>)
    ensures
        same_outcome(result, selection_of(query@, params@, now)),
        result matches Ok(selection) ==> selection.selector.well_formed(),
{
    let selector = match parse_log_query(query) {
        Ok(selector) => selector,
        Err(error) => return Err(error),
    };
    match query_range_bounds(&params.range, now) {
        Ok((start, end)) => Ok(Selection { selector, start, end }),
        Err(error) => Err(error),
    }
}

/// Plans a request whose query may be missing.
pub fn plan_selection(params: &QueryParams, now: i64) -> (result: Result<Selection, LokiApiError>)
    ensures
        same_outcome(result, selection_of(query_or_all(params@), params@, now)),
        result matches Ok(selection) ==> selection.selector.well_formed(),
{
    match &params.query {
        Some(query) => select(query, params, now),
        None => select("{}", params, now),
    }
}

/// Label sets of entries, in ascending order.
pub open spec fn label_sets(entries: Seq<EntryModel>) -> Seq<Pairs>
    decreases entries.len(),
{
    if entries.len() == 0 {
        Seq::empty()
    } else {
        insert_labels(label_sets(entries.drop_last()), entries.last().labels)
    }
}

/// Number of streams, entries and bytes.
#[derive(Debug, Clone, Copy, PartialEq, Eq)]
pub struct IndexStats {
    /// Distinct label sets; each is one chunk.
    pub streams: usize,
    /// Entries.
    pub entries: usize,
    /// Bytes of their lines.
    pub bytes: u128,
}

/// Statistics of the entries of a selection.
pub fn index_stats(selection: &Selection, entries: &Vec<LokiEntry>) -> (stats: IndexStats)
    requires
        selection.selector.well_formed(),
    ensures
        ({
            let selected = matching_entries(
                entries_view(entries@),
                selection@.selector,
                selection@.start,
                selection@.end,
            );
            &&& stats.streams == label_sets(selected).len()
            &&& stats.entries == selected.len()
            &&& stats.bytes == line_bytes(selected)
        }),
{
    let selected = select_entries(entries, &selection.selector, selection.start, selection.end);
    let ghost models = entries_view(selected@);
    let mut sets: Vec<LabelMap> = Vec::new();
    let mut index: usize = 0;
    proof {
        assert(maps_view(sets@) =~= label_sets(models.subrange(0, 0)));
    }
    while index < selected.len()
        invariant
            index <= selected@.len(),
            models == entries_view(selected@),
            maps_view(sets@) == label_sets(models.subrange(0, index as int)),
        decreases selected@.len() - index,
    {
        proof {
            let part = models.subrange(0, index + 1);
            assert(part.drop_last() =~= models.subrange(0, index as int));
            assert(part.last() == selected@[index as int]@);
        }
        add_labels(&mut sets, &selected[index].labels);
        index = index + 1;
    }
    proof {
        assert(models.subrange(0, index as int) =~= models);
        assert(maps_view(sets@).len() == sets@.len());
        assert(models.len() == selected@.len());
    }
    IndexStats { streams: sets.len(), entries: selected.len(), bytes: total_line_bytes(&selected) }
}

/// The JSON text of a string.
pub uninterp spec fn json_quoted(text: Seq<char>) -> Seq<char>;

/// Writes a string as JSON.
///
/// Calls `serde_json::to_string` on a string, which cannot fail and whose text depends
/// on the string alone.
#[verifier::external_body]
fn quote_json(text: &str) -> (quoted: String)
    ensures
        quoted@ == json_quoted(text@),
{
    serde_json::to_string(text).expect("a string has a JSON text")
}

/// Names and quoted values of labels, with commas between them.
pub open spec fn label_list(labels: Pairs) -> Seq<char>
    decreases labels.len(),
{
    if labels.len() == 0 {
        Seq::empty()
    } else {
        let front = label_list(labels.drop_last());
        let last = labels.last().0 + "="@ + json_quoted(labels.last().1);
        if labels.len() == 1 {
            last
        } else {
            front + ","@ + last
        }
    }
}

/// The text of a label set.
pub open spec fn label_set_text(labels: Pairs) -> Seq<char> {
    "{"@ + label_list(labels) + "}"@
}

/// Writes a label set.
pub fn format_label_set(labels: &LabelMap) -> (text: String)
    ensures
        text@ == label_set_text(labels@),
{
    let total: usize = labels.len();
    let mut list = "".to_owned();
    let mut index: usize = 0;
    proof {
        reveal_strlit("");
        assert(list@ =~= label_list(labels@.subrange(0, 0)));
    }
    while index < total
        invariant
            index <= total == labels@.len(),
            list@ == label_list(labels@.subrange(0, index as int)),
        decreases total - index,
    {
        let ghost before = list@;
        proof {
            let part = labels@.subrange(0, index + 1);
            assert(part.drop_last() =~= labels@.subrange(0, index as int));
            assert(part.last() == labels@[index as int]);
            assert(part.len() == index + 1);
        }
        let last = labels.key_at(index).clone().concat("=").concat(
            &quote_json(labels.value_at(index)),
        );
        if index == 0 {
            list = last;
        } else {
            list = list.concat(",").concat(&last);
        }
        index = index + 1;
    }
    proof {
        assert(labels@.subrange(0, index as int) =~= labels@);
    }
    "{".to_owned().concat(&list).concat("}")
}

/// First name from `from` on that is not below another one.
pub open spec fn volume_place(volumes: Seq<(Seq<char>, nat)>, name: Seq<char>, from: int) -> int
    decreases volumes.len() - from,
{
    if from >= volumes.len() {
        volumes.len() as int
    } else if text_less(volumes[from].0, name) {
        volume_place(volumes, name, from + 1)
    } else {
        from
    }
}

/// Volumes in ascending name order with more bytes for a name.
pub open spec fn add_volume(volumes: Seq<(Seq<char>, nat)>, name: Seq<char>, bytes: nat) -> Seq<
    (Seq<char>, nat),
> {
    let at = volume_place(volumes, name, 0);
    if at < volumes.len() && volumes[at].0 == name {
        volumes.update(at, (name, volumes[at].1 + bytes))
    } else {
        volumes.insert(at, (name, bytes))
    }
}

/// Bytes of entries by their label sets, in ascending order of the sets' texts.
pub open spec fn volumes_of(entries: Seq<EntryModel>) -> Seq<(Seq<char>, nat)>
    decreases entries.len(),
{
    if entries.len() == 0 {
        Seq::empty()
    } else {
        add_volume(
            volumes_of(entries.drop_last()),
            label_set_text(entries.last().labels),
            encode_utf8(entries.last().line).len(),
        )
    }
}

/// Values of volumes.
pub open spec fn volumes_view(volumes: Seq<(String, u128)>) -> Seq<(Seq<char>, nat)> {
    volumes.map_values(|volume: (String, u128)| (volume.0@, volume.1 as nat))
}

spec fn volumes_below(volumes: Seq<(Seq<char>, nat)>, bound: int) -> bool {
    forall|i: int| 0 <= i < volumes.len() ==> (#[trigger] volumes[i]).1 <= bound
}

proof fn lemma_volume_place(volumes: Seq<(Seq<char>, nat)>, name: Seq<char>, from: int)
    requires
        0 <= from <= volumes.len(),
    ensures
        from <= volume_place(volumes, name, from) <= volumes.len(),
    decreases volumes.len() - from,
{
    if from < volumes.len() && text_less(volumes[from].0, name) {
        lemma_volume_place(volumes, name, from + 1);
    }
}

proof fn lemma_add_volume_below(
    volumes: Seq<(Seq<char>, nat)>,
    name: Seq<char>,
    bytes: nat,
    bound: int,
)
    requires
        volumes_below(volumes, bound),
        0 <= bound,
    ensures
        volumes_below(add_volume(volumes, name, bytes), bound + bytes),
{
    lemma_volume_place(volumes, name, 0);
    let at = volume_place(volumes, name, 0);
    let result = add_volume(volumes, name, bytes);
    assert forall|i: int| 0 <= i < result.len() implies (#[trigger] result[i]).1 <= bound + bytes by {
        if at < volumes.len() && volumes[at].0 == name {
            assert(i == at || result[i] == volumes[i]);
            assert(volumes[at].1 <= bound);
        } else if i < at {
            assert(result[i] == volumes[i]);
        } else if i > at {
            assert(result[i] == volumes[i - 1]);
        }
    }
}

fn push_volume(volumes: &mut Vec<(String, u128)>, name: String, bytes: usize)
    requires
        forall|i: int|
            0 <= i < old(volumes)@.len() ==> (#[trigger] old(volumes)@[i]).1 + bytes <= u128::MAX,
    ensures
        volumes_view(final(volumes)@) == add_volume(
            volumes_view(old(volumes)@),
            name@,
            bytes as nat,
        ),
{
    let ghost model = volumes_view(volumes@);
    let ghost raw = volumes@;
    let mut at: usize = 0;
    while at < volumes.len() && text_is_less(&volumes[at].0, &name)
        invariant
            at <= volumes@.len(),
            model == volumes_view(volumes@),
            volume_place(model, name@, 0) == volume_place(model, name@, at as int),
        decreases volumes@.len() - at,
    {
        proof {
            assert(model[at as int] == (volumes@[at as int].0@, volumes@[at as int].1 as nat));
        }
        at = at + 1;
    }
    proof {
        if at < volumes@.len() {
            assert(model[at as int] == (volumes@[at as int].0@, volumes@[at as int].1 as nat));
        }
    }
    if at < volumes.len() && same_text(&volumes[at].0, &name) {
        let total: u128 = volumes[at].1 + bytes as u128;
        volumes.set(at, (name, total));
        proof {
            assert(volumes_view(volumes@) =~= add_volume(model, name@, bytes as nat));
        }
    } else {
        let volume = (name, bytes as u128);
        proof {
            assert(volumes_view(raw.insert(at as int, volume)) =~= model.insert(
                at as int,
                (name@, bytes as nat),
            ));
        }
        volumes.insert(at, volume);
    }
}

/// Bytes of the entries of a selection by their label sets.
pub fn index_volume(selection: &Selection, entries: &Vec<LokiEntry>) -> (volumes: Vec<
    (String, u128),
>)
    requires
        selection.selector.well_formed(),
    ensures
        volumes_view(volumes@) == volumes_of(
            matching_entries(
                entries_view(entries@),
                selection@.selector,
                selection@.start,
                selection@.end,
            ),
        ),
{
    let selected = select_entries(entries, &selection.selector, selection.start, selection.end);
    let ghost models = entries_view(selected@);
    let mut volumes: Vec<(String, u128)> = Vec::new();
    let mut index: usize = 0;
    proof {
        assert(volumes_view(volumes@) =~= volumes_of(models.subrange(0, 0)));
    }
    while index < selected.len()
        invariant
            index <= selected@.len(),
            models == entries_view(selected@),
            volumes_view(volumes@) == volumes_of(models.subrange(0, index as int)),
            volumes_below(volumes_view(volumes@), index * 0xffff_ffff_ffff_ffff),
        decreases selected@.len() - index,
    {
        let length: usize = selected[index].line.as_str().as_bytes().len();
        let ghost before = volumes_view(volumes@);
        proof {
            let part = models.subrange(0, index + 1);
            assert(part.drop_last() =~= models.subrange(0, index as int));
            assert(part.last() == selected@[index as int]@);
            assert forall|i: int| 0 <= i < volumes@.len() implies (#[trigger] volumes@[i]).1
                + length <= u128::MAX by {
                assert(before[i] == (volumes@[i].0@, volumes@[i].1 as nat));
            }
            lemma_add_volume_below(
                before,
                label_set_text(selected@[index as int].labels@),
                length as nat,
                index * 0xffff_ffff_ffff_ffff,
            );
        }
        push_volume(&mut volumes, format_label_set(&selected[index].labels), length);
        index = index + 1;
    }
    proof {
        assert(models.subrange(0, index as int) =~= models);
    }
    volumes
}

/// Start in seconds of the step of a span that holds a timestamp.
pub open spec fn bucket_of(start: i64, step: i64, timestamp: i64) -> int {
    let distance = if timestamp - start > i64::MAX {
        i64::MAX as int
    } else {
        timestamp - start
    };
    (start + distance / (step as int) * step) / 1_000_000_000
}

/// Start in seconds of the step of a span that holds a timestamp.
fn pattern_bucket(start: i64, step: i64, timestamp: i64) -> (bucket: i64)
    requires
        step > 0,
        start <= timestamp,
    ensures
        bucket == bucket_of(start, step, timestamp),
{
    let exact: i128 = timestamp as i128 - start as i128;
    let distance: i64 = if exact > i64::MAX as i128 {
        i64::MAX
    } else {
        exact as i64
    };
    let part: u64 = distance as u64 % step as u64;
    proof {
        let d = distance as int;
        let s = step as int;
        assert(d == d / s * s + d % s && 0 <= d % s <= d) by (nonlinear_arith)
            requires
                d >= 0,
                s > 0,
        ;
    }
    let whole: i64 = distance - part as i64;
    let first: i64 = start + whole;
    if first >= 0 {
        (first as u64 / 1_000_000_000) as i64
    } else {
        let below: u64 = (-(first as i128)) as u64;
        let up: u128 = (below as u128 + 999_999_999) / 1_000_000_000;
        -(up as i64)
    }
}

/// First sample from `from` on whose time is not below another one.
pub open spec fn sample_place(samples: Seq<(i64, u64)>, time: int, from: int) -> int
    decreases samples.len() - from,
{
    if from >= samples.len() {
        samples.len() as int
    } else if samples[from].0 < time {
        sample_place(samples, time, from + 1)
    } else {
        from
    }
}

/// Samples in ascending time order with one more entry at a time; a count stays at the
/// largest number.
pub open spec fn add_sample(samples: Seq<(i64, u64)>, time: i64) -> Seq<(i64, u64)> {
    let at = sample_place(samples, time as int, 0);
    if at < samples.len() && samples[at].0 == time {
        samples.update(
            at,
            (
                time,
                if samples[at].1 < u64::MAX {
                    (samples[at].1 + 1) as u64
                } else {
                    u64::MAX
                },
            ),
        )
    } else {
        samples.insert(at, (time, 1))
    }
}

fn push_sample(samples: &mut Vec<(i64, u64)>, time: i64)
    ensures
        final(samples)@ == add_sample(old(samples)@, time),
{
    let mut at: usize = 0;
    while at < samples.len() && samples[at].0 < time
        invariant
            at <= samples@.len(),
            samples@ == old(samples)@,
            sample_place(samples@, time as int, 0) == sample_place(
                samples@,
                time as int,
                at as int,
            ),
        decreases samples@.len() - at,
    {
        at = at + 1;
    }
    if at < samples.len() && samples[at].0 == time {
        let count: u64 = samples[at].1;
        let more: u64 = if count < u64::MAX {
            count + 1
        } else {
            u64::MAX
        };
        samples.set(at, (time, more));
    } else {
        samples.insert(at, (time, 1));
    }
}

/// Value of a pattern with its samples.
#[verifier::ext_equal]
pub struct PatternModel {
    /// Pattern.
    pub pattern: Seq<char>,
    /// Times in seconds and counts.
    pub samples: Seq<(i64, u64)>,
}

/// Pattern with its samples.
#[derive(Debug, PartialEq, Eq)]
pub struct PatternSamples {
    /// Pattern.
    pub pattern: String,
    /// Times in seconds and counts.
    pub samples: Vec<(i64, u64)>,
}

impl View for PatternSamples {
    type V = PatternModel;

    open spec fn view(&self) -> PatternModel {
        PatternModel { pattern: self.pattern@, samples: self.samples@ }
    }
}

/// Values of patterns.
pub open spec fn patterns_view(patterns: Seq<PatternSamples>) -> Seq<PatternModel> {
    patterns.map_values(|pattern: PatternSamples| pattern@)
}

/// First pattern from `from` on that is not below another one.
pub open spec fn pattern_place(patterns: Seq<PatternModel>, text: Seq<char>, from: int) -> int
    decreases patterns.len() - from,
{
    if from >= patterns.len() {
        patterns.len() as int
    } else if text_less(patterns[from].pattern, text) {
        pattern_place(patterns, text, from + 1)
    } else {
        from
    }
}

/// Patterns in ascending order with one more entry of a pattern at a time.
pub open spec fn add_pattern(patterns: Seq<PatternModel>, text: Seq<char>, time: i64) -> Seq<
    PatternModel,
> {
    let at = pattern_place(patterns, text, 0);
    if at < patterns.len() && patterns[at].pattern == text {
        patterns.update(
            at,
            PatternModel { pattern: text, samples: add_sample(patterns[at].samples, time) },
        )
    } else {
        patterns.insert(at, PatternModel { pattern: text, samples: seq![(time, 1u64)] })
    }
}

fn push_pattern(patterns: &mut Vec<PatternSamples>, text: &String, time: i64)
    ensures
        patterns_view(final(patterns)@) == add_pattern(
            patterns_view(old(patterns)@),
            text@,
            time,
        ),
{
    let ghost model = patterns_view(patterns@);
    let ghost raw = patterns@;
    let mut at: usize = 0;
    while at < patterns.len() && text_is_less(&patterns[at].pattern, text)
        invariant
            at <= patterns@.len(),
            model == patterns_view(patterns@),
            pattern_place(model, text@, 0) == pattern_place(model, text@, at as int),
        decreases patterns@.len() - at,
    {
        proof {
            assert(model[at as int] == patterns@[at as int]@);
        }
        at = at + 1;
    }
    proof {
        if at < patterns@.len() {
            assert(model[at as int] == patterns@[at as int]@);
        }
    }
    if at < patterns.len() && same_text(&patterns[at].pattern, text) {
        push_sample(&mut patterns[at].samples, time);
        proof {
            assert(patterns_view(patterns@) =~= add_pattern(model, text@, time));
        }
    } else {
        let mut samples: Vec<(i64, u64)> = Vec::new();
        samples.push((time, 1));
        let pattern = PatternSamples { pattern: text.clone(), samples };
        proof {
            assert(samples@ =~= seq![(time, 1u64)]);
            assert(patterns_view(raw.insert(at as int, pattern)) =~= model.insert(
                at as int,
                pattern@,
            ));
        }
        patterns.insert(at, pattern);
    }
}

/// Patterns found and entries counted.
#[verifier::ext_equal]
pub struct PatternState {
    /// Patterns.
    pub patterns: Seq<PatternModel>,
    /// Entries counted.
    pub matched: nat,
}

/// Whether a limit that is not zero is reached.
pub open spec fn limit_reached(count: nat, limit: nat) -> bool {
    limit > 0 && count >= limit
}

/// Patterns of the first `count` entries of a selection, up to the limit of counted
/// entries.
pub open spec fn pattern_state(
    selection: SelectionModel,
    step: i64,
    limit: nat,
    entries: Seq<EntryModel>,
    texts: Seq<Seq<char>>,
    count: int,
) -> PatternState
    decreases count,
{
    if count <= 0 {
        PatternState { patterns: Seq::empty(), matched: 0 }
    } else {
        let front = pattern_state(selection, step, limit, entries, texts, count - 1);
        let entry = entries[count - 1];
        if limit_reached(front.matched, limit) || !selection_holds(selection, entry) {
            front
        } else {
            PatternState {
                patterns: add_pattern(
                    front.patterns,
                    texts[count - 1],
                    bucket_of(selection.start, step, entry.timestamp) as i64,
                ),
                matched: front.matched + 1,
            }
        }
    }
}

proof fn lemma_pattern_limit(
    selection: SelectionModel,
    step: i64,
    limit: nat,
    entries: Seq<EntryModel>,
    texts: Seq<Seq<char>>,
    from: int,
    to: int,
)
    requires
        0 <= from <= to,
        limit_reached(pattern_state(selection, step, limit, entries, texts, from).matched, limit),
    ensures
        pattern_state(selection, step, limit, entries, texts, to) == pattern_state(
            selection,
            step,
            limit,
            entries,
            texts,
            from,
        ),
    decreases to - from,
{
    if from < to {
        lemma_pattern_limit(selection, step, limit, entries, texts, from, to - 1);
    }
}

/// Patterns of the entries of a selection, given the pattern of each entry's line.
pub fn patterns(
    selection: &Selection,
    step: i64,
    limit: usize,
    entries: &Vec<LokiEntry>,
    texts: &Vec<String>,
) -> (found: Vec<PatternSamples>)
    requires
        selection.selector.well_formed(),
        step > 0,
        texts@.len() == entries@.len(),
    ensures
        patterns_view(found@) == pattern_state(
            selection@,
            step,
            limit as nat,
            entries_view(entries@),
            strings_view(texts@),
            entries@.len() as int,
        ).patterns,
{
    let ghost models = entries_view(entries@);
    let ghost names = strings_view(texts@);
    let ghost chosen = selection@;
    let mut found: Vec<PatternSamples> = Vec::new();
    let mut matched: usize = 0;
    let mut index: usize = 0;
    proof {
        assert(patterns_view(found@) =~= Seq::<PatternModel>::empty());
    }
    while index < entries.len()
        invariant
            selection.selector.well_formed(),
            step > 0,
            texts@.len() == entries@.len(),
            index <= entries@.len(),
            matched <= index,
            models == entries_view(entries@),
            names == strings_view(texts@),
            chosen == selection@,
            !limit_reached(matched as nat, limit as nat),
            pattern_state(chosen, step, limit as nat, models, names, index as int)
                == (PatternState { patterns: patterns_view(found@), matched: matched as nat }),
        decreases entries@.len() - index,
    {
        proof {
            assert(models[index as int] == entries@[index as int]@);
            assert(names[index as int] == texts@[index as int]@);
        }
        if selection.holds(&entries[index]) {
            let time: i64 = pattern_bucket(
                selection.start,
                step,
                entries[index].timestamp_unix_nanos,
            );
            push_pattern(&mut found, &texts[index], time);
            matched = matched + 1;
            if matched == limit {
                proof {
                    assert(pattern_state(
                        chosen,
                        step,
                        limit as nat,
                        models,
                        names,
                        index + 1,
                    ).matched == matched);
                    lemma_pattern_limit(
                        chosen,
                        step,
                        limit as nat,
                        models,
                        names,
                        index + 1,
                        entries@.len() as int,
                    );
                }
                return found;
            }
        }
        index = index + 1;
    }
    found
}

/// The plan of a request for patterns: its selection and its step.
pub open spec fn patterns_plan_of(
    params: QueryParamsModel,
    step: Option<TimeModel>,
    now: i64,
) -> Result<(SelectionModel, i64), ApiFault> {
    match params.query {
        None => Err(query_missing()),
        Some(query) => match selection_of(query, params, now) {
            Err(fault) => Err(fault),
            Ok(selection) => match step_of(step) {
                Err(fault) => Err(fault),
                Ok(step) => Ok((selection, step)),
            },
        },
    }
}

/// Plans a request for patterns.
pub fn plan_patterns(params: &QueryParams, step: &Option<TimeText>, now: i64) -> (result: Result<
    (Selection, i64),
    LokiApiError,
>)
    ensures
        match (result, patterns_plan_of(params@, time_option(*step), now)) {
            (Ok((selection, step)), Ok((model, nanos))) => {
                &&& selection@ == model
                &&& step == nanos
                &&& step > 0
                &&& selection.selector.well_formed()
            },
            (Err(error), Err(fault)) => error@ == fault,
            _ => false,
        },
{
    let query = match &params.query {
        Some(query) => query,
        None => return Err(LokiApiError::bad_request("query parameter is required")),
    };
    let selection = match select(query, params, now) {
        Ok(selection) => selection,
        Err(error) => return Err(error),
    };
    match pattern_step_nanos(step) {
        Ok(step) => Ok((selection, step)),
        Err(error) => Err(error),
    }
}

} // verus!
