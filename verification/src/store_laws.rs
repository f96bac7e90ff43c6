//! Laws of what a store of several stripes answers.
use vstd::multiset::Multiset;
use vstd::prelude::*;

use crate::durable_query::db_page;
use crate::fanout_laws::{
    all_alike, hot_selected, lemma_all_bag, lemma_all_frames, lemma_frame_records_concat,
    lemma_frames_bag, lemma_page_alike, lemma_query_frames, selected_by_all,
};
use crate::first_laws::{
    first_items_suffice, lemma_bag_adds, lemma_bag_has, lemma_same_size, lists_first, sorting_lists_first,
};
use crate::frame_install::{frame_fault, InstalledFrame};
use crate::frame_laws::{
    all_covered, append_documents, frame_documents, hot_documents, installed_documents,
    lemma_answer_is_page, lemma_document, lemma_selected_len, selected, visible, Document,
};
use crate::frame_query::{
    appends_found, candidates_for, frame_found, frame_keys, frame_records, frames_found,
    frames_in_order, frames_merge_exactly, lemma_candidates, lemma_picked, picked, stripe_answer, FrameModel,
};
use crate::log_predicate::PredicateModel;
use crate::log_query::{LogQueryModel, QuerySort, RecordModel};
use crate::log_service::{
    all_frames, all_matches, append_frames, hot_answers, partitions_answer, query_frames, same_but_partition,
    share_page, stripe_matches,
};
use crate::log_stripe::{IndexedFrameAppend, LogStripe};
use crate::order::{arranged, order_of, sorting_permutes};
use crate::partition_index::lemma_rising_len;
use crate::posting::QueryOrder;
use crate::record::{ShardId, TopicPartition};
use crate::stripe_query::{page, query_answer, rank, ranks, shard_keys, stripe_answers};

verus! {

broadcast use vstd::seq_lib::group_seq_properties;

/// What queries find in a stripe before anything is cut.
pub open spec fn found_in(stripe: LogStripe, queries: Seq<LogQueryModel>) -> Seq<RecordModel> {
    hot_selected(stripe, queries) + frame_records(all_frames(stripe, queries))
}

/// What queries find in stripes before anything is cut.
pub open spec fn found_in_all(stripes: Seq<LogStripe>, queries: Seq<LogQueryModel>) -> Seq<
    RecordModel,
>
    decreases stripes.len(),
{
    if stripes.len() == 0 {
        Seq::empty()
    } else {
        found_in_all(stripes.drop_last(), queries) + found_in(stripes.last(), queries)
    }
}

/// Place of a record in the answers of a query.
pub open spec fn place_by(query: LogQueryModel) -> spec_fn(RecordModel) -> u128 {
    |record: RecordModel| rank(query, record)
}

proof fn lemma_page_first(query: LogQueryModel, records: Seq<RecordModel>, limit: usize)
    requires
        records.len() <= usize::MAX,
    ensures
        lists_first(
            place_by(query),
            records.to_multiset(),
            limit as nat,
            page(query, records, Some(limit)),
        ),
{
    sorting_lists_first(place_by(query), records, ranks(query, records), limit as nat);
}

proof fn lemma_hot_first(
    stripe: LogStripe,
    base: LogQueryModel,
    queries: Seq<LogQueryModel>,
    further: Multiset<RecordModel>,
    limit: usize,
    answer: Seq<RecordModel>,
)
    requires
        stripe.well_formed(),
        base.limit == Some(limit),
        all_alike(base, queries),
        lists_first(
            place_by(base),
            hot_answers(stripe, queries).to_multiset().add(further),
            limit as nat,
            answer,
        ),
    ensures
        lists_first(
            place_by(base),
            hot_selected(stripe, queries).to_multiset().add(further),
            limit as nat,
            answer,
        ),
    decreases queries.len(),
{
    if queries.len() > 0 {
        let front = queries.drop_last();
        let query = queries.last();
        let model = stripe.model(query.partition);
        let found = selected(hot_documents(model), query);
        let kept = page(base, found, Some(limit));
        assert(queries[queries.len() - 1] == query);
        assert(all_alike(base, front)) by {
            assert forall|i: int| 0 <= i < front.len() implies same_but_partition(
                base,
                #[trigger] front[i],
            ) by {
                assert(front[i] == queries[i]);
            }
        }
        crate::log_stripe::lemma_partition_place(stripe.partitions@, query.partition, 0);
        lemma_answer_is_page(model, query);
        lemma_page_alike(base, query, found, Some(limit));
        lemma_bag_adds(hot_answers(stripe, front), kept);
        lemma_bag_adds(hot_selected(stripe, front), found);
        let early = hot_answers(stripe, front).to_multiset();
        let whole = hot_selected(stripe, front).to_multiset();
        let part = kept.to_multiset();
        let bag = found.to_multiset();
        assert(early.add(part).add(further) =~= early.add(part.add(further)));
        lemma_hot_first(stripe, base, front, part.add(further), limit, answer);
        assert(whole.add(part.add(further)) =~= part.add(whole.add(further)));
        lemma_page_first(base, found, limit);
        first_items_suffice(
            place_by(base),
            bag,
            whole.add(further),
            limit as nat,
            kept,
            answer,
        );
        assert(bag.add(whole.add(further)) =~= whole.add(bag).add(further));
    }
}

proof fn lemma_hot_len(stripe: LogStripe, queries: Seq<LogQueryModel>)
    requires
        stripe.well_formed(),
    ensures
        hot_answers(stripe, queries).len() <= hot_selected(stripe, queries).len(),
    decreases queries.len(),
{
    if queries.len() > 0 {
        let query = queries.last();
        let model = stripe.model(query.partition);
        let found = selected(hot_documents(model), query);
        lemma_hot_len(stripe, queries.drop_last());
        crate::log_stripe::lemma_partition_place(stripe.partitions@, query.partition, 0);
        lemma_answer_is_page(model, query);
        sorting_permutes(found, ranks(query, found));
    }
}

proof fn lemma_stripe_first(stripe: LogStripe, queries: Seq<LogQueryModel>)
    requires
        stripe.well_formed(),
        share_page(queries),
        found_in(stripe, queries).len() <= usize::MAX,
        all_frames(stripe, queries).len() <= usize::MAX,
    ensures
        lists_first(
            place_by(queries[0]),
            found_in(stripe, queries).to_multiset(),
            queries[0].limit->0 as nat,
            stripe_matches(stripe, queries),
        ),
        stripe_matches(stripe, queries).len() <= found_in(stripe, queries).len(),
{
    let base = queries[0];
    let limit = base.limit->0;
    let frames = all_frames(stripe, queries);
    let listed = frames_in_order(base, frames);
    let hot = hot_answers(stripe, queries);
    let cold = frame_records(frames);
    let further = frame_records(listed);
    sorting_permutes(frames, frame_keys(base, frames));
    lemma_frames_bag(listed, frames);
    vstd::seq_lib::to_multiset_len(further);
    vstd::seq_lib::to_multiset_len(cold);
    lemma_hot_len(stripe, queries);
    frames_merge_exactly(base, hot, listed, limit);
    lemma_page_first(base, hot + further, limit);
    lemma_bag_adds(hot, further);
    lemma_hot_first(
        stripe,
        base,
        queries,
        further.to_multiset(),
        limit,
        stripe_matches(stripe, queries),
    );
    lemma_bag_adds(hot_selected(stripe, queries), cold);
    vstd::seq_lib::to_multiset_len(found_in(stripe, queries));
}

proof fn lemma_stripes_first(
    stripes: Seq<LogStripe>,
    queries: Seq<LogQueryModel>,
    further: Multiset<RecordModel>,
    answer: Seq<RecordModel>,
)
    requires
        forall|i: int| 0 <= i < stripes.len() ==> (#[trigger] stripes[i]).well_formed(),
        share_page(queries),
        found_in_all(stripes, queries).len() <= usize::MAX,
        forall|i: int|
            0 <= i < stripes.len() ==> all_frames(#[trigger] stripes[i], queries).len()
                <= usize::MAX,
        lists_first(
            place_by(queries[0]),
            all_matches(stripes, queries).to_multiset().add(further),
            queries[0].limit->0 as nat,
            answer,
        ),
    ensures
        lists_first(
            place_by(queries[0]),
            found_in_all(stripes, queries).to_multiset().add(further),
            queries[0].limit->0 as nat,
            answer,
        ),
    decreases stripes.len(),
{
    if stripes.len() > 0 {
        let front = stripes.drop_last();
        let last = stripes.last();
        assert(stripes[stripes.len() - 1] == last);
        assert forall|i: int| 0 <= i < front.len() implies (#[trigger] front[i]).well_formed()
            && all_frames(front[i], queries).len() <= usize::MAX by {
            assert(front[i] == stripes[i]);
        }
        lemma_stripe_first(last, queries);
        let early = all_matches(front, queries).to_multiset();
        let whole = found_in_all(front, queries).to_multiset();
        let kept = stripe_matches(last, queries);
        let found = found_in(last, queries);
        let part = kept.to_multiset();
        let bag = found.to_multiset();
        lemma_bag_adds(all_matches(front, queries), kept);
        lemma_bag_adds(found_in_all(front, queries), found);
        assert(early.add(part).add(further) =~= early.add(part.add(further)));
        lemma_stripes_first(front, queries, part.add(further), answer);
        assert(whole.add(part.add(further)) =~= part.add(whole.add(further)));
        first_items_suffice(
            place_by(queries[0]),
            bag,
            whole.add(further),
            queries[0].limit->0 as nat,
            kept,
            answer,
        );
        assert(bag.add(whole.add(further)) =~= whole.add(bag).add(further));
    }
}

proof fn lemma_matches_len(stripes: Seq<LogStripe>, queries: Seq<LogQueryModel>)
    requires
        forall|i: int| 0 <= i < stripes.len() ==> (#[trigger] stripes[i]).well_formed(),
        share_page(queries),
        found_in_all(stripes, queries).len() <= usize::MAX,
        forall|i: int|
            0 <= i < stripes.len() ==> all_frames(#[trigger] stripes[i], queries).len()
                <= usize::MAX,
    ensures
        all_matches(stripes, queries).len() <= found_in_all(stripes, queries).len(),
    decreases stripes.len(),
{
    if stripes.len() > 0 {
        let front = stripes.drop_last();
        assert(stripes[stripes.len() - 1] == stripes.last());
        assert forall|i: int| 0 <= i < front.len() implies (#[trigger] front[i]).well_formed()
            && all_frames(front[i], queries).len() <= usize::MAX by {
            assert(front[i] == stripes[i]);
        }
        lemma_matches_len(front, queries);
        lemma_stripe_first(stripes.last(), queries);
    }
}

/// Queries of several partitions that share a page are answered over all stripes with the
/// first of everything they find, in their order and up to their limit; what is left out
/// has no place before what is given.
pub proof fn stores_answer_first(stripes: Seq<LogStripe>, queries: Seq<LogQueryModel>)
    requires
        forall|i: int| 0 <= i < stripes.len() ==> (#[trigger] stripes[i]).well_formed(),
        share_page(queries),
        found_in_all(stripes, queries).len() <= usize::MAX,
        forall|i: int|
            0 <= i < stripes.len() ==> all_frames(#[trigger] stripes[i], queries).len()
                <= usize::MAX,
    ensures
        lists_first(
            place_by(queries[0]),
            found_in_all(stripes, queries).to_multiset(),
            queries[0].limit->0 as nat,
            partitions_answer(stripes, queries),
        ),
{
    let records = all_matches(stripes, queries);
    let none = Multiset::<RecordModel>::empty();
    let answer = partitions_answer(stripes, queries);
    lemma_matches_len(stripes, queries);
    sorting_permutes(records, shard_keys(records));
    lemma_page_first(
        queries[0],
        arranged(records, order_of(shard_keys(records))),
        queries[0].limit->0,
    );
    assert(records.to_multiset().add(none) =~= records.to_multiset());
    lemma_stripes_first(stripes, queries, none, answer);
    assert(found_in_all(stripes, queries).to_multiset().add(none) =~= found_in_all(
        stripes,
        queries,
    ).to_multiset());
}

/// Whether a query asks for a document: a record of its partition, in its half-open ranges
/// of offsets and times and behind its cursor, that has every term, every field and every
/// field name that the query wants.
pub open spec fn asks_for(query: LogQueryModel, document: Document) -> bool {
    let record = document.0;
    let offset = record.reference.offset.0;
    &&& record.reference.topic_partition == query.partition
    &&& (query.start_offset matches Some(start) ==> start.0 <= offset)
    &&& (query.end_offset matches Some(end) ==> offset < end.0)
    &&& (query.start_time matches Some(start) ==> start <= record.timestamp)
    &&& (query.end_time matches Some(end) ==> record.timestamp < end)
    &&& (query.after matches Some(cursor) ==> match query.order {
        QueryOrder::OldestFirst => earlier_place(
            query.sort,
            (cursor.timestamp_unix_nanos, cursor.offset.0),
            (record.timestamp, offset),
        ),
        QueryOrder::NewestFirst => earlier_place(
            query.sort,
            (record.timestamp, offset),
            (cursor.timestamp_unix_nanos, cursor.offset.0),
        ),
    })
    &&& forall|term: Seq<char>| #[trigger]
        query.terms.contains(term) ==> document.1.contains(term)
    &&& forall|field: (Seq<char>, Seq<char>)| #[trigger]
        query.fields.contains(field) ==> record.fields.contains(field)
    &&& forall|name: Seq<char>| #[trigger]
        query.predicates.contains(PredicateModel::FieldExists(name)) ==> exists|value: Seq<char>| #[trigger]
            record.fields.contains((name, value))
}

/// Whether a place comes before another one: by time and then by offset, or by offset alone.
pub open spec fn earlier_place(sort: QuerySort, left: (u64, u64), right: (u64, u64)) -> bool {
    match sort {
        QuerySort::Offset => left.1 < right.1,
        QuerySort::Timestamp => left.0 < right.0 || left.0 == right.0 && left.1 < right.1,
    }
}

/// A query selects the documents that it asks for.
pub proof fn queries_select_what_they_ask_for(query: LogQueryModel, document: Document)
    ensures
        query.selects(document.0, document.1) == asks_for(query, document),
{
    let record = document.0;
    let terms = document.1;
    if query.selects(record, terms) {
        assert forall|term: Seq<char>| #[trigger] query.terms.contains(term) implies terms.contains(
            term,
        ) by {
            let i = choose|i: int| 0 <= i < query.terms.len() && query.terms[i] == term;
            assert(terms.contains(query.terms[i]));
        }
        assert forall|field: (Seq<char>, Seq<char>)| #[trigger]
            query.fields.contains(field) implies record.fields.contains(field) by {
            let i = choose|i: int| 0 <= i < query.fields.len() && query.fields[i] == field;
            assert(record.fields.contains(query.fields[i]));
        }
        assert forall|name: Seq<char>| #[trigger]
            query.predicates.contains(PredicateModel::FieldExists(name)) implies exists|
            value: Seq<char>,
        | #[trigger] record.fields.contains((name, value)) by {
            let wanted = PredicateModel::FieldExists(name);
            let i = choose|i: int| 0 <= i < query.predicates.len() && query.predicates[i] == wanted;
            assert(query.predicates[i].holds(record.fields));
            let k = choose|k: int|
                0 <= k < record.fields.len() && #[trigger] record.fields[k].0 == name;
            assert(record.fields[k] == (name, record.fields[k].1));
            assert(record.fields.contains((name, record.fields[k].1)));
        }
    }
    if asks_for(query, document) {
        assert forall|i: int| 0 <= i < query.terms.len() implies terms.contains(
            #[trigger] query.terms[i],
        ) by {
            assert(query.terms.contains(query.terms[i]));
        }
        assert forall|i: int| 0 <= i < query.fields.len() implies record.fields.contains(
            #[trigger] query.fields[i],
        ) by {
            assert(query.fields.contains(query.fields[i]));
        }
        assert forall|i: int| 0 <= i < query.predicates.len() implies (
        #[trigger] query.predicates[i]).holds(record.fields) by {
            match query.predicates[i] {
                PredicateModel::FieldExists(name) => {
                    assert(query.predicates.contains(PredicateModel::FieldExists(name)));
                    let value = choose|value: Seq<char>| #[trigger]
                        record.fields.contains((name, value));
                    let k = choose|k: int|
                        0 <= k < record.fields.len() && record.fields[k] == (name, value);
                    assert(record.fields[k].0 == name);
                },
            }
        }
    }
}

/// Whether a query asks for a record of a stripe.
pub open spec fn gives(stripe: LogStripe, query: LogQueryModel, record: RecordModel) -> bool {
    exists|k: int|
        0 <= k < visible(stripe, query.partition).len() && (#[trigger] visible(
            stripe,
            query.partition,
        )[k]).0 == record && asks_for(query, visible(stripe, query.partition)[k])
}

/// Number of documents that a query asks for.
pub open spec fn asked_count(documents: Seq<Document>, query: LogQueryModel) -> nat
    decreases documents.len(),
{
    if documents.len() == 0 {
        0
    } else if asks_for(query, documents.last()) {
        asked_count(documents.drop_last(), query) + 1
    } else {
        asked_count(documents.drop_last(), query)
    }
}

pub proof fn lemma_selected_is_asked(documents: Seq<Document>, query: LogQueryModel)
    ensures
        selected(documents, query).len() == asked_count(documents, query),
        forall|record: RecordModel| #[trigger]
            selected(documents, query).contains(record) ==> exists|k: int|
                0 <= k < documents.len() && (#[trigger] documents[k]).0 == record && asks_for(
                    query,
                    documents[k],
                ),
        forall|k: int|
            0 <= k < documents.len() && asks_for(query, #[trigger] documents[k]) ==> selected(
                documents,
                query,
            ).contains(documents[k].0),
    decreases documents.len(),
{
    if documents.len() > 0 {
        let front = documents.drop_last();
        let last = documents.last();
        let all = selected(documents, query);
        lemma_selected_is_asked(front, query);
        queries_select_what_they_ask_for(query, last);
        assert(documents[documents.len() - 1] == last);
        assert forall|record: RecordModel| #[trigger] all.contains(record) implies exists|k: int|
            0 <= k < documents.len() && (#[trigger] documents[k]).0 == record && asks_for(
                query,
                documents[k],
            ) by {
            if selected(front, query).contains(record) {
                let k = choose|k: int|
                    0 <= k < front.len() && (#[trigger] front[k]).0 == record && asks_for(
                        query,
                        front[k],
                    );
                assert(documents[k] == front[k]);
            } else {
                assert(record == last.0);
                assert(documents[documents.len() - 1].0 == record);
            }
        }
        assert forall|k: int|
            0 <= k < documents.len() && asks_for(query, #[trigger] documents[k]) implies all.contains(
            documents[k].0,
        ) by {
            if k < front.len() {
                assert(front[k] == documents[k]);
                let i = choose|i: int|
                    0 <= i < selected(front, query).len() && selected(front, query)[i]
                        == documents[k].0;
                assert(all[i] == documents[k].0);
            } else {
                assert(all.last() == last.0);
                assert(all[all.len() - 1] == last.0);
            }
        }
    }
}

proof fn lemma_frame_is_asked(
    shard: ShardId,
    append: IndexedFrameAppend,
    frame: InstalledFrame,
    query: LogQueryModel,
    record: RecordModel,
)
    requires
        append.well_formed(),
        frame_fault(frame, append.record_count) is None,
        frame_found(shard, append, frame, query).contains(record),
    ensures
        exists|k: int|
            0 <= k < frame_documents(shard, append, frame).len() && (#[trigger] frame_documents(
                shard,
                append,
                frame,
            )[k]).0 == record && asks_for(query, frame_documents(shard, append, frame)[k]),
{
    let candidates = candidates_for(frame, query);
    let found = picked(shard, append, frame, query, candidates, candidates.len() as int);
    lemma_candidates(frame, query);
    lemma_picked(shard, append, frame, query, candidates, candidates.len() as int);
    assert(candidates.subrange(0, candidates.len() as int) =~= candidates);
    let records = frame_found(shard, append, frame, query);
    let i = choose|i: int| 0 <= i < records.len() && records[i] == record;
    let ordinal = found[i];
    assert(found.contains(ordinal));
    assert(candidates.contains(ordinal));
    let document = frame_documents(shard, append, frame)[ordinal as int];
    queries_select_what_they_ask_for(query, document);
    assert(document.0 == record);
}

proof fn lemma_frames_are_asked(
    shard: ShardId,
    append: IndexedFrameAppend,
    query: LogQueryModel,
    count: int,
    record: RecordModel,
)
    requires
        append.well_formed(),
        0 <= count <= append.frames@.len(),
        frames_found(shard, append, query, count).contains(record),
    ensures
        exists|k: int|
            0 <= k < append_documents(shard, append, count).len() && (#[trigger] append_documents(
                shard,
                append,
                count,
            )[k]).0 == record && asks_for(query, append_documents(shard, append, count)[k]),
    decreases count,
{
    if count > 0 {
        let frame = append.frames@[count - 1];
        let front = append_documents(shard, append, count - 1);
        let all = append_documents(shard, append, count);
        let more = frame_documents(shard, append, frame);
        if frames_found(shard, append, query, count - 1).contains(record) {
            lemma_frames_are_asked(shard, append, query, count - 1, record);
            let k = choose|k: int|
                0 <= k < front.len() && (#[trigger] front[k]).0 == record && asks_for(
                    query,
                    front[k],
                );
            assert(all[k] == front[k]);
        } else {
            assert(frame_found(shard, append, frame, query).contains(record));
            lemma_frame_is_asked(shard, append, frame, query, record);
            let k = choose|k: int|
                0 <= k < more.len() && (#[trigger] more[k]).0 == record && asks_for(query, more[k]);
            assert(all[front.len() + k] == more[k]);
        }
    }
}

proof fn lemma_appends_are_asked(
    shard: ShardId,
    appends: Seq<IndexedFrameAppend>,
    query: LogQueryModel,
    record: RecordModel,
)
    requires
        forall|i: int| 0 <= i < appends.len() ==> (#[trigger] appends[i]).well_formed(),
        appends_found(shard, appends, query).contains(record),
    ensures
        exists|k: int|
            0 <= k < installed_documents(shard, appends, query.partition).len() && (
            #[trigger] installed_documents(shard, appends, query.partition)[k]).0 == record
                && asks_for(query, installed_documents(shard, appends, query.partition)[k]),
    decreases appends.len(),
{
    if appends.len() > 0 {
        let early = appends.drop_last();
        let last = appends.last();
        let total = last.frames@.len() as int;
        let front = installed_documents(shard, early, query.partition);
        let all = installed_documents(shard, appends, query.partition);
        assert(appends[appends.len() - 1] == last);
        assert forall|i: int| 0 <= i < early.len() implies (#[trigger] early[i]).well_formed() by {
            assert(early[i] == appends[i]);
        }
        if appends_found(shard, early, query).contains(record) {
            lemma_appends_are_asked(shard, early, query, record);
            let k = choose|k: int|
                0 <= k < front.len() && (#[trigger] front[k]).0 == record && asks_for(
                    query,
                    front[k],
                );
            assert(all[k] == front[k]);
        } else {
            assert(frames_found(shard, last, query, total).contains(record));
            lemma_frames_are_asked(shard, last, query, total, record);
            let more = append_documents(shard, last, total);
            let k = choose|k: int|
                0 <= k < more.len() && (#[trigger] more[k]).0 == record && asks_for(query, more[k]);
            assert(all[front.len() + k] == more[k]);
        }
    }
}

proof fn lemma_found_is_asked(
    stripe: LogStripe,
    queries: Seq<LogQueryModel>,
    record: RecordModel,
)
    requires
        stripe.well_formed(),
        hot_selected(stripe, queries).contains(record) || frame_records(
            all_frames(stripe, queries),
        ).contains(record),
    ensures
        exists|i: int| 0 <= i < queries.len() && gives(stripe, #[trigger] queries[i], record),
    decreases queries.len(),
{
    if queries.len() > 0 {
        let front = queries.drop_last();
        let query = queries.last();
        let hot = hot_documents(stripe.model(query.partition));
        let cold = installed_documents(stripe.stream_shard_id, stripe.appends@, query.partition);
        let all = visible(stripe, query.partition);
        let frames = query_frames(stripe.stream_shard_id, stripe.appends@, query);
        lemma_frame_records_concat(all_frames(stripe, front), frames);
        lemma_query_frames(stripe.stream_shard_id, stripe.appends@, query);
        if hot_selected(stripe, front).contains(record) || frame_records(
            all_frames(stripe, front),
        ).contains(record) {
            lemma_found_is_asked(stripe, front, record);
            let i = choose|i: int| 0 <= i < front.len() && gives(stripe, #[trigger] front[i], record);
            assert(queries[i] == front[i]);
        } else {
            if selected(hot, query).contains(record) {
                lemma_selected_is_asked(hot, query);
                let k = choose|k: int|
                    0 <= k < hot.len() && (#[trigger] hot[k]).0 == record && asks_for(
                        query,
                        hot[k],
                    );
                assert(all[k] == hot[k]);
            } else {
                assert(frame_records(frames).contains(record));
                lemma_appends_are_asked(stripe.stream_shard_id, stripe.appends@, query, record);
                let k = choose|k: int|
                    0 <= k < cold.len() && (#[trigger] cold[k]).0 == record && asks_for(
                        query,
                        cold[k],
                    );
                assert(all[hot.len() + k] == cold[k]);
            }
            assert(gives(stripe, query, record));
            assert(queries[queries.len() - 1] == query);
        }
    }
}

/// Whether one of several queries asks for a record of one of several stripes.
pub open spec fn given_by(
    stripes: Seq<LogStripe>,
    queries: Seq<LogQueryModel>,
    record: RecordModel,
) -> bool {
    exists|s: int, i: int|
        0 <= s < stripes.len() && 0 <= i < queries.len() && gives(
            #[trigger] stripes[s],
            #[trigger] queries[i],
            record,
        )
}

pub proof fn lemma_all_found_are_asked(
    stripes: Seq<LogStripe>,
    queries: Seq<LogQueryModel>,
    record: RecordModel,
)
    requires
        forall|i: int| 0 <= i < stripes.len() ==> (#[trigger] stripes[i]).well_formed(),
        found_in_all(stripes, queries).contains(record),
    ensures
        given_by(stripes, queries, record),
    decreases stripes.len(),
{
    if stripes.len() > 0 {
        let front = stripes.drop_last();
        let last = stripes.last();
        assert(stripes[stripes.len() - 1] == last);
        if found_in_all(front, queries).contains(record) {
            assert forall|i: int| 0 <= i < front.len() implies (
            #[trigger] front[i]).well_formed() by {
                assert(front[i] == stripes[i]);
            }
            lemma_all_found_are_asked(front, queries, record);
            let (s, i) = choose|s: int, i: int|
                0 <= s < front.len() && 0 <= i < queries.len() && gives(
                    #[trigger] front[s],
                    #[trigger] queries[i],
                    record,
                );
            assert(stripes[s] == front[s]);
        } else {
            assert(found_in(last, queries).contains(record));
            lemma_found_is_asked(last, queries, record);
            let i = choose|i: int|
                0 <= i < queries.len() && gives(last, #[trigger] queries[i], record);
            assert(gives(stripes[stripes.len() - 1], queries[i], record));
        }
    }
}

/// Number of documents of stripes that queries ask for, one query after the other.
pub open spec fn asked_in(stripe: LogStripe, queries: Seq<LogQueryModel>) -> nat
    decreases queries.len(),
{
    if queries.len() == 0 {
        0
    } else {
        asked_in(stripe, queries.drop_last()) + asked_count(
            visible(stripe, queries.last().partition),
            queries.last(),
        )
    }
}

/// Number of documents of stripes that queries ask for.
pub open spec fn asked_in_all(stripes: Seq<LogStripe>, queries: Seq<LogQueryModel>) -> nat
    decreases stripes.len(),
{
    if stripes.len() == 0 {
        0
    } else {
        asked_in_all(stripes.drop_last(), queries) + asked_in(stripes.last(), queries)
    }
}

pub proof fn lemma_asked_are_selected(
    stripe: LogStripe,
    queries: Seq<LogQueryModel>,
)
    ensures
        selected_by_all(stripe, queries).len() == asked_in(stripe, queries),
        forall|i: int, record: RecordModel|
            0 <= i < queries.len() && #[trigger] gives(stripe, queries[i], record)
                ==> selected_by_all(stripe, queries).contains(record),
    decreases queries.len(),
{
    if queries.len() > 0 {
        let front = queries.drop_last();
        let query = queries.last();
        let documents = visible(stripe, query.partition);
        let found = selected(documents, query);
        let all = selected_by_all(stripe, queries);
        let early = selected_by_all(stripe, front);
        lemma_asked_are_selected(stripe, front);
        lemma_selected_is_asked(documents, query);
        assert forall|i: int, record: RecordModel|
            0 <= i < queries.len() && #[trigger] gives(
                stripe,
                queries[i],
                record,
            ) implies all.contains(record) by {
            if i < front.len() {
                assert(front[i] == queries[i]);
                assert(gives(stripe, front[i], record));
                let at = choose|at: int| 0 <= at < early.len() && early[at] == record;
                assert(all[at] == record);
            } else {
                assert(queries[i] == query);
                let k = choose|k: int|
                    0 <= k < documents.len() && (#[trigger] documents[k]).0 == record && asks_for(
                        query,
                        documents[k],
                    );
                assert(found.contains(record));
                let at = choose|at: int| 0 <= at < found.len() && found[at] == record;
                assert(all[early.len() + at] == record);
            }
        }
    }
}

/// Where the frames of a stripe are indexed in full, everything that is asked for is found.
proof fn lemma_asked_are_found(stripe: LogStripe, queries: Seq<LogQueryModel>)
    requires
        stripe.well_formed(),
        all_covered(stripe.appends@),
    ensures
        found_in(stripe, queries).len() == asked_in(stripe, queries),
        forall|i: int, record: RecordModel|
            0 <= i < queries.len() && #[trigger] gives(stripe, queries[i], record) ==> found_in(
                stripe,
                queries,
            ).contains(record),
{
    let all = selected_by_all(stripe, queries);
    let found = found_in(stripe, queries);
    lemma_all_frames(stripe, queries);
    lemma_all_bag(stripe, queries);
    lemma_asked_are_selected(stripe, queries);
    lemma_bag_adds(hot_selected(stripe, queries), frame_records(all_frames(stripe, queries)));
    assert forall|i: int, record: RecordModel|
        0 <= i < queries.len() && #[trigger] gives(
            stripe,
            queries[i],
            record,
        ) implies found.contains(record) by {
        lemma_bag_has(all, record);
        lemma_bag_has(found, record);
    }
}

pub proof fn lemma_all_asked_are_found(stripes: Seq<LogStripe>, queries: Seq<LogQueryModel>)
    requires
        forall|i: int| 0 <= i < stripes.len() ==> (#[trigger] stripes[i]).well_formed(),
        forall|i: int| 0 <= i < stripes.len() ==> all_covered((#[trigger] stripes[i]).appends@),
    ensures
        found_in_all(stripes, queries).len() == asked_in_all(stripes, queries),
        forall|record: RecordModel| #[trigger]
            given_by(stripes, queries, record) ==> found_in_all(stripes, queries).contains(record),
    decreases stripes.len(),
{
    if stripes.len() > 0 {
        let front = stripes.drop_last();
        let last = stripes.last();
        let all = found_in_all(stripes, queries);
        let early = found_in_all(front, queries);
        let found = found_in(last, queries);
        assert(stripes[stripes.len() - 1] == last);
        assert forall|i: int| 0 <= i < front.len() implies (#[trigger] front[i]).well_formed()
            && all_covered(front[i].appends@) by {
            assert(front[i] == stripes[i]);
        }
        lemma_all_asked_are_found(front, queries);
        lemma_asked_are_found(last, queries);
        assert forall|record: RecordModel| #[trigger]
            given_by(stripes, queries, record) implies all.contains(record) by {
            let (s, i) = choose|s: int, i: int|
                0 <= s < stripes.len() && 0 <= i < queries.len() && gives(
                    #[trigger] stripes[s],
                    #[trigger] queries[i],
                    record,
                );
            if s < front.len() {
                assert(gives(front[s], queries[i], record));
                assert(given_by(front, queries, record));
                let at = choose|at: int| 0 <= at < early.len() && early[at] == record;
                assert(all[at] == record);
            } else {
                assert(gives(last, queries[i], record));
                let at = choose|at: int| 0 <= at < found.len() && found[at] == record;
                assert(all[early.len() + at] == record);
            }
        }
    }
}

/// Number of frames of appends.
pub open spec fn frame_total(appends: Seq<IndexedFrameAppend>) -> nat
    decreases appends.len(),
{
    if appends.len() == 0 {
        0
    } else {
        frame_total(appends.drop_last()) + appends.last().frames@.len()
    }
}

/// Records and frames that are looked at for partitions of a stripe at most.
pub open spec fn stock(stripe: LogStripe, partitions: Seq<TopicPartition>) -> nat
    decreases partitions.len(),
{
    if partitions.len() == 0 {
        0
    } else {
        stock(stripe, partitions.drop_last()) + visible(stripe, partitions.last()).len()
            + frame_total(stripe.appends@)
    }
}

/// Records and frames that are looked at for partitions of stripes at most.
pub open spec fn stock_of_all(stripes: Seq<LogStripe>, partitions: Seq<TopicPartition>) -> nat
    decreases stripes.len(),
{
    if stripes.len() == 0 {
        0
    } else {
        stock_of_all(stripes.drop_last(), partitions) + stock(stripes.last(), partitions)
    }
}

proof fn lemma_frame_found_len(
    shard: ShardId,
    append: IndexedFrameAppend,
    frame: InstalledFrame,
    query: LogQueryModel,
)
    requires
        append.well_formed(),
        frame_fault(frame, append.record_count) is None,
    ensures
        frame_found(shard, append, frame, query).len() <= frame.records@.len(),
{
    let candidates = candidates_for(frame, query);
    let found = picked(shard, append, frame, query, candidates, candidates.len() as int);
    lemma_candidates(frame, query);
    lemma_picked(shard, append, frame, query, candidates, candidates.len() as int);
    assert(candidates.subrange(0, candidates.len() as int) =~= candidates);
    assert forall|i: int| 0 <= i < found.len() implies #[trigger] found[i]
        < frame.records@.len() by {
        assert(found.contains(found[i]));
        assert(candidates.contains(found[i]));
    }
    lemma_rising_len(found, frame.records@.len());
}

proof fn lemma_frames_found_len(
    shard: ShardId,
    append: IndexedFrameAppend,
    query: LogQueryModel,
    count: int,
)
    requires
        append.well_formed(),
        0 <= count <= append.frames@.len(),
    ensures
        frames_found(shard, append, query, count).len() <= append_documents(
            shard,
            append,
            count,
        ).len(),
        append_frames(shard, append, query, count).len() <= count,
    decreases count,
{
    if count > 0 {
        lemma_frames_found_len(shard, append, query, count - 1);
        lemma_frame_found_len(shard, append, append.frames@[count - 1], query);
    }
}

pub proof fn lemma_appends_found_len(
    shard: ShardId,
    appends: Seq<IndexedFrameAppend>,
    query: LogQueryModel,
)
    requires
        forall|i: int| 0 <= i < appends.len() ==> (#[trigger] appends[i]).well_formed(),
    ensures
        appends_found(shard, appends, query).len() <= installed_documents(
            shard,
            appends,
            query.partition,
        ).len(),
        query_frames(shard, appends, query).len() <= frame_total(appends),
    decreases appends.len(),
{
    if appends.len() > 0 {
        let early = appends.drop_last();
        let last = appends.last();
        assert(appends[appends.len() - 1] == last);
        assert forall|i: int| 0 <= i < early.len() implies (#[trigger] early[i]).well_formed() by {
            assert(early[i] == appends[i]);
        }
        lemma_appends_found_len(shard, early, query);
        lemma_frames_found_len(shard, last, query, last.frames@.len() as int);
    }
}

/// The partitions of queries.
pub open spec fn partitions_of(queries: Seq<LogQueryModel>) -> Seq<TopicPartition> {
    queries.map_values(|query: LogQueryModel| query.partition)
}

proof fn lemma_found_len(stripe: LogStripe, queries: Seq<LogQueryModel>)
    requires
        stripe.well_formed(),
    ensures
        found_in(stripe, queries).len() + all_frames(stripe, queries).len() <= stock(
            stripe,
            partitions_of(queries),
        ),
    decreases queries.len(),
{
    if queries.len() > 0 {
        let front = queries.drop_last();
        let query = queries.last();
        let shard = stripe.stream_shard_id;
        lemma_found_len(stripe, front);
        assert(partitions_of(queries).drop_last() =~= partitions_of(front));
        assert(partitions_of(queries).last() == query.partition);
        lemma_selected_len(hot_documents(stripe.model(query.partition)), query);
        lemma_appends_found_len(shard, stripe.appends@, query);
        lemma_query_frames(shard, stripe.appends@, query);
        lemma_frame_records_concat(
            all_frames(stripe, front),
            query_frames(shard, stripe.appends@, query),
        );
    }
}

pub proof fn lemma_all_found_len(stripes: Seq<LogStripe>, queries: Seq<LogQueryModel>)
    requires
        forall|i: int| 0 <= i < stripes.len() ==> (#[trigger] stripes[i]).well_formed(),
    ensures
        found_in_all(stripes, queries).len() <= stock_of_all(stripes, partitions_of(queries)),
        forall|i: int|
            0 <= i < stripes.len() ==> all_frames(#[trigger] stripes[i], queries).len()
                <= stock_of_all(stripes, partitions_of(queries)),
    decreases stripes.len(),
{
    if stripes.len() > 0 {
        let front = stripes.drop_last();
        assert(stripes[stripes.len() - 1] == stripes.last());
        assert forall|i: int| 0 <= i < front.len() implies (#[trigger] front[i]).well_formed() by {
            assert(front[i] == stripes[i]);
        }
        lemma_all_found_len(front, queries);
        lemma_found_len(stripes.last(), queries);
        assert forall|i: int| 0 <= i < stripes.len() implies all_frames(
            #[trigger] stripes[i],
            queries,
        ).len() <= stock_of_all(stripes, partitions_of(queries)) by {
            if i < front.len() {
                assert(front[i] == stripes[i]);
            }
        }
    }
}

/// Most records of an answer, where `found` are found.
pub open spec fn most(limit: Option<usize>, found: nat) -> nat {
    match limit {
        Some(limit) => limit as nat,
        None => found,
    }
}

proof fn lemma_any_page_first(query: LogQueryModel, records: Seq<RecordModel>, bound: nat)
    requires
        records.len() <= usize::MAX,
        records.len() <= bound,
    ensures
        lists_first(
            place_by(query),
            records.to_multiset(),
            most(query.limit, bound),
            page(query, records, query.limit),
        ),
{
    let keys = ranks(query, records);
    sorting_permutes(records, keys);
    sorting_lists_first(place_by(query), records, keys, most(query.limit, bound));
}

proof fn lemma_one_found(stripe: LogStripe, query: LogQueryModel)
    requires
        stripe.well_formed(),
    ensures
        found_in(stripe, seq![query]) == selected(
            hot_documents(stripe.model(query.partition)),
            query,
        ) + appends_found(stripe.stream_shard_id, stripe.appends@, query),
{
    let one = seq![query];
    let shard = stripe.stream_shard_id;
    assert(one.drop_last() =~= Seq::<LogQueryModel>::empty());
    assert(one.last() == query);
    lemma_query_frames(shard, stripe.appends@, query);
    assert(hot_selected(stripe, one.drop_last()) =~= Seq::<RecordModel>::empty());
    assert(hot_selected(stripe, one) =~= selected(
        hot_documents(stripe.model(query.partition)),
        query,
    ));
    assert(all_frames(stripe, one.drop_last()) =~= Seq::<FrameModel>::empty());
    assert(all_frames(stripe, one) =~= query_frames(shard, stripe.appends@, query));
}

proof fn lemma_stripe_answer_first(stripe: LogStripe, query: LogQueryModel, bound: nat)
    requires
        stripe.well_formed(),
        found_in(stripe, seq![query]).len() <= usize::MAX,
        found_in(stripe, seq![query]).len() <= bound,
    ensures
        lists_first(
            place_by(query),
            found_in(stripe, seq![query]).to_multiset(),
            most(query.limit, bound),
            stripe_answer(stripe, query),
        ),
        stripe_answer(stripe, query).len() <= found_in(stripe, seq![query]).len(),
{
    let model = stripe.model(query.partition);
    let hot = selected(hot_documents(model), query);
    let cold = appends_found(stripe.stream_shard_id, stripe.appends@, query);
    let kept = query_answer(model, query);
    lemma_one_found(stripe, query);
    crate::log_stripe::lemma_partition_place(stripe.partitions@, query.partition, 0);
    lemma_answer_is_page(model, query);
    lemma_any_page_first(query, hot, bound);
    vstd::seq_lib::to_multiset_len(hot);
    lemma_any_page_first(query, kept + cold, bound);
    lemma_bag_adds(kept, cold);
    lemma_bag_adds(hot, cold);
    first_items_suffice(
        place_by(query),
        hot.to_multiset(),
        cold.to_multiset(),
        most(query.limit, bound),
        kept,
        stripe_answer(stripe, query),
    );
    vstd::seq_lib::to_multiset_len(hot + cold);
}

proof fn lemma_answers_first(
    stripes: Seq<LogStripe>,
    query: LogQueryModel,
    further: Multiset<RecordModel>,
    bound: nat,
    answer: Seq<RecordModel>,
)
    requires
        forall|i: int| 0 <= i < stripes.len() ==> (#[trigger] stripes[i]).well_formed(),
        found_in_all(stripes, seq![query]).len() <= usize::MAX,
        found_in_all(stripes, seq![query]).len() <= bound,
        lists_first(
            place_by(query),
            stripe_answers(stripes, query).to_multiset().add(further),
            most(query.limit, bound),
            answer,
        ),
    ensures
        lists_first(
            place_by(query),
            found_in_all(stripes, seq![query]).to_multiset().add(further),
            most(query.limit, bound),
            answer,
        ),
    decreases stripes.len(),
{
    if stripes.len() > 0 {
        let front = stripes.drop_last();
        let last = stripes.last();
        assert(stripes[stripes.len() - 1] == last);
        assert forall|i: int| 0 <= i < front.len() implies (#[trigger] front[i]).well_formed() by {
            assert(front[i] == stripes[i]);
        }
        lemma_stripe_answer_first(last, query, bound);
        let early = stripe_answers(front, query).to_multiset();
        let whole = found_in_all(front, seq![query]).to_multiset();
        let kept = stripe_answer(last, query);
        let found = found_in(last, seq![query]);
        let part = kept.to_multiset();
        let bag = found.to_multiset();
        lemma_bag_adds(stripe_answers(front, query), kept);
        lemma_bag_adds(found_in_all(front, seq![query]), found);
        assert(early.add(part).add(further) =~= early.add(part.add(further)));
        lemma_answers_first(front, query, part.add(further), bound, answer);
        assert(whole.add(part.add(further)) =~= part.add(whole.add(further)));
        first_items_suffice(
            place_by(query),
            bag,
            whole.add(further),
            most(query.limit, bound),
            kept,
            answer,
        );
        assert(bag.add(whole.add(further)) =~= whole.add(bag).add(further));
    }
}

proof fn lemma_answers_len(stripes: Seq<LogStripe>, query: LogQueryModel)
    requires
        forall|i: int| 0 <= i < stripes.len() ==> (#[trigger] stripes[i]).well_formed(),
        found_in_all(stripes, seq![query]).len() <= usize::MAX,
    ensures
        stripe_answers(stripes, query).len() <= found_in_all(stripes, seq![query]).len(),
    decreases stripes.len(),
{
    if stripes.len() > 0 {
        let front = stripes.drop_last();
        assert(stripes[stripes.len() - 1] == stripes.last());
        assert forall|i: int| 0 <= i < front.len() implies (#[trigger] front[i]).well_formed() by {
            assert(front[i] == stripes[i]);
        }
        lemma_answers_len(front, query);
        lemma_stripe_answer_first(
            stripes.last(),
            query,
            found_in(stripes.last(), seq![query]).len(),
        );
    }
}

proof fn lemma_db_page_first(stripes: Seq<LogStripe>, query: LogQueryModel)
    requires
        forall|i: int| 0 <= i < stripes.len() ==> (#[trigger] stripes[i]).well_formed(),
        found_in_all(stripes, seq![query]).len() <= usize::MAX,
    ensures
        lists_first(
            place_by(query),
            found_in_all(stripes, seq![query]).to_multiset(),
            most(query.limit, found_in_all(stripes, seq![query]).len()),
            db_page(stripes, query),
        ),
{
    let records = stripe_answers(stripes, query);
    let found = found_in_all(stripes, seq![query]);
    let none = Multiset::<RecordModel>::empty();
    let sorted = arranged(records, order_of(shard_keys(records)));
    lemma_answers_len(stripes, query);
    sorting_permutes(records, shard_keys(records));
    lemma_any_page_first(query, sorted, found.len());
    assert(records.to_multiset().add(none) =~= records.to_multiset());
    lemma_answers_first(stripes, query, none, found.len(), db_page(stripes, query));
    assert(found.to_multiset().add(none) =~= found.to_multiset());
}

/// Every record that a query gives is asked for; the records come in the order of the query,
/// no more of them than its limit.
pub proof fn answers_are_asked_for(stripes: Seq<LogStripe>, query: LogQueryModel)
    requires
        forall|i: int| 0 <= i < stripes.len() ==> (#[trigger] stripes[i]).well_formed(),
        stock_of_all(stripes, seq![query.partition]) <= usize::MAX,
    ensures
        forall|i: int|
            0 <= i < db_page(stripes, query).len() ==> exists|s: int|
                0 <= s < stripes.len() && gives(
                    #[trigger] stripes[s],
                    query,
                    #[trigger] db_page(stripes, query)[i],
                ),
        query.limit matches Some(limit) ==> db_page(stripes, query).len() <= limit,
        forall|i: int, j: int|
            0 <= i < j < db_page(stripes, query).len() ==> !comes_before_in(
                query,
                #[trigger] db_page(stripes, query)[j],
                #[trigger] db_page(stripes, query)[i],
            ),
{
    let one = seq![query];
    let found = found_in_all(stripes, one);
    let answer = db_page(stripes, query);
    assert(partitions_of(one) =~= seq![query.partition]);
    lemma_all_found_len(stripes, one);
    lemma_db_page_first(stripes, query);
    assert forall|i: int| 0 <= i < answer.len() implies exists|s: int|
        0 <= s < stripes.len() && gives(
            #[trigger] stripes[s],
            query,
            #[trigger] answer[i],
        ) by {
        lemma_bag_has(answer, answer[i]);
        lemma_bag_has(found, answer[i]);
        lemma_all_found_are_asked(stripes, one, answer[i]);
        let (s, k) = choose|s: int, k: int|
            0 <= s < stripes.len() && 0 <= k < one.len() && gives(
                #[trigger] stripes[s],
                #[trigger] one[k],
                answer[i],
            );
        assert(gives(stripes[s], query, answer[i]));
    }
    assert forall|i: int, j: int| 0 <= i < j < answer.len() implies !comes_before_in(
        query,
        #[trigger] answer[j],
        #[trigger] answer[i],
    ) by {
        let key = place_by(query);
        assert(key(answer[i]) <= key(answer[j]));
    }
}

/// Whether a record comes before another one in the answers of a query.
pub open spec fn comes_before_in(
    query: LogQueryModel,
    left: RecordModel,
    right: RecordModel,
) -> bool {
    let first = (left.timestamp, left.reference.offset.0);
    let second = (right.timestamp, right.reference.offset.0);
    match query.order {
        QueryOrder::OldestFirst => earlier_place(query.sort, first, second),
        QueryOrder::NewestFirst => earlier_place(query.sort, second, first),
    }
}

/// Where the frames of all stripes are indexed in full, a query gives as many records as it
/// asks for, or as many as its limit allows; a record that it asks for and does not give
/// comes before none of those that it gives.
pub proof fn asked_records_are_answered(stripes: Seq<LogStripe>, query: LogQueryModel)
    requires
        forall|i: int| 0 <= i < stripes.len() ==> (#[trigger] stripes[i]).well_formed(),
        forall|i: int| 0 <= i < stripes.len() ==> all_covered((#[trigger] stripes[i]).appends@),
        stock_of_all(stripes, seq![query.partition]) <= usize::MAX,
    ensures
        db_page(stripes, query).len() == if query.limit is Some && query.limit->0 < asked_in_all(
            stripes,
            seq![query],
        ) {
            query.limit->0 as nat
        } else {
            asked_in_all(stripes, seq![query])
        },
        forall|s: int, record: RecordModel|
            0 <= s < stripes.len() && #[trigger] gives(stripes[s], query, record) ==> db_page(
                stripes,
                query,
            ).contains(record) || query.limit == Some(db_page(stripes, query).len() as usize)
                && forall|i: int|
                0 <= i < db_page(stripes, query).len() ==> !comes_before_in(
                    query,
                    record,
                    #[trigger] db_page(stripes, query)[i],
                ),
{
    let one = seq![query];
    let found = found_in_all(stripes, one);
    let answer = db_page(stripes, query);
    assert(partitions_of(one) =~= seq![query.partition]);
    lemma_all_found_len(stripes, one);
    lemma_all_asked_are_found(stripes, one);
    lemma_db_page_first(stripes, query);
    vstd::seq_lib::to_multiset_len(found);
    vstd::seq_lib::to_multiset_len(answer);
    assert forall|s: int, record: RecordModel|
        0 <= s < stripes.len() && #[trigger] gives(
            stripes[s],
            query,
            record,
        ) implies answer.contains(record) || query.limit == Some(answer.len() as usize)
        && forall|i: int|
        0 <= i < answer.len() ==> !comes_before_in(query, record, #[trigger] answer[i]) by {
        assert(one[0] == query);
        assert(gives(stripes[s], one[0], record));
        assert(given_by(stripes, one, record));
        lemma_bag_has(found, record);
        lemma_bag_has(answer, record);
        if !answer.contains(record) {
            if answer.len() == found.len() {
                lemma_full_answer(found, answer, record);
            }
            assert forall|i: int| 0 <= i < answer.len() implies !comes_before_in(
                query,
                record,
                #[trigger] answer[i],
            ) by {
                let key = place_by(query);
                assert(found.to_multiset().count(record) > answer.to_multiset().count(record));
                assert(key(answer[i]) <= key(record));
            }
        }
    }
}

proof fn lemma_full_answer(found: Seq<RecordModel>, answer: Seq<RecordModel>, record: RecordModel)
    requires
        answer.to_multiset().subset_of(found.to_multiset()),
        answer.len() == found.len(),
        found.contains(record),
    ensures
        answer.contains(record),
{
    vstd::seq_lib::to_multiset_len(found);
    vstd::seq_lib::to_multiset_len(answer);
    lemma_same_size(answer.to_multiset(), found.to_multiset());
    lemma_bag_has(found, record);
    lemma_bag_has(answer, record);
}

/// Where the frames of a stripe are indexed in full, the queries find what they select.
pub proof fn lemma_found_bag(stripe: LogStripe, queries: Seq<LogQueryModel>)
    requires
        stripe.well_formed(),
        all_covered(stripe.appends@),
    ensures
        found_in(stripe, queries).to_multiset() == selected_by_all(stripe, queries).to_multiset(),
{
    lemma_all_frames(stripe, queries);
    lemma_all_bag(stripe, queries);
    lemma_bag_adds(hot_selected(stripe, queries), frame_records(all_frames(stripe, queries)));
}

proof fn lemma_installed_partition(
    shard: ShardId,
    appends: Seq<IndexedFrameAppend>,
    partition: TopicPartition,
    k: int,
)
    requires
        forall|i: int| 0 <= i < appends.len() ==> (#[trigger] appends[i]).well_formed(),
        0 <= k < installed_documents(shard, appends, partition).len(),
    ensures
        installed_documents(shard, appends, partition)[k].0.reference.topic_partition == partition,
    decreases appends.len(),
{
    if appends.len() > 0 {
        let early = appends.drop_last();
        let front = installed_documents(shard, early, partition);
        let last = appends.last();
        assert(appends[appends.len() - 1] == last);
        if k < front.len() {
            assert forall|i: int| 0 <= i < early.len() implies (
            #[trigger] early[i]).well_formed() by {
                assert(early[i] == appends[i]);
            }
            lemma_installed_partition(shard, early, partition, k);
        } else {
            lemma_append_partition(shard, last, last.frames@.len() as int, k - front.len());
        }
    }
}

proof fn lemma_append_partition(shard: ShardId, append: IndexedFrameAppend, count: int, k: int)
    requires
        append.well_formed(),
        count <= append.frames@.len(),
        0 <= k < append_documents(shard, append, count).len(),
    ensures
        append_documents(shard, append, count)[k].0.reference.topic_partition
            == append.topic_partition,
    decreases count,
{
    if count > 0 {
        let before = append_documents(shard, append, count - 1).len();
        if k < before {
            lemma_append_partition(shard, append, count - 1, k);
        } else {
            lemma_document(shard, append, append.frames@[count - 1], k - before);
        }
    }
}

/// What a stripe holds of a partition was written to it.
pub proof fn documents_keep_their_partition(stripe: LogStripe, partition: TopicPartition, k: int)
    requires
        stripe.well_formed(),
        0 <= k < visible(stripe, partition).len(),
    ensures
        visible(stripe, partition)[k].0.reference.topic_partition == partition,
{
    let model = stripe.model(partition);
    let hot = hot_documents(model);
    crate::log_stripe::lemma_partition_place(stripe.partitions@, partition, 0);
    if k < hot.len() {
        assert(hot[k].0 == model.records[k]);
    } else {
        lemma_installed_partition(
            stripe.stream_shard_id,
            stripe.appends@,
            partition,
            k - hot.len(),
        );
    }
}

} // verus!
