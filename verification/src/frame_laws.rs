//! Laws of reading hot records and compressed appends together.
use vstd::prelude::*;

use crate::frame_install::{frame_fault, index_sound, postings_of, InstalledFrame};
use crate::frame_query::{
    append_in_reach, appends_found, candidates_for, frame_found, frames_found, lemma_candidates,
    lemma_picked, page_absorbs_records, picked, record_at, records_of, required_lists,
    stripe_answer, terms_at,
};
use crate::log_predicate::PredicateModel;
use crate::log_query::{invalid_range_selects_nothing, LogQueryModel, QuerySort, RecordModel};
use crate::log_stripe::{IndexedFrameAppend, LogStripe};
use crate::order::{
    arranged, comes_before, is_order, lemma_order_exists, lemma_order_of_sorted,
    lemma_order_unique, listed, order_of,
};
use crate::partition_index::{
    answer, lemma_matching, lemma_rising_len, matching, offsets_rise, ordinal_sort_keys,
    sorted_ordinals, PartitionModel,
};
use crate::posting::{span, QueryOrder};
use crate::record::{ShardId, TopicPartition};
use crate::search_index::lemma_rising_unique;
use crate::stripe_query::{
    frame_overlaps, page, pruned_frames_hold_no_match, query_answer, rank, ranks,
};

verus! {

broadcast use vstd::seq_lib::group_seq_properties;

/// A record and the terms of its message.
pub type Document = (RecordModel, Seq<Seq<char>>);

/// Records of documents that a query selects, in their order.
pub open spec fn selected(documents: Seq<Document>, query: LogQueryModel) -> Seq<RecordModel>
    decreases documents.len(),
{
    if documents.len() == 0 {
        Seq::empty()
    } else {
        let front = selected(documents.drop_last(), query);
        if query.selects(documents.last().0, documents.last().1) {
            front.push(documents.last().0)
        } else {
            front
        }
    }
}

/// Documents of the hot records of a partition.
pub open spec fn hot_documents(model: PartitionModel) -> Seq<Document> {
    Seq::new(model.records.len(), |i: int| (model.records[i], model.terms[i]))
}

/// Documents of a frame.
pub open spec fn frame_documents(
    shard: ShardId,
    append: IndexedFrameAppend,
    frame: InstalledFrame,
) -> Seq<Document> {
    Seq::new(
        frame.records@.len(),
        |i: int| (record_at(shard, append, frame, i), terms_at(frame, i)),
    )
}

/// Documents of the first `count` frames of an append.
pub open spec fn append_documents(shard: ShardId, append: IndexedFrameAppend, count: int) -> Seq<
    Document,
>
    decreases count,
{
    if count <= 0 {
        Seq::empty()
    } else {
        append_documents(shard, append, count - 1) + frame_documents(
            shard,
            append,
            append.frames@[count - 1],
        )
    }
}

/// Documents of the compressed appends of a partition.
pub open spec fn installed_documents(
    shard: ShardId,
    appends: Seq<IndexedFrameAppend>,
    partition: TopicPartition,
) -> Seq<Document>
    decreases appends.len(),
{
    if appends.len() == 0 {
        Seq::empty()
    } else {
        let front = installed_documents(shard, appends.drop_last(), partition);
        let last = appends.last();
        if last.topic_partition == partition {
            front + append_documents(shard, last, last.frames@.len() as int)
        } else {
            front
        }
    }
}

/// All documents of a partition that a stripe holds.
pub open spec fn visible(stripe: LogStripe, partition: TopicPartition) -> Seq<Document> {
    hot_documents(stripe.model(partition)) + installed_documents(
        stripe.stream_shard_id,
        stripe.appends@,
        partition,
    )
}

/// The index of a frame lists every record under each of its terms and fields.
pub open spec fn index_covers(frame: InstalledFrame) -> bool {
    forall|ordinal: int|
        0 <= ordinal < frame.records@.len() ==> #[trigger] covers_record(frame, ordinal)
}

/// The index of a frame lists a record under each of its terms and fields.
pub open spec fn covers_record(frame: InstalledFrame, ordinal: int) -> bool {
    let fields = crate::labels::fields_view(frame.records@[ordinal].fields@);
    &&& forall|term: Seq<char>|
        terms_at(frame, ordinal).contains(term) ==> #[trigger] postings_of(
            frame.index@,
            Seq::empty(),
            term,
        ).contains(ordinal as u32)
    &&& forall|field: (Seq<char>, Seq<char>)|
        #[trigger] fields.contains(field) ==> postings_of(
            frame.index@,
            field.0,
            field.1,
        ).contains(ordinal as u32)
}

/// The indexes of all frames of a stripe cover their records.
pub open spec fn all_covered(appends: Seq<IndexedFrameAppend>) -> bool {
    forall|i: int, j: int|
        0 <= i < appends.len() && 0 <= j < appends[i].frames@.len() ==> index_covers(
            #[trigger] appends[i].frames@[j],
        )
}

pub proof fn lemma_selected_concat(first: Seq<Document>, second: Seq<Document>, query: LogQueryModel)
    ensures
        selected(first + second, query) == selected(first, query) + selected(second, query),
    decreases second.len(),
{
    if second.len() == 0 {
        assert(first + second =~= first);
        assert(selected(first, query) + selected(second, query) =~= selected(first, query));
    } else {
        lemma_selected_concat(first, second.drop_last(), query);
        assert((first + second).drop_last() =~= first + second.drop_last());
        assert((first + second).last() == second.last());
        assert(selected(first + second, query) =~= selected(first, query) + selected(
            second,
            query,
        ));
    }
}

proof fn lemma_none_selected(documents: Seq<Document>, query: LogQueryModel)
    requires
        forall|i: int|
            0 <= i < documents.len() ==> !query.selects(
                (#[trigger] documents[i]).0,
                documents[i].1,
            ),
    ensures
        selected(documents, query) == Seq::<RecordModel>::empty(),
    decreases documents.len(),
{
    if documents.len() > 0 {
        let front = documents.drop_last();
        assert forall|i: int| 0 <= i < front.len() implies !query.selects(
            (#[trigger] front[i]).0,
            front[i].1,
        ) by {
            assert(front[i] == documents[i]);
        }
        lemma_none_selected(front, query);
        assert(documents[documents.len() - 1] == documents.last());
    }
}

proof fn lemma_all_picked(
    shard: ShardId,
    append: IndexedFrameAppend,
    frame: InstalledFrame,
    query: LogQueryModel,
    count: int,
)
    requires
        0 <= count <= frame.records@.len() <= u32::MAX,
    ensures
        records_of(
            shard,
            append,
            frame,
            picked(
                shard,
                append,
                frame,
                query,
                span(0, frame.records@.len() - 1),
                count,
            ),
        ) == selected(frame_documents(shard, append, frame).subrange(0, count), query),
    decreases count,
{
    let all = span(0, frame.records@.len() - 1);
    let documents = frame_documents(shard, append, frame);
    if count == 0 {
        assert(documents.subrange(0, 0) =~= Seq::<Document>::empty());
        assert(records_of(shard, append, frame, Seq::empty()) =~= Seq::<RecordModel>::empty());
    } else {
        lemma_all_picked(shard, append, frame, query, count - 1);
        let part = documents.subrange(0, count);
        assert(part.drop_last() =~= documents.subrange(0, count - 1));
        assert(part.last() == documents[count - 1]);
        assert(all[count - 1] == count - 1);
        let front = picked(shard, append, frame, query, all, count - 1);
        let record = record_at(shard, append, frame, count - 1);
        assert(records_of(shard, append, frame, front.push(all[count - 1])) =~= records_of(
            shard,
            append,
            frame,
            front,
        ).push(record));
    }
}

/// The index of a frame loses nothing: where it covers the records of the frame, a lookup
/// finds exactly the records that the query selects.
pub proof fn frame_lookup_is_exact(
    shard: ShardId,
    append: IndexedFrameAppend,
    frame: InstalledFrame,
    query: LogQueryModel,
)
    requires
        append.well_formed(),
        frame_fault(frame, append.record_count) is None,
        index_covers(frame),
    ensures
        frame_found(shard, append, frame, query) == selected(
            frame_documents(shard, append, frame),
            query,
        ),
{
    let count = frame.frame.record_count;
    let candidates = candidates_for(frame, query);
    let all = span(0, count - 1);
    let lists = required_lists(frame.index@, query);
    let kept = picked(shard, append, frame, query, candidates, candidates.len() as int);
    let wanted = picked(shard, append, frame, query, all, all.len() as int);
    lemma_candidates(frame, query);
    lemma_picked(shard, append, frame, query, candidates, candidates.len() as int);
    lemma_picked(shard, append, frame, query, all, all.len() as int);
    assert(candidates.subrange(0, candidates.len() as int) =~= candidates);
    assert(all.subrange(0, all.len() as int) =~= all);
    assert forall|ordinal: u32| #[trigger] kept.contains(ordinal) == wanted.contains(ordinal) by {
        let record = record_at(shard, append, frame, ordinal as int);
        let terms = terms_at(frame, ordinal as int);
        if ordinal < count {
            assert(all[ordinal as int] == ordinal);
        }
        if candidates.contains(ordinal) {
            assert(all.contains(ordinal));
        }
        if wanted.contains(ordinal) {
            assert(all.contains(ordinal));
            let k = choose|k: int| 0 <= k < all.len() && all[k] == ordinal;
            assert(ordinal < count);
            assert(covers_record(frame, ordinal as int));
            assert(frame.records@[ordinal as int].offset < append.record_count);
            assert(record.fields == crate::labels::fields_view(
                frame.records@[ordinal as int].fields@,
            ));
            assert forall|i: int| 0 <= i < lists.len() implies (#[trigger] lists[i]).contains(
                ordinal,
            ) by {
                if i < query.terms.len() {
                    assert(terms.contains(query.terms[i]));
                    assert(lists[i] == postings_of(frame.index@, Seq::empty(), query.terms[i]));
                } else {
                    let field = query.fields[i - query.terms.len()];
                    assert(record.fields.contains(field));
                    assert(lists[i] == postings_of(frame.index@, field.0, field.1));
                }
            }
            assert(candidates.contains(ordinal));
        }
    }
    assert forall|ordinal: u32| kept.contains(ordinal) == wanted.contains(ordinal) by {}
    lemma_rising_unique(kept, wanted);
    lemma_all_picked(shard, append, frame, query, all.len() as int);
    let documents = frame_documents(shard, append, frame);
    assert(documents.subrange(0, all.len() as int) =~= documents);
}

proof fn lemma_frames_exact(
    shard: ShardId,
    append: IndexedFrameAppend,
    query: LogQueryModel,
    count: int,
)
    requires
        append.well_formed(),
        append.topic_partition == query.partition,
        0 <= count <= append.frames@.len(),
        forall|j: int| 0 <= j < append.frames@.len() ==> index_covers(#[trigger] append.frames@[j]),
    ensures
        frames_found(shard, append, query, count) == selected(
            append_documents(shard, append, count),
            query,
        ),
    decreases count,
{
    if count > 0 {
        let frame = append.frames@[count - 1];
        let documents = frame_documents(shard, append, frame);
        lemma_frames_exact(shard, append, query, count - 1);
        frame_lookup_is_exact(shard, append, frame, query);
        lemma_selected_concat(append_documents(shard, append, count - 1), documents, query);
        if !frame_overlaps(
            query,
            frame.frame.min_timestamp_unix_nanos,
            frame.frame.max_timestamp_unix_nanos,
        ) {
            assert forall|i: int| 0 <= i < documents.len() implies !query.selects(
                (#[trigger] documents[i]).0,
                documents[i].1,
            ) by {
                lemma_document(shard, append, frame, i);
                if query.selects(documents[i].0, documents[i].1) {
                    pruned_frames_hold_no_match(
                        query,
                        documents[i].0,
                        documents[i].1,
                        append.first_offset,
                        append.last_offset,
                        frame.frame.min_timestamp_unix_nanos,
                        frame.frame.max_timestamp_unix_nanos,
                    );
                }
            }
            lemma_none_selected(documents, query);
            assert(frames_found(shard, append, query, count) =~= frames_found(
                shard,
                append,
                query,
                count - 1,
            ) + Seq::<RecordModel>::empty());
        }
    }
}

/// A document of a frame lies in the append and in the time range of the frame.
pub proof fn lemma_document(
    shard: ShardId,
    append: IndexedFrameAppend,
    frame: InstalledFrame,
    i: int,
)
    requires
        append.well_formed(),
        frame_fault(frame, append.record_count) is None,
        0 <= i < frame.records@.len(),
    ensures
        ({
            let record = frame_documents(shard, append, frame)[i].0;
            &&& record.shard == shard
            &&& record.reference.topic_partition == append.topic_partition
            &&& append.first_offset.0 <= record.reference.offset.0 <= append.last_offset.0
            &&& record.reference.offset.0 == append.first_offset.0 + frame.records@[i].offset
            &&& frame.frame.min_timestamp_unix_nanos <= record.timestamp
                <= frame.frame.max_timestamp_unix_nanos
        }),
{
    assert(frame.records@[i].offset < append.record_count);
    assert(frame.frame.min_timestamp_unix_nanos <= frame.records@[i].timestamp_unix_nanos
        <= frame.frame.max_timestamp_unix_nanos);
}

proof fn lemma_append_out_of_reach(
    shard: ShardId,
    append: IndexedFrameAppend,
    query: LogQueryModel,
    count: int,
)
    requires
        append.well_formed(),
        append.topic_partition == query.partition,
        !append_in_reach(append, query),
        0 <= count <= append.frames@.len(),
    ensures
        selected(append_documents(shard, append, count), query) == Seq::<RecordModel>::empty(),
    decreases count,
{
    if count > 0 {
        let frame = append.frames@[count - 1];
        let documents = frame_documents(shard, append, frame);
        lemma_append_out_of_reach(shard, append, query, count - 1);
        lemma_selected_concat(append_documents(shard, append, count - 1), documents, query);
        assert forall|i: int| 0 <= i < documents.len() implies !query.selects(
            (#[trigger] documents[i]).0,
            documents[i].1,
        ) by {
            lemma_document(shard, append, frame, i);
            if query.selects(documents[i].0, documents[i].1) {
                pruned_frames_hold_no_match(
                    query,
                    documents[i].0,
                    documents[i].1,
                    append.first_offset,
                    append.last_offset,
                    frame.frame.min_timestamp_unix_nanos,
                    frame.frame.max_timestamp_unix_nanos,
                );
            }
        }
        lemma_none_selected(documents, query);
        assert(selected(append_documents(shard, append, count), query) =~= Seq::<
            RecordModel,
        >::empty());
    }
}

pub proof fn lemma_appends_exact(
    shard: ShardId,
    appends: Seq<IndexedFrameAppend>,
    query: LogQueryModel,
)
    requires
        forall|i: int| 0 <= i < appends.len() ==> (#[trigger] appends[i]).well_formed(),
        all_covered(appends),
    ensures
        appends_found(shard, appends, query) == selected(
            installed_documents(shard, appends, query.partition),
            query,
        ),
    decreases appends.len(),
{
    if appends.len() > 0 {
        let front = appends.drop_last();
        let last = appends.last();
        assert(appends[appends.len() - 1] == last);
        assert forall|i: int| 0 <= i < front.len() implies (
        #[trigger] front[i]).well_formed() by {
            assert(front[i] == appends[i]);
        }
        assert(all_covered(front)) by {
            assert forall|i: int, j: int|
                0 <= i < front.len() && 0 <= j < front[i].frames@.len() implies index_covers(
                #[trigger] front[i].frames@[j],
            ) by {
                assert(front[i] == appends[i]);
                assert(index_covers(appends[i].frames@[j]));
            }
        }
        assert forall|j: int| 0 <= j < last.frames@.len() implies index_covers(
            #[trigger] last.frames@[j],
        ) by {
            assert(index_covers(appends[appends.len() - 1].frames@[j]));
        }
        lemma_appends_exact(shard, front, query);
        if last.topic_partition == query.partition {
            let total = last.frames@.len() as int;
            lemma_selected_concat(
                installed_documents(shard, front, query.partition),
                append_documents(shard, last, total),
                query,
            );
            if append_in_reach(last, query) {
                lemma_frames_exact(shard, last, query, total);
            } else {
                lemma_append_out_of_reach(shard, last, query, total);
                assert(appends_found(shard, appends, query) =~= appends_found(
                    shard,
                    front,
                    query,
                ) + Seq::<RecordModel>::empty());
            }
        }
    }
}

/// Selected hot records are the records at the matching ordinals.
pub proof fn lemma_selected_hot(model: PartitionModel, query: LogQueryModel, count: nat)
    requires
        count <= model.records.len() <= u32::MAX,
    ensures
        selected(hot_documents(model).subrange(0, count as int), query) == matching(
            model,
            query,
            count,
        ).map_values(|ordinal: u32| model.records[ordinal as int]),
    decreases count,
{
    let documents = hot_documents(model);
    let part = documents.subrange(0, count as int);
    let place = |ordinal: u32| model.records[ordinal as int];
    if count == 0 {
        assert(part =~= Seq::<Document>::empty());
        assert(matching(model, query, 0).map_values(place) =~= Seq::<RecordModel>::empty());
    } else {
        lemma_selected_hot(model, query, (count - 1) as nat);
        assert(part.drop_last() =~= documents.subrange(0, count - 1));
        assert(part.last() == documents[count - 1]);
        let front = matching(model, query, (count - 1) as nat);
        assert(matching(model, query, count).map_values(place) =~= if query.selects(
            model.records[count - 1],
            model.terms[count - 1],
        ) {
            front.map_values(place).push(model.records[count - 1])
        } else {
            front.map_values(place)
        });
    }
}

/// The answer of a partition is the page of its selected records.
pub proof fn lemma_answer_is_page(model: PartitionModel, query: LogQueryModel)
    requires
        model.records.len() <= u32::MAX,
        offsets_rise(model.records),
    ensures
        query_answer(model, query) == page(
            query,
            selected(hot_documents(model), query),
            query.limit,
        ),
        selected(hot_documents(model), query).len() <= model.records.len(),
{
    let found = matching(model, query, model.records.len());
    let place = |ordinal: u32| model.records[ordinal as int];
    let records = found.map_values(place);
    let keys = ordinal_sort_keys(found, model.records, query);
    let sorted = sorted_ordinals(found, model.records, query);
    let order = order_of(keys);
    lemma_selected_hot(model, query, model.records.len());
    assert(hot_documents(model).subrange(0, model.records.len() as int) =~= hot_documents(model));
    lemma_matching(model, query, model.records.len());
    lemma_rising_len(found, model.records.len());
    lemma_order_exists(keys);
    assert forall|i: int| 0 <= i < found.len() implies #[trigger] found[i]
        < model.records.len() by {
        assert(found.contains(found[i]));
    }
    assert forall|i: int, j: int| 0 <= i < j < found.len() implies keys[i] != keys[j] by {
        assert(found[i] < found[j]);
        assert(model.records[found[i] as int].reference.offset.0
            < model.records[found[j] as int].reference.offset.0);
    }
    assert(sorted =~= arranged(found, order)) by {
        if query.sort == QuerySort::Offset {
            assert forall|i: int, j: int| 0 <= i < j < keys.len() implies keys[i] <= keys[j] by {
                assert(found[i] < found[j]);
                assert(model.records[found[i] as int].reference.offset.0
                    < model.records[found[j] as int].reference.offset.0);
            }
            lemma_order_of_sorted(keys);
        }
    }
    let places = ranks(query, records);
    match query.order {
        QueryOrder::OldestFirst => {
            assert(places =~= keys);
            assert(sorted.map_values(place) =~= arranged(records, order));
        },
        QueryOrder::NewestFirst => {
            let back = order.reverse();
            assert(is_order(places, back)) by {
                assert forall|i: int, j: int| 0 <= i < j < back.len() implies comes_before(
                    places,
                    #[trigger] back[i] as int,
                    #[trigger] back[j] as int,
                ) by {
                    let a = order.len() - 1 - i;
                    let b = order.len() - 1 - j;
                    assert(comes_before(keys, order[b] as int, order[a] as int));
                    assert(order[a] != order[b]);
                }
                assert forall|at: int| 0 <= at < places.len() implies #[trigger] listed(
                    back,
                    at,
                ) by {
                    assert(listed(order, at));
                    let k = choose|k: int| 0 <= k < order.len() && #[trigger] order[k] == at;
                    assert(back[order.len() - 1 - k] == at);
                }
            }
            lemma_order_unique(places, back);
            assert(sorted.reverse().map_values(place) =~= arranged(records, back));
        },
    }
    assert(query_answer(model, query) =~= page(query, records, query.limit));
}

proof fn lemma_page_joins(
    query: LogQueryModel,
    first: Seq<RecordModel>,
    second: Seq<RecordModel>,
    limit: Option<usize>,
)
    requires
        first.len() + second.len() <= usize::MAX,
    ensures
        page(query, page(query, first, limit) + second, limit) == page(
            query,
            first + second,
            limit,
        ),
{
    let most = match limit {
        Some(most) => most,
        None => usize::MAX,
    };
    page_absorbs_records(query, first, second, most);
    if limit is None {
        lemma_order_exists(ranks(query, first));
        lemma_order_exists(ranks(query, first + second));
        let kept = page(query, first, None);
        lemma_order_exists(ranks(query, kept + second));
        assert(page(query, first, Some(most)) =~= kept);
        assert(page(query, first + second, Some(most)) =~= page(query, first + second, None));
        assert(page(query, kept + second, Some(most)) =~= page(query, kept + second, None));
    }
}

/// A lookup is exact over everything that a stripe holds: where the indexes of the frames
/// cover their records, a query finds exactly those hot and compressed records that it
/// selects, in its order and up to its limit.
pub proof fn query_is_exact(stripe: LogStripe, query: LogQueryModel)
    requires
        stripe.well_formed(),
        all_covered(stripe.appends@),
        visible(stripe, query.partition).len() <= usize::MAX,
    ensures
        stripe_answer(stripe, query) == page(
            query,
            selected(visible(stripe, query.partition), query),
            query.limit,
        ),
{
    let model = stripe.model(query.partition);
    let hot = hot_documents(model);
    let installed = installed_documents(stripe.stream_shard_id, stripe.appends@, query.partition);
    crate::log_stripe::lemma_partition_place(stripe.partitions@, query.partition, 0);
    lemma_answer_is_page(model, query);
    lemma_appends_exact(stripe.stream_shard_id, stripe.appends@, query);
    lemma_selected_concat(hot, installed, query);
    lemma_selected_len(installed, query);
    lemma_page_joins(query, selected(hot, query), selected(installed, query), query.limit);
}

pub proof fn lemma_selected_len(documents: Seq<Document>, query: LogQueryModel)
    ensures
        selected(documents, query).len() <= documents.len(),
    decreases documents.len(),
{
    if documents.len() > 0 {
        lemma_selected_len(documents.drop_last(), query);
    }
}

/// A compressed append is read: once it is installed, its partition holds what it held
/// before and the records of the append, and the other partitions are as they were.
pub proof fn installed_append_is_visible(
    before: LogStripe,
    after: LogStripe,
    append: IndexedFrameAppend,
    partition: TopicPartition,
)
    requires
        after.stream_shard_id == before.stream_shard_id,
        after.partitions == before.partitions,
        after.appends@ == before.appends@.push(append),
    ensures
        visible(after, partition) == if partition == append.topic_partition {
            visible(before, partition) + append_documents(
                before.stream_shard_id,
                append,
                append.frames@.len() as int,
            )
        } else {
            visible(before, partition)
        },
{
    assert(after.appends@.drop_last() =~= before.appends@);
    assert(after.appends@.last() == append);
    assert(after.model(partition) == before.model(partition));
    let hot = hot_documents(before.model(partition));
    let front = installed_documents(before.stream_shard_id, before.appends@, partition);
    let added = append_documents(before.stream_shard_id, append, append.frames@.len() as int);
    assert(hot + (front + added) =~= (hot + front) + added);
}

/// Partition that holds the given documents.
pub open spec fn model_of(documents: Seq<Document>) -> PartitionModel {
    PartitionModel {
        records: documents.map_values(|document: Document| document.0),
        terms: documents.map_values(|document: Document| document.1),
    }
}

/// Offsets of documents.
pub open spec fn offset_keys(documents: Seq<Document>) -> Seq<u128> {
    documents.map_values(|document: Document| document.0.reference.offset.0 as u128)
}

/// No two documents have one offset.
pub open spec fn offsets_differ(documents: Seq<Document>) -> bool {
    forall|i: int, j: int|
        0 <= i < j < documents.len() ==> (#[trigger] documents[i]).0.reference.offset != (
        #[trigger] documents[j]).0.reference.offset
}

/// Everything that a stripe holds of a partition, in offset order.
pub open spec fn whole_model(stripe: LogStripe, partition: TopicPartition) -> PartitionModel {
    let documents = visible(stripe, partition);
    model_of(arranged(documents, order_of(offset_keys(documents))))
}

/// A stripe whose frames are indexed in full and whose records of a partition have
/// different offsets.
pub open spec fn readable(stripe: LogStripe, partition: TopicPartition) -> bool {
    &&& stripe.well_formed()
    &&& all_covered(stripe.appends@)
    &&& visible(stripe, partition).len() <= u32::MAX
    &&& offsets_differ(visible(stripe, partition))
}

/// Records whose ranks ascend strictly.
pub open spec fn ranks_rise(query: LogQueryModel, records: Seq<RecordModel>) -> bool {
    forall|i: int, j: int|
        0 <= i < j < records.len() ==> rank(query, #[trigger] records[i]) < rank(
            query,
            #[trigger] records[j],
        )
}

pub proof fn lemma_rank_order_unique(
    query: LogQueryModel,
    left: Seq<RecordModel>,
    right: Seq<RecordModel>,
)
    requires
        ranks_rise(query, left),
        ranks_rise(query, right),
        forall|record: RecordModel| left.contains(record) == right.contains(record),
    ensures
        left == right,
    decreases left.len(),
{
    if left.len() == 0 {
        if right.len() > 0 {
            assert(right.contains(right[0]));
            assert(left.contains(right[0]));
        }
        assert(left =~= right);
    } else {
        assert(left.contains(left.last()));
        assert(right.contains(left.last()));
        assert(right.contains(right.last()));
        assert(left.contains(right.last()));
        let at = choose|at: int| 0 <= at < right.len() && right[at] == left.last();
        let back = choose|back: int| 0 <= back < left.len() && left[back] == right.last();
        if at < right.len() - 1 {
            assert(rank(query, right[at]) < rank(query, right[right.len() - 1]));
            if back < left.len() - 1 {
                assert(rank(query, left[back]) < rank(query, left[left.len() - 1]));
            }
        }
        assert(left.last() == right.last());
        let first = left.drop_last();
        let second = right.drop_last();
        assert forall|record: RecordModel| first.contains(record) == second.contains(record) by {
            if first.contains(record) {
                let k = choose|k: int| 0 <= k < first.len() && first[k] == record;
                assert(left[k] == record);
                assert(left.contains(record));
                let m = choose|m: int| 0 <= m < right.len() && right[m] == record;
                assert(rank(query, left[k]) < rank(query, left[left.len() - 1]));
                assert(m < right.len() - 1);
                assert(second[m] == record);
            }
            if second.contains(record) {
                let k = choose|k: int| 0 <= k < second.len() && second[k] == record;
                assert(right[k] == record);
                assert(right.contains(record));
                let m = choose|m: int| 0 <= m < left.len() && left[m] == record;
                assert(rank(query, right[k]) < rank(query, right[right.len() - 1]));
                assert(m < left.len() - 1);
                assert(first[m] == record);
            }
        }
        lemma_rank_order_unique(query, first, second);
        assert(left =~= first.push(left.last()));
        assert(right =~= second.push(right.last()));
    }
}

/// Selected documents have different ranks where their offsets differ, and are found again
/// among the documents.
proof fn lemma_selected_of(documents: Seq<Document>, query: LogQueryModel)
    requires
        documents.len() <= u32::MAX,
        offsets_differ(documents),
    ensures
        selected(documents, query).len() <= documents.len(),
        ranks_rise(query, page(query, selected(documents, query), None)),
        forall|record: RecordModel|
            page(query, selected(documents, query), None).contains(record) <==> exists|i: int|
                0 <= i < documents.len() && (#[trigger] documents[i]).0 == record
                    && query.selects(documents[i].0, documents[i].1),
{
    let model = model_of(documents);
    let found = matching(model, query, documents.len());
    let records = selected(documents, query);
    let places = ranks(query, records);
    let order = order_of(places);
    let sorted = page(query, records, None);
    assert(hot_documents(model) =~= documents);
    assert(documents.subrange(0, documents.len() as int) =~= documents);
    lemma_selected_hot(model, query, documents.len());
    lemma_selected_len(documents, query);
    lemma_matching(model, query, documents.len());
    lemma_order_exists(places);
    assert forall|i: int| 0 <= i < found.len() implies #[trigger] found[i] < documents.len()
        && records[i] == documents[found[i] as int].0 by {
        assert(found.contains(found[i]));
    }
    assert forall|i: int, j: int|
        0 <= i < records.len() && 0 <= j < records.len() && i != j implies places[i]
        != places[j] by {
        let a = found[i] as int;
        let b = found[j] as int;
        if i < j {
            assert(found[i] < found[j]);
            assert(documents[a].0.reference.offset != documents[b].0.reference.offset);
        } else {
            assert(found[j] < found[i]);
            assert(documents[b].0.reference.offset != documents[a].0.reference.offset);
        }
    }
    assert forall|i: int, j: int| 0 <= i < j < sorted.len() implies rank(
        query,
        #[trigger] sorted[i],
    ) < rank(query, #[trigger] sorted[j]) by {
        assert(comes_before(places, order[i] as int, order[j] as int));
        assert(sorted[i] == records[order[i] as int]);
        assert(sorted[j] == records[order[j] as int]);
    }
    assert forall|record: RecordModel| sorted.contains(record) <==> exists|i: int|
        0 <= i < documents.len() && (#[trigger] documents[i]).0 == record && query.selects(
            documents[i].0,
            documents[i].1,
        ) by {
        if sorted.contains(record) {
            let k = choose|k: int| 0 <= k < sorted.len() && sorted[k] == record;
            let at = order[k] as int;
            assert(record == records[at]);
            assert(found.contains(found[at]));
            let i = found[at] as int;
            assert(documents[i].0 == record);
            assert(model.records[i] == documents[i].0 && model.terms[i] == documents[i].1);
        }
        if exists|i: int|
            0 <= i < documents.len() && (#[trigger] documents[i]).0 == record && query.selects(
                documents[i].0,
                documents[i].1,
            ) {
            let i = choose|i: int|
                0 <= i < documents.len() && (#[trigger] documents[i]).0 == record
                    && query.selects(documents[i].0, documents[i].1);
            assert(model.records[i] == documents[i].0 && model.terms[i] == documents[i].1);
            assert(found.contains(i as u32));
            let at = choose|at: int| 0 <= at < found.len() && found[at] == i as u32;
            assert(records[at] == record);
            assert(listed(order, at));
            let k = choose|k: int| 0 <= k < order.len() && #[trigger] order[k] == at;
            assert(sorted[k] == record);
        }
    }
}

/// A stripe answers as one partition would that held all its records in offset order.
pub proof fn stripe_answers_as_a_whole(stripe: LogStripe, query: LogQueryModel)
    requires
        readable(stripe, query.partition),
    ensures
        stripe_answer(stripe, query) == query_answer(
            whole_model(stripe, query.partition),
            query,
        ),
        whole_model(stripe, query.partition).records.len() == visible(
            stripe,
            query.partition,
        ).len(),
        offsets_rise(whole_model(stripe, query.partition).records),
{
    let documents = visible(stripe, query.partition);
    let keys = offset_keys(documents);
    let order = order_of(keys);
    let whole = arranged(documents, order);
    let model = model_of(whole);
    lemma_order_exists(keys);
    assert forall|i: int, j: int| 0 <= i < j < whole.len() implies (
    #[trigger] whole[i]).0.reference.offset.0 < (#[trigger] whole[j]).0.reference.offset.0 by {
        let a = order[i] as int;
        let b = order[j] as int;
        assert(comes_before(keys, a, b));
        assert(whole[i] == documents[a] && whole[j] == documents[b]);
        if a < b {
            assert(documents[a].0.reference.offset != documents[b].0.reference.offset);
        } else if b < a {
            assert(documents[b].0.reference.offset != documents[a].0.reference.offset);
        }
    }
    assert(offsets_rise(model.records)) by {
        assert forall|i: int, j: int| 0 <= i < j < model.records.len() implies (
        #[trigger] model.records[i]).reference.offset.0 < (
        #[trigger] model.records[j]).reference.offset.0 by {
            assert(model.records[i] == whole[i].0 && model.records[j] == whole[j].0);
        }
    }
    query_is_exact(stripe, query);
    lemma_answer_is_page(model, query);
    assert(hot_documents(model) =~= whole);
    lemma_selected_of(documents, query);
    lemma_selected_of(whole, query);
    let left = page(query, selected(documents, query), None);
    let right = page(query, selected(whole, query), None);
    assert forall|record: RecordModel| left.contains(record) == right.contains(record) by {
        if left.contains(record) {
            let i = choose|i: int|
                0 <= i < documents.len() && (#[trigger] documents[i]).0 == record
                    && query.selects(documents[i].0, documents[i].1);
            assert(listed(order, i));
            let k = choose|k: int| 0 <= k < order.len() && #[trigger] order[k] == i;
            assert(whole[k] == documents[i]);
        }
        if right.contains(record) {
            let k = choose|k: int|
                0 <= k < whole.len() && (#[trigger] whole[k]).0 == record && query.selects(
                    whole[k].0,
                    whole[k].1,
                );
            assert(whole[k] == documents[order[k] as int]);
        }
    }
    lemma_rank_order_unique(query, left, right);
}

/// Queries that ask for the same terms, fields and conditions, in whatever order and number.
pub open spec fn same_constraints(left: LogQueryModel, right: LogQueryModel) -> bool {
    &&& right == (LogQueryModel {
        terms: right.terms,
        fields: right.fields,
        predicates: right.predicates,
        ..left
    })
    &&& forall|predicate: PredicateModel|
        left.predicates.contains(predicate) <==> right.predicates.contains(predicate)
    &&& forall|term: Seq<char>| left.terms.contains(term) <==> right.terms.contains(term)
    &&& forall|field: (Seq<char>, Seq<char>)|
        left.fields.contains(field) <==> right.fields.contains(field)
}

proof fn lemma_selects_alike(
    left: LogQueryModel,
    right: LogQueryModel,
    record: RecordModel,
    terms: Seq<Seq<char>>,
)
    requires
        same_constraints(left, right),
        left.selects(record, terms),
    ensures
        right.selects(record, terms),
{
    assert forall|i: int| 0 <= i < right.predicates.len() implies (
    #[trigger] right.predicates[i]).holds(record.fields) by {
        assert(right.predicates.contains(right.predicates[i]));
        assert(left.predicates.contains(right.predicates[i]));
        let k = choose|k: int|
            0 <= k < left.predicates.len() && left.predicates[k] == right.predicates[i];
        assert(left.predicates[k].holds(record.fields));
    }
    assert forall|i: int| 0 <= i < right.terms.len() implies terms.contains(
        #[trigger] right.terms[i],
    ) by {
        assert(right.terms.contains(right.terms[i]));
        assert(left.terms.contains(right.terms[i]));
        let k = choose|k: int| 0 <= k < left.terms.len() && left.terms[k] == right.terms[i];
        assert(terms.contains(left.terms[k]));
    }
    assert forall|i: int| 0 <= i < right.fields.len() implies record.fields.contains(
        #[trigger] right.fields[i],
    ) by {
        assert(right.fields.contains(right.fields[i]));
        assert(left.fields.contains(right.fields[i]));
        let k = choose|k: int| 0 <= k < left.fields.len() && left.fields[k] == right.fields[i];
        assert(record.fields.contains(left.fields[k]));
    }
}

proof fn lemma_matching_alike(
    model: PartitionModel,
    left: LogQueryModel,
    right: LogQueryModel,
    count: nat,
)
    requires
        same_constraints(left, right),
    ensures
        matching(model, left, count) == matching(model, right, count),
    decreases count,
{
    if count > 0 {
        let record = model.records[count - 1];
        let terms = model.terms[count - 1];
        lemma_matching_alike(model, left, right, (count - 1) as nat);
        if left.selects(record, terms) {
            lemma_selects_alike(left, right, record, terms);
        }
        if right.selects(record, terms) {
            lemma_selects_alike(right, left, record, terms);
        }
    }
}

proof fn lemma_candidate_alike(
    frame: InstalledFrame,
    left: LogQueryModel,
    right: LogQueryModel,
    ordinal: u32,
)
    requires
        index_sound(frame.index@, frame.frame.record_count),
        same_constraints(left, right),
        candidates_for(frame, left).contains(ordinal),
    ensures
        candidates_for(frame, right).contains(ordinal),
{
    lemma_candidates(frame, left);
    lemma_candidates(frame, right);
    let lists = required_lists(frame.index@, left);
    let wanted = required_lists(frame.index@, right);
    assert forall|i: int| 0 <= i < wanted.len() implies (#[trigger] wanted[i]).contains(
        ordinal,
    ) by {
        if i < right.terms.len() {
            assert(right.terms.contains(right.terms[i]));
            assert(left.terms.contains(right.terms[i]));
            let k = choose|k: int| 0 <= k < left.terms.len() && left.terms[k] == right.terms[i];
            assert(lists[k] == wanted[i]);
        } else {
            let field = right.fields[i - right.terms.len()];
            assert(right.fields.contains(field));
            assert(left.fields.contains(field));
            let k = choose|k: int| 0 <= k < left.fields.len() && left.fields[k] == field;
            assert(lists[left.terms.len() + k] == wanted[i]);
        }
    }
}

proof fn lemma_frame_alike(
    shard: ShardId,
    append: IndexedFrameAppend,
    frame: InstalledFrame,
    left: LogQueryModel,
    right: LogQueryModel,
)
    requires
        index_sound(frame.index@, frame.frame.record_count),
        same_constraints(left, right),
    ensures
        frame_found(shard, append, frame, left) == frame_found(shard, append, frame, right),
{
    let first = candidates_for(frame, left);
    let second = candidates_for(frame, right);
    let kept = picked(shard, append, frame, left, first, first.len() as int);
    let wanted = picked(shard, append, frame, right, second, second.len() as int);
    lemma_candidates(frame, left);
    lemma_candidates(frame, right);
    lemma_picked(shard, append, frame, left, first, first.len() as int);
    lemma_picked(shard, append, frame, right, second, second.len() as int);
    assert(first.subrange(0, first.len() as int) =~= first);
    assert(second.subrange(0, second.len() as int) =~= second);
    assert forall|ordinal: u32| kept.contains(ordinal) == wanted.contains(ordinal) by {
        let record = record_at(shard, append, frame, ordinal as int);
        let terms = terms_at(frame, ordinal as int);
        if kept.contains(ordinal) {
            lemma_candidate_alike(frame, left, right, ordinal);
            lemma_selects_alike(left, right, record, terms);
        }
        if wanted.contains(ordinal) {
            lemma_candidate_alike(frame, right, left, ordinal);
            lemma_selects_alike(right, left, record, terms);
        }
    }
    lemma_rising_unique(kept, wanted);
}

proof fn lemma_frames_alike(
    shard: ShardId,
    append: IndexedFrameAppend,
    left: LogQueryModel,
    right: LogQueryModel,
    count: int,
)
    requires
        append.well_formed(),
        same_constraints(left, right),
        0 <= count <= append.frames@.len(),
    ensures
        frames_found(shard, append, left, count) == frames_found(shard, append, right, count),
    decreases count,
{
    if count > 0 {
        let frame = append.frames@[count - 1];
        lemma_frames_alike(shard, append, left, right, count - 1);
        assert(frame_fault(frame, append.record_count) is None);
        lemma_frame_alike(shard, append, frame, left, right);
    }
}

proof fn lemma_appends_alike(
    shard: ShardId,
    appends: Seq<IndexedFrameAppend>,
    left: LogQueryModel,
    right: LogQueryModel,
)
    requires
        forall|i: int| 0 <= i < appends.len() ==> (#[trigger] appends[i]).well_formed(),
        same_constraints(left, right),
    ensures
        appends_found(shard, appends, left) == appends_found(shard, appends, right),
    decreases appends.len(),
{
    if appends.len() > 0 {
        let front = appends.drop_last();
        let last = appends.last();
        assert(appends[appends.len() - 1] == last);
        assert forall|i: int| 0 <= i < front.len() implies (
        #[trigger] front[i]).well_formed() by {
            assert(front[i] == appends[i]);
        }
        lemma_appends_alike(shard, front, left, right);
        lemma_frames_alike(shard, last, left, right, last.frames@.len() as int);
    }
}

/// The order in which terms, fields and conditions are asked for does not matter, nor does
/// asking for one of them again.
pub proof fn constraint_order_is_free(
    stripe: LogStripe,
    left: LogQueryModel,
    right: LogQueryModel,
)
    requires
        stripe.well_formed(),
        same_constraints(left, right),
    ensures
        stripe_answer(stripe, left) == stripe_answer(stripe, right),
{
    let model = stripe.model(left.partition);
    lemma_matching_alike(model, left, right, model.records.len());
    let found = matching(model, left, model.records.len());
    assert(ordinal_sort_keys(found, model.records, left) =~= ordinal_sort_keys(
        found,
        model.records,
        right,
    ));
    lemma_appends_alike(stripe.stream_shard_id, stripe.appends@, left, right);
    let records = query_answer(model, left) + appends_found(
        stripe.stream_shard_id,
        stripe.appends@,
        left,
    );
    assert(ranks(left, records) =~= ranks(right, records));
}

/// Nothing is selected by a query.
spec fn selects_nothing(query: LogQueryModel) -> bool {
    forall|record: RecordModel, terms: Seq<Seq<char>>| !#[trigger] query.selects(record, terms)
}

proof fn lemma_nothing_matches(model: PartitionModel, query: LogQueryModel, count: nat)
    requires
        selects_nothing(query),
    ensures
        matching(model, query, count).len() == 0,
    decreases count,
{
    if count > 0 {
        lemma_nothing_matches(model, query, (count - 1) as nat);
    }
}

proof fn lemma_nothing_picked(
    shard: ShardId,
    append: IndexedFrameAppend,
    frame: InstalledFrame,
    query: LogQueryModel,
    candidates: Seq<u32>,
    count: int,
)
    requires
        selects_nothing(query),
    ensures
        picked(shard, append, frame, query, candidates, count).len() == 0,
    decreases count,
{
    if count > 0 {
        lemma_nothing_picked(shard, append, frame, query, candidates, count - 1);
    }
}

proof fn lemma_nothing_in_frames(
    shard: ShardId,
    append: IndexedFrameAppend,
    query: LogQueryModel,
    count: int,
)
    requires
        selects_nothing(query),
    ensures
        frames_found(shard, append, query, count).len() == 0,
    decreases count,
{
    if count > 0 {
        let frame = append.frames@[count - 1];
        let candidates = candidates_for(frame, query);
        lemma_nothing_in_frames(shard, append, query, count - 1);
        lemma_nothing_picked(shard, append, frame, query, candidates, candidates.len() as int);
    }
}

proof fn lemma_nothing_in_appends(
    shard: ShardId,
    appends: Seq<IndexedFrameAppend>,
    query: LogQueryModel,
)
    requires
        selects_nothing(query),
    ensures
        appends_found(shard, appends, query).len() == 0,
    decreases appends.len(),
{
    if appends.len() > 0 {
        let last = appends.last();
        lemma_nothing_in_appends(shard, appends.drop_last(), query);
        lemma_nothing_in_frames(shard, last, query, last.frames@.len() as int);
    }
}

/// A query for no records, or over an empty range, finds nothing.
pub proof fn empty_queries_find_nothing(stripe: LogStripe, query: LogQueryModel)
    requires
        query.limit == Some(0usize) || query.invalid_range(),
    ensures
        stripe_answer(stripe, query) == Seq::<RecordModel>::empty(),
{
    if query.invalid_range() {
        let model = stripe.model(query.partition);
        let found = matching(model, query, model.records.len());
        assert(selects_nothing(query)) by {
            assert forall|record: RecordModel, terms: Seq<Seq<char>>| !#[trigger] query.selects(
                record,
                terms,
            ) by {
                invalid_range_selects_nothing(query, record, terms);
            }
        }
        lemma_nothing_matches(model, query, model.records.len());
        lemma_nothing_in_appends(stripe.stream_shard_id, stripe.appends@, query);
        lemma_order_exists(ordinal_sort_keys(found, model.records, query));
        let records = query_answer(model, query) + appends_found(
            stripe.stream_shard_id,
            stripe.appends@,
            query,
        );
        assert(records =~= Seq::<RecordModel>::empty());
        lemma_order_exists(ranks(query, records));
    }
    assert(stripe_answer(stripe, query) =~= Seq::<RecordModel>::empty());
}

} // verus!
