//! Laws of what native queries must return.
use vstd::multiset::Multiset;
use vstd::prelude::*;

use crate::api_error::ApiFault;
use crate::durable_laws::{one_shard, paging_gives_first_visible};
use crate::durable_query::{
    accepted_entries, accepted_in_all, cursor_room, db_page, direction_order,
    filtered_answer_of, first_accepted, hidden_page_limit,
    native_answer_of, native_log_query_of, native_queries_of, native_result, paged_entries, stored_entries, Accepted,
};
use crate::durable_store::{retained_start, stored_entry};
use crate::fanout_laws::selected_by_all;
use crate::first_laws::{
    first_items_suffice, leading_items_come_first, lemma_bag_adds, lemma_bag_has, lists_first,
    sorting_lists_first,
};
use crate::frame_laws::{
    all_covered, hot_documents, lemma_answer_is_page, lemma_selected_len, query_is_exact, readable,
    selected, stripe_answers_as_a_whole, visible, whole_model, Document,
};
use crate::frame_query::{appends_found, stripe_answer};
use crate::log_query::{LogQueryModel, QuerySort, RecordModel};
use crate::log_stripe::LogStripe;
use crate::loki_delete::{deleted_selections, is_deleted, DeleteModel};
use crate::loki_query::parse_query_text;
use crate::loki_stats::SelectionModel;
use crate::native_query::QueryModel;
use crate::native_query_laws::{
    accepted_answer, accepted_place, deletions_cover_what_they_ask_for, is_erased, is_wanted,
    lemma_accepted_first, lemma_all_source, lemma_native_asks, lemma_native_records, lemma_record_source, lemma_stored_entries,
    native_records,
};
use crate::order::{arranged, order_of, sorting_permutes};
use crate::posting::limited;
use crate::query_laws::{cursor_at, whole_answer};
use crate::record::{EntryModel, TopicPartition};
use crate::store_laws::{
    asks_for, documents_keep_their_partition, found_in_all, lemma_all_found_are_asked, lemma_appends_found_len,
    lemma_found_bag, lemma_selected_is_asked, place_by, queries_select_what_they_ask_for, stock_of_all,
};
use crate::stripe_query::{query_answer, rank, ranks, stripe_answers};

verus! {

broadcast use vstd::seq_lib::group_seq_properties;

/// Whether a document is to be shown: the query asks for it and no received deletion
/// covers its entry.
pub open spec fn is_to_show(
    request: QueryModel,
    deletes: Seq<DeleteModel>,
    cutoff: Option<u64>,
    document: Document,
) -> bool {
    is_wanted(request, cutoff, document) && (stored_entry(document.0) matches Ok(entry)
        && !is_erased(deletes, entry))
}

/// Entries and offsets of the documents that are to be shown.
pub open spec fn shown_of(
    documents: Seq<Document>,
    request: QueryModel,
    deletes: Seq<DeleteModel>,
    cutoff: Option<u64>,
) -> Seq<Accepted>
    decreases documents.len(),
{
    if documents.len() == 0 {
        Seq::empty()
    } else {
        let front = shown_of(documents.drop_last(), request, deletes, cutoff);
        let last = documents.last();
        if is_to_show(request, deletes, cutoff, last) {
            front.push((stored_entry(last.0)->Ok_0, last.0.reference.offset.0))
        } else {
            front
        }
    }
}

/// Everything that a stripe is to show of partitions.
pub open spec fn shown_in(
    stripe: LogStripe,
    partitions: Seq<TopicPartition>,
    request: QueryModel,
    deletes: Seq<DeleteModel>,
    cutoff: Option<u64>,
) -> Multiset<Accepted>
    decreases partitions.len(),
{
    if partitions.len() == 0 {
        Multiset::empty()
    } else {
        shown_in(stripe, partitions.drop_last(), request, deletes, cutoff).add(
            shown_of(
                visible(stripe, partitions.last()),
                request,
                deletes,
                cutoff,
            ).to_multiset(),
        )
    }
}

/// Everything that stripes are to show of partitions.
pub open spec fn shown_in_all(
    stripes: Seq<LogStripe>,
    partitions: Seq<TopicPartition>,
    request: QueryModel,
    deletes: Seq<DeleteModel>,
    cutoff: Option<u64>,
) -> Multiset<Accepted>
    decreases stripes.len(),
{
    if stripes.len() == 0 {
        Multiset::empty()
    } else {
        shown_in_all(stripes.drop_last(), partitions, request, deletes, cutoff).add(
            shown_in(stripes.last(), partitions, request, deletes, cutoff),
        )
    }
}

/// Entries and offsets of records that are not hidden.
pub open spec fn shown(records: Seq<RecordModel>, hidden: Seq<SelectionModel>) -> Seq<Accepted>
    decreases records.len(),
{
    if records.len() == 0 {
        Seq::empty()
    } else {
        let front = shown(records.drop_last(), hidden);
        let last = records.last();
        if stored_entry(last) is Ok && !is_deleted(hidden, stored_entry(last)->Ok_0) {
            front.push((stored_entry(last)->Ok_0, last.reference.offset.0))
        } else {
            front
        }
    }
}

pub proof fn lemma_shown_concat(
    left: Seq<RecordModel>,
    right: Seq<RecordModel>,
    hidden: Seq<SelectionModel>,
)
    ensures
        shown(left + right, hidden) == shown(left, hidden) + shown(right, hidden),
    decreases right.len(),
{
    if right.len() == 0 {
        assert(left + right =~= left);
        assert(shown(left, hidden) + shown(right, hidden) =~= shown(left, hidden));
    } else {
        lemma_shown_concat(left, right.drop_last(), hidden);
        assert((left + right).drop_last() =~= left + right.drop_last());
        assert((left + right).last() == right.last());
        assert(shown(left + right, hidden) =~= shown(left, hidden) + shown(right, hidden));
    }
}

proof fn lemma_shown_without(records: Seq<RecordModel>, hidden: Seq<SelectionModel>, k: int)
    requires
        0 <= k < records.len(),
    ensures
        shown(records, hidden).to_multiset() == shown(records.remove(k), hidden).to_multiset().add(
            shown(seq![records[k]], hidden).to_multiset(),
        ),
{
    let before = records.subrange(0, k);
    let after = records.subrange(k + 1, records.len() as int);
    let one = seq![records[k]];
    assert(records =~= before + (one + after));
    assert(records.remove(k) =~= before + after);
    lemma_shown_concat(before, one + after, hidden);
    lemma_shown_concat(one, after, hidden);
    lemma_shown_concat(before, after, hidden);
    lemma_bag_adds(shown(before, hidden), shown(one + after, hidden));
    lemma_bag_adds(shown(one, hidden), shown(after, hidden));
    lemma_bag_adds(shown(before, hidden), shown(after, hidden));
    assert(shown(records, hidden).to_multiset() =~= shown(
        records.remove(k),
        hidden,
    ).to_multiset().add(shown(one, hidden).to_multiset()));
}

pub proof fn lemma_shown_bag(
    left: Seq<RecordModel>,
    right: Seq<RecordModel>,
    hidden: Seq<SelectionModel>,
)
    requires
        left.to_multiset() == right.to_multiset(),
    ensures
        shown(left, hidden).to_multiset() == shown(right, hidden).to_multiset(),
    decreases left.len(),
{
    broadcast use vstd::seq_lib::group_to_multiset_ensures;

    vstd::seq_lib::to_multiset_len(left);
    vstd::seq_lib::to_multiset_len(right);
    if left.len() == 0 {
        assert(left =~= right);
    } else {
        let last = left.last();
        assert(left.contains(last));
        assert(right.to_multiset().count(last) > 0);
        assert(right.contains(last));
        let k = choose|k: int| 0 <= k < right.len() && right[k] == last;
        let front = left.drop_last();
        assert(left.remove(left.len() - 1) =~= front);
        assert(front.to_multiset() =~= right.remove(k).to_multiset());
        lemma_shown_bag(front, right.remove(k), hidden);
        lemma_shown_without(left, hidden, left.len() - 1);
        lemma_shown_without(right, hidden, k);
    }
}

pub proof fn lemma_shown_source(records: Seq<RecordModel>, hidden: Seq<SelectionModel>)
    ensures
        forall|n: int|
            0 <= n < shown(records, hidden).len() ==> exists|i: int|
                0 <= i < records.len() && stored_entry(#[trigger] records[i]) == Ok::<_, ApiFault>(
                    (#[trigger] shown(records, hidden)[n]).0,
                ) && records[i].reference.offset.0 == shown(records, hidden)[n].1,
        shown(records, hidden).len() <= records.len(),
    decreases records.len(),
{
    if records.len() > 0 {
        let early = records.drop_last();
        let front = shown(early, hidden);
        let all = shown(records, hidden);
        lemma_shown_source(early, hidden);
        assert forall|n: int| 0 <= n < all.len() implies exists|i: int|
            0 <= i < records.len() && stored_entry(#[trigger] records[i]) == Ok::<_, ApiFault>(
                (#[trigger] all[n]).0,
            ) && records[i].reference.offset.0 == all[n].1 by {
            if n < front.len() {
                assert(all[n] == front[n]);
                let i = choose|i: int|
                    0 <= i < early.len() && stored_entry(#[trigger] early[i]) == Ok::<_, ApiFault>(
                        (#[trigger] front[n]).0,
                    ) && early[i].reference.offset.0 == front[n].1;
                assert(records[i] == early[i]);
            } else {
                assert(records[records.len() - 1] == records.last());
                assert(stored_entry(records[records.len() - 1]) == Ok::<_, ApiFault>(all[n].0));
            }
        }
    }
}

/// The entry of a record takes the place of the record.
proof fn lemma_same_place(
    query: LogQueryModel,
    left: RecordModel,
    right: RecordModel,
)
    requires
        query.sort == QuerySort::Timestamp,
        left.timestamp <= i64::MAX,
        right.timestamp <= i64::MAX,
        rank(query, left) <= rank(query, right),
    ensures
        ({
            let place = accepted_place(query.order);
            place((stored_entry(left)->Ok_0, left.reference.offset.0)) <= place(
                (stored_entry(right)->Ok_0, right.reference.offset.0),
            )
        }),
{
    let a = stored_entry(left)->Ok_0;
    let b = stored_entry(right)->Ok_0;
    assert(a.timestamp - i64::MIN == left.timestamp + 0x8000_0000_0000_0000);
    assert(b.timestamp - i64::MIN == right.timestamp + 0x8000_0000_0000_0000);
}

proof fn lemma_shown_in_order(
    query: LogQueryModel,
    records: Seq<RecordModel>,
    hidden: Seq<SelectionModel>,
)
    requires
        query.sort == QuerySort::Timestamp,
        forall|i: int| 0 <= i < records.len() ==> (#[trigger] records[i]).timestamp <= i64::MAX,
        forall|i: int, j: int|
            0 <= i < j < records.len() ==> rank(query, #[trigger] records[i]) <= rank(
                query,
                #[trigger] records[j],
            ),
    ensures
        ({
            let place = accepted_place(query.order);
            let all = shown(records, hidden);
            forall|i: int, j: int|
                0 <= i < j < all.len() ==> place(#[trigger] all[i]) <= place(#[trigger] all[j])
        }),
    decreases records.len(),
{
    if records.len() > 0 {
        let early = records.drop_last();
        let last = records.last();
        let front = shown(early, hidden);
        let all = shown(records, hidden);
        let place = accepted_place(query.order);
        assert(records[records.len() - 1] == last);
        assert forall|i: int| 0 <= i < early.len() implies (#[trigger] early[i]).timestamp
            <= i64::MAX by {
            assert(early[i] == records[i]);
        }
        assert forall|i: int, j: int| 0 <= i < j < early.len() implies rank(
            query,
            #[trigger] early[i],
        ) <= rank(query, #[trigger] early[j]) by {
            assert(early[i] == records[i] && early[j] == records[j]);
        }
        lemma_shown_in_order(query, early, hidden);
        lemma_shown_source(early, hidden);
        assert forall|i: int, j: int| 0 <= i < j < all.len() implies place(#[trigger] all[i])
            <= place(#[trigger] all[j]) by {
            assert(all[i] == front[i]);
            if j < front.len() {
                assert(all[j] == front[j]);
            } else {
                let k = choose|k: int|
                    0 <= k < early.len() && stored_entry(#[trigger] early[k]) == Ok::<_, ApiFault>(
                        (#[trigger] front[i]).0,
                    ) && early[k].reference.offset.0 == front[i].1;
                assert(early[k] == records[k]);
                assert(rank(query, records[k]) <= rank(query, records[records.len() - 1]));
                lemma_same_place(query, early[k], last);
            }
        }
    }
}

proof fn lemma_accepted_is_shown(
    records: Seq<RecordModel>,
    hidden: Seq<SelectionModel>,
    room: nat,
    count: int,
)
    requires
        0 <= count <= records.len(),
        forall|i: int| 0 <= i < records.len() ==> (#[trigger] records[i]).timestamp <= i64::MAX,
    ensures
        accepted_entries(records, hidden, room, count) == Ok::<_, ApiFault>(
            limited(shown(records.subrange(0, count), hidden), room),
        ),
    decreases count,
{
    let part = records.subrange(0, count);
    if count == 0 {
        assert(part =~= Seq::<RecordModel>::empty());
        assert(limited(shown(part, hidden), room) =~= Seq::<Accepted>::empty());
    } else {
        lemma_accepted_is_shown(records, hidden, room, count - 1);
        assert(part.drop_last() =~= records.subrange(0, count - 1));
        assert(part.last() == records[count - 1]);
        let before = shown(part.drop_last(), hidden);
        let now = shown(part, hidden);
        let front = limited(before, room);
        if front.len() >= room {
            assert(limited(now, room) =~= front);
        } else {
            assert(front == before);
            assert(limited(now, room) =~= now);
        }
    }
}

/// What remains of a list without some of its items.
proof fn lemma_rest(all: Seq<RecordModel>, part: Multiset<RecordModel>) -> (rest: Seq<RecordModel>)
    requires
        part.subset_of(all.to_multiset()),
    ensures
        all.to_multiset() == part.add(rest.to_multiset()),
    decreases all.len(),
{
    broadcast use vstd::seq_lib::group_to_multiset_ensures;

    if all.len() == 0 {
        assert(all =~= Seq::<RecordModel>::empty());
        assert(part =~= Multiset::<RecordModel>::empty());
        assert(all.to_multiset() =~= part.add(all.to_multiset()));
        all
    } else {
        let early = all.drop_last();
        let last = all.last();
        assert(all =~= early.push(last));
        assert(all.to_multiset() =~= early.to_multiset().insert(last));
        if part.count(last) > 0 {
            let less = part.remove(last);
            assert forall|record: RecordModel| less.count(record) <= early.to_multiset().count(
                record,
            ) by {
                assert(part.count(record) <= all.to_multiset().count(record));
            }
            let rest = lemma_rest(early, less);
            assert(all.to_multiset() =~= part.add(rest.to_multiset()));
            rest
        } else {
            assert forall|record: RecordModel| part.count(record) <= early.to_multiset().count(
                record,
            ) by {
                assert(part.count(record) <= all.to_multiset().count(record));
            }
            let rest = lemma_rest(early, part);
            let more = rest.push(last);
            assert(more.to_multiset() =~= rest.to_multiset().insert(last));
            assert(all.to_multiset() =~= part.add(more.to_multiset()));
            more
        }
    }
}

proof fn lemma_shown_all(records: Seq<RecordModel>)
    requires
        forall|i: int| 0 <= i < records.len() ==> (#[trigger] records[i]).timestamp <= i64::MAX,
    ensures
        shown(records, Seq::empty()).len() == records.len(),
        forall|i: int|
            0 <= i < records.len() ==> (#[trigger] shown(records, Seq::empty())[i]) == (
                stored_entry(records[i])->Ok_0,
                records[i].reference.offset.0,
            ),
    decreases records.len(),
{
    if records.len() > 0 {
        let early = records.drop_last();
        assert forall|i: int| 0 <= i < early.len() implies (#[trigger] early[i]).timestamp
            <= i64::MAX by {
            assert(early[i] == records[i]);
        }
        lemma_shown_all(early);
        assert(records[records.len() - 1] == records.last());
        assert(!is_deleted(Seq::<SelectionModel>::empty(), stored_entry(records.last())->Ok_0));
    }
}

/// Entries of the first records are the first entries.
proof fn lemma_shown_first(
    query: LogQueryModel,
    found: Seq<RecordModel>,
    answer: Seq<RecordModel>,
    limit: nat,
)
    requires
        query.sort == QuerySort::Timestamp,
        forall|i: int| 0 <= i < found.len() ==> (#[trigger] found[i]).timestamp <= i64::MAX,
        lists_first(place_by(query), found.to_multiset(), limit, answer),
    ensures
        forall|i: int| 0 <= i < answer.len() ==> (#[trigger] answer[i]).timestamp <= i64::MAX,
        lists_first(
            accepted_place(query.order),
            shown(found, Seq::empty()).to_multiset(),
            limit,
            shown(answer, Seq::empty()),
        ),
{
    let none = Seq::<SelectionModel>::empty();
    let by_rank = place_by(query);
    let place = accepted_place(query.order);
    let rest = lemma_rest(found, answer.to_multiset());
    assert forall|i: int| 0 <= i < answer.len() implies (#[trigger] answer[i]).timestamp
        <= i64::MAX by {
        lemma_bag_has(answer, answer[i]);
        lemma_bag_has(found, answer[i]);
        let k = choose|k: int| 0 <= k < found.len() && found[k] == answer[i];
        assert(found[k].timestamp <= i64::MAX);
    }
    lemma_bag_adds(answer, rest);
    lemma_shown_bag(found, answer + rest, none);
    lemma_shown_concat(answer, rest, none);
    lemma_bag_adds(shown(answer, none), shown(rest, none));
    lemma_shown_all(answer);
    lemma_shown_all(found);
    vstd::seq_lib::to_multiset_len(found);
    vstd::seq_lib::to_multiset_len(shown(found, none));
    assert forall|i: int, j: int| 0 <= i < j < answer.len() implies rank(
        query,
        #[trigger] answer[i],
    ) <= rank(query, #[trigger] answer[j]) by {
        assert(by_rank(answer[i]) <= by_rank(answer[j]));
    }
    lemma_shown_in_order(query, answer, none);
    let all = shown(found, none).to_multiset();
    let given = shown(answer, none);
    lemma_shown_source(rest, none);
    assert forall|i: int, item: Accepted|
        #![trigger given[i], all.count(item)]
        0 <= i < given.len() && all.count(item) > given.to_multiset().count(item) implies place(
        given[i],
    ) <= place(item) by {
        let left = shown(rest, none);
        lemma_bag_has(left, item);
        let n = choose|n: int| 0 <= n < left.len() && left[n] == item;
        let k = choose|k: int|
            0 <= k < rest.len() && stored_entry(#[trigger] rest[k]) == Ok::<_, ApiFault>(
                (#[trigger] left[n]).0,
            ) && rest[k].reference.offset.0 == left[n].1;
        lemma_bag_has(rest, rest[k]);
        assert(found.to_multiset().count(rest[k]) > answer.to_multiset().count(rest[k]));
        assert(by_rank(answer[i]) <= by_rank(rest[k]));
        assert(stored_entry(rest[k])->Ok_0 == item.0);
        lemma_same_place(query, answer[i], rest[k]);
    }
}

/// Whether a query asks for what a native query asks for in its partition.
pub open spec fn asks_alike(query: LogQueryModel, request: QueryModel, cutoff: Option<u64>) -> bool {
    forall|document: Document| #[trigger]
        asks_for(query, document) == (document.0.reference.topic_partition == query.partition
            && is_wanted(request, cutoff, document))
}

pub proof fn lemma_selected_are_shown(
    documents: Seq<Document>,
    query: LogQueryModel,
    request: QueryModel,
    deletes: Seq<DeleteModel>,
    hidden: Seq<SelectionModel>,
    cutoff: Option<u64>,
)
    requires
        asks_alike(query, request, cutoff),
        deleted_selections(deletes) == Ok::<_, ApiFault>(hidden),
        forall|k: int|
            0 <= k < documents.len() ==> (#[trigger] documents[k]).0.reference.topic_partition
                == query.partition,
    ensures
        shown(selected(documents, query), hidden) == shown_of(documents, request, deletes, cutoff),
    decreases documents.len(),
{
    if documents.len() > 0 {
        let early = documents.drop_last();
        let last = documents.last();
        assert forall|k: int| 0 <= k < early.len() implies (
        #[trigger] early[k]).0.reference.topic_partition == query.partition by {
            assert(early[k] == documents[k]);
        }
        lemma_selected_are_shown(early, query, request, deletes, hidden, cutoff);
        queries_select_what_they_ask_for(query, last);
        deletions_cover_what_they_ask_for(deletes);
        assert(documents[documents.len() - 1] == last);
        assert(asks_for(query, last) == is_wanted(request, cutoff, last));
        let front = selected(early, query);
        let all = selected(documents, query);
        if query.selects(last.0, last.1) {
            assert(all.drop_last() =~= front);
            assert(all.last() == last.0);
            if stored_entry(last.0) is Ok {
                let entry = stored_entry(last.0)->Ok_0;
                assert(is_deleted(hidden, entry) == is_erased(deletes, entry));
            }
        }
    }
}

/// No record that a native query asks for lies beyond the last timestamp of an entry.
pub open spec fn times_fit(
    stripes: Seq<LogStripe>,
    partitions: Seq<TopicPartition>,
    request: QueryModel,
    cutoff: Option<u64>,
) -> bool {
    forall|s: int, p: int, k: int|
        #![trigger visible(stripes[s], partitions[p])[k]]
        0 <= s < stripes.len() && 0 <= p < partitions.len() && 0 <= k < visible(
            stripes[s],
            partitions[p],
        ).len() && is_wanted(request, cutoff, visible(stripes[s], partitions[p])[k]) ==> visible(
            stripes[s],
            partitions[p],
        )[k].0.timestamp <= i64::MAX
}

proof fn lemma_native_alike(
    request: QueryModel,
    cutoff: Option<u64>,
    partition: TopicPartition,
    limit: usize,
)
    ensures
        asks_alike(
            native_log_query_of(
                request,
                partition,
                retained_start(request.start, cutoff),
                limit,
                None,
            ),
            request,
            cutoff,
        ),
{
    let query = native_log_query_of(
        request,
        partition,
        retained_start(request.start, cutoff),
        limit,
        None,
    );
    assert forall|document: Document| #[trigger] asks_for(query, document) == (
    document.0.reference.topic_partition == query.partition && is_wanted(
        request,
        cutoff,
        document,
    )) by {
        lemma_native_asks(request, cutoff, partition, limit, document);
    }
}

proof fn lemma_stripe_shows(
    stripe: LogStripe,
    partitions: Seq<TopicPartition>,
    request: QueryModel,
    deletes: Seq<DeleteModel>,
    hidden: Seq<SelectionModel>,
    cutoff: Option<u64>,
)
    requires
        stripe.well_formed(),
        deleted_selections(deletes) == Ok::<_, ApiFault>(hidden),
    ensures
        shown(
            selected_by_all(
                stripe,
                native_queries_of(request, partitions, retained_start(request.start, cutoff)),
            ),
            hidden,
        ).to_multiset() == shown_in(stripe, partitions, request, deletes, cutoff),
    decreases partitions.len(),
{
    broadcast use vstd::seq_lib::group_to_multiset_ensures;

    let start = retained_start(request.start, cutoff);
    let queries = native_queries_of(request, partitions, start);
    if partitions.len() == 0 {
        assert(shown(selected_by_all(stripe, queries), hidden) =~= Seq::<Accepted>::empty());
        assert(Seq::<Accepted>::empty().to_multiset() =~= Multiset::<Accepted>::empty());
    } else {
        let early = partitions.drop_last();
        let partition = partitions.last();
        let query = queries.last();
        let documents = visible(stripe, partition);
        assert(query == native_log_query_of(
            request,
            partition,
            start,
            request.limit as usize,
            None,
        ));
        assert(queries.drop_last() =~= native_queries_of(request, early, start));
        lemma_stripe_shows(stripe, early, request, deletes, hidden, cutoff);
        lemma_native_alike(request, cutoff, partition, request.limit as usize);
        assert forall|k: int| 0 <= k < documents.len() implies (
        #[trigger] documents[k]).0.reference.topic_partition == query.partition by {
            documents_keep_their_partition(stripe, partition, k);
        }
        lemma_selected_are_shown(documents, query, request, deletes, hidden, cutoff);
        let front = selected_by_all(stripe, queries.drop_last());
        let more = selected(documents, query);
        lemma_shown_concat(front, more, hidden);
        lemma_bag_adds(shown(front, hidden), shown(more, hidden));
    }
}

proof fn lemma_stripes_show(
    stripes: Seq<LogStripe>,
    partitions: Seq<TopicPartition>,
    request: QueryModel,
    deletes: Seq<DeleteModel>,
    hidden: Seq<SelectionModel>,
    cutoff: Option<u64>,
)
    requires
        forall|i: int| 0 <= i < stripes.len() ==> (#[trigger] stripes[i]).well_formed(),
        forall|i: int| 0 <= i < stripes.len() ==> all_covered((#[trigger] stripes[i]).appends@),
        deleted_selections(deletes) == Ok::<_, ApiFault>(hidden),
    ensures
        shown(
            found_in_all(
                stripes,
                native_queries_of(request, partitions, retained_start(request.start, cutoff)),
            ),
            hidden,
        ).to_multiset() == shown_in_all(stripes, partitions, request, deletes, cutoff),
    decreases stripes.len(),
{
    broadcast use vstd::seq_lib::group_to_multiset_ensures;

    let queries = native_queries_of(request, partitions, retained_start(request.start, cutoff));
    if stripes.len() == 0 {
        assert(shown(found_in_all(stripes, queries), hidden) =~= Seq::<Accepted>::empty());
        assert(Seq::<Accepted>::empty().to_multiset() =~= Multiset::<Accepted>::empty());
    } else {
        let early = stripes.drop_last();
        let last = stripes.last();
        assert(stripes[stripes.len() - 1] == last);
        assert forall|i: int| 0 <= i < early.len() implies (#[trigger] early[i]).well_formed()
            && all_covered(early[i].appends@) by {
            assert(early[i] == stripes[i]);
        }
        lemma_stripes_show(early, partitions, request, deletes, hidden, cutoff);
        lemma_stripe_shows(last, partitions, request, deletes, hidden, cutoff);
        lemma_found_bag(last, queries);
        let front = found_in_all(early, queries);
        let more = crate::store_laws::found_in(last, queries);
        lemma_shown_bag(more, selected_by_all(last, queries), hidden);
        lemma_shown_concat(front, more, hidden);
        lemma_bag_adds(shown(front, hidden), shown(more, hidden));
    }
}

/// Whether entries are the first of everything that is to be shown, by time and then by
/// offset in the direction of the query, as many as its limit allows.
pub open spec fn shows_first(
    stripes: Seq<LogStripe>,
    partitions: Seq<TopicPartition>,
    request: QueryModel,
    deletes: Seq<DeleteModel>,
    cutoff: Option<u64>,
    entries: Seq<EntryModel>,
) -> bool {
    exists|answer: Seq<Accepted>|
        entries == answer.map_values(|item: Accepted| item.0) && #[trigger] lists_first(
            accepted_place(direction_order(request.direction)),
            shown_in_all(stripes, partitions, request, deletes, cutoff),
            request.limit as nat,
            answer,
        )
}

proof fn lemma_plain_answer_shows_first(
    stripes: Seq<LogStripe>,
    partitions: Seq<TopicPartition>,
    request: QueryModel,
    deletes: Seq<DeleteModel>,
    cutoff: Option<u64>,
)
    requires
        forall|i: int| 0 <= i < stripes.len() ==> (#[trigger] stripes[i]).well_formed(),
        forall|i: int| 0 <= i < stripes.len() ==> all_covered((#[trigger] stripes[i]).appends@),
        partitions.len() > 0,
        stock_of_all(stripes, partitions) <= usize::MAX,
        deleted_selections(deletes) == Ok::<_, ApiFault>(Seq::<SelectionModel>::empty()),
        times_fit(stripes, partitions, request, cutoff),
    ensures
        native_answer_of(
            stripes,
            partitions,
            request,
            retained_start(request.start, cutoff),
        ) matches Ok(entries) && shows_first(
            stripes,
            partitions,
            request,
            deletes,
            cutoff,
            entries,
        ),
{
    let none = Seq::<SelectionModel>::empty();
    let queries = native_queries_of(request, partitions, retained_start(request.start, cutoff));
    let found = found_in_all(stripes, queries);
    let records = native_records(stripes, partitions, request, cutoff);
    lemma_native_records(stripes, partitions, request, cutoff);
    assert forall|i: int| 0 <= i < found.len() implies (#[trigger] found[i]).timestamp
        <= i64::MAX by {
        assert(found.contains(found[i]));
        lemma_all_found_are_asked(stripes, queries, found[i]);
        let at = lemma_record_source(stripes, partitions, request, cutoff, found[i]);
        assert(visible(stripes[at.0], partitions[at.1])[at.2].0 == found[i]);
    }
    lemma_shown_first(queries[0], found, records, request.limit as nat);
    lemma_stripes_show(stripes, partitions, request, deletes, none, cutoff);
    lemma_stored_entries(records);
    lemma_shown_all(records);
    let entries = stored_entries(records)->Ok_0;
    let answer = shown(records, none);
    assert(entries =~= answer.map_values(|item: Accepted| item.0));
    assert(shows_first(stripes, partitions, request, deletes, cutoff, entries));
}

/// Everything that stripes are to show of one partition.
spec fn shown_in_one(
    stripes: Seq<LogStripe>,
    partition: TopicPartition,
    request: QueryModel,
    deletes: Seq<DeleteModel>,
    cutoff: Option<u64>,
) -> Multiset<Accepted>
    decreases stripes.len(),
{
    if stripes.len() == 0 {
        Multiset::empty()
    } else {
        shown_in_one(stripes.drop_last(), partition, request, deletes, cutoff).add(
            shown_of(visible(stripes.last(), partition), request, deletes, cutoff).to_multiset(),
        )
    }
}

/// Everything that stripes are to show of partitions, one partition after the other.
spec fn shown_by_partition(
    stripes: Seq<LogStripe>,
    partitions: Seq<TopicPartition>,
    request: QueryModel,
    deletes: Seq<DeleteModel>,
    cutoff: Option<u64>,
) -> Multiset<Accepted>
    decreases partitions.len(),
{
    if partitions.len() == 0 {
        Multiset::empty()
    } else {
        shown_by_partition(stripes, partitions.drop_last(), request, deletes, cutoff).add(
            shown_in_one(stripes, partitions.last(), request, deletes, cutoff),
        )
    }
}

proof fn lemma_shown_row(
    stripes: Seq<LogStripe>,
    partitions: Seq<TopicPartition>,
    request: QueryModel,
    deletes: Seq<DeleteModel>,
    cutoff: Option<u64>,
)
    requires
        stripes.len() > 0,
    ensures
        shown_by_partition(stripes, partitions, request, deletes, cutoff) == shown_by_partition(
            stripes.drop_last(),
            partitions,
            request,
            deletes,
            cutoff,
        ).add(shown_in(stripes.last(), partitions, request, deletes, cutoff)),
    decreases partitions.len(),
{
    if partitions.len() > 0 {
        lemma_shown_row(stripes, partitions.drop_last(), request, deletes, cutoff);
    }
    assert(shown_by_partition(stripes, partitions, request, deletes, cutoff)
        =~= shown_by_partition(stripes.drop_last(), partitions, request, deletes, cutoff).add(
        shown_in(stripes.last(), partitions, request, deletes, cutoff),
    ));
}

proof fn lemma_shown_none(
    partitions: Seq<TopicPartition>,
    request: QueryModel,
    deletes: Seq<DeleteModel>,
    cutoff: Option<u64>,
)
    ensures
        shown_by_partition(Seq::empty(), partitions, request, deletes, cutoff) == Multiset::<
            Accepted,
        >::empty(),
    decreases partitions.len(),
{
    if partitions.len() > 0 {
        lemma_shown_none(partitions.drop_last(), request, deletes, cutoff);
    }
    assert(shown_by_partition(Seq::empty(), partitions, request, deletes, cutoff) =~= Multiset::<
        Accepted,
    >::empty());
}

proof fn lemma_shown_either_way(
    stripes: Seq<LogStripe>,
    partitions: Seq<TopicPartition>,
    request: QueryModel,
    deletes: Seq<DeleteModel>,
    cutoff: Option<u64>,
)
    ensures
        shown_by_partition(stripes, partitions, request, deletes, cutoff) == shown_in_all(
            stripes,
            partitions,
            request,
            deletes,
            cutoff,
        ),
    decreases stripes.len(),
{
    if stripes.len() == 0 {
        assert(stripes =~= Seq::<LogStripe>::empty());
        lemma_shown_none(partitions, request, deletes, cutoff);
    } else {
        lemma_shown_either_way(stripes.drop_last(), partitions, request, deletes, cutoff);
        lemma_shown_row(stripes, partitions, request, deletes, cutoff);
    }
}

/// Whether a partition lives in one stripe, whose frames are indexed in full and whose
/// records have different offsets and one shard.
pub open spec fn lives_in(stripes: Seq<LogStripe>, partition: TopicPartition, j: int) -> bool {
    &&& 0 <= j < stripes.len()
    &&& readable(stripes[j], partition)
    &&& one_shard(whole_model(stripes[j], partition))
    &&& forall|i: int|
        0 <= i < stripes.len() && i != j ==> visible(#[trigger] stripes[i], partition).len() == 0
}

proof fn lemma_lone_answers(stripes: Seq<LogStripe>, query: LogQueryModel, j: int)
    requires
        forall|i: int| 0 <= i < stripes.len() ==> (#[trigger] stripes[i]).well_formed(),
        j < stripes.len(),
        forall|i: int|
            0 <= i < stripes.len() && i != j ==> visible(
                #[trigger] stripes[i],
                query.partition,
            ).len() == 0,
    ensures
        stripe_answers(stripes, query) == if 0 <= j {
            stripe_answer(stripes[j], query)
        } else {
            Seq::empty()
        },
    decreases stripes.len(),
{
    if stripes.len() > 0 {
        let early = stripes.drop_last();
        let last = stripes.last();
        let at = stripes.len() - 1;
        assert(stripes[at] == last);
        assert forall|i: int| 0 <= i < early.len() implies (#[trigger] early[i]).well_formed()
            && (i != j ==> visible(early[i], query.partition).len() == 0) by {
            assert(early[i] == stripes[i]);
        }
        if j == at {
            lemma_lone_answers(early, query, -1);
            assert(stripe_answers(stripes, query) =~= stripe_answer(stripes[j], query));
        } else {
            lemma_lone_answers(early, query, j);
            assert(visible(stripes[at], query.partition).len() == 0);
            lemma_silent(last, query);
            assert(stripe_answers(stripes, query) =~= stripe_answers(early, query));
        }
    }
}

proof fn lemma_silent(stripe: LogStripe, query: LogQueryModel)
    requires
        stripe.well_formed(),
        visible(stripe, query.partition).len() == 0,
    ensures
        stripe_answer(stripe, query).len() == 0,
{
    let model = stripe.model(query.partition);
    let hot = hot_documents(model);
    let none = Seq::<RecordModel>::empty();
    crate::log_stripe::lemma_partition_place(stripe.partitions@, query.partition, 0);
    lemma_answer_is_page(model, query);
    lemma_selected_len(hot, query);
    lemma_appends_found_len(stripe.stream_shard_id, stripe.appends@, query);
    assert(selected(hot, query) =~= none);
    sorting_permutes(none, ranks(query, none));
    assert(query_answer(model, query) =~= none);
    assert(query_answer(model, query) + appends_found(
        stripe.stream_shard_id,
        stripe.appends@,
        query,
    ) =~= none);
}

proof fn lemma_lone_pages(
    stripes: Seq<LogStripe>,
    query: LogQueryModel,
    hidden: Seq<SelectionModel>,
    room: nat,
    j: int,
)
    requires
        forall|i: int| 0 <= i < stripes.len() ==> (#[trigger] stripes[i]).well_formed(),
        lives_in(stripes, query.partition, j),
    ensures
        paged_entries(stripes, query, hidden, room) == paged_entries(
            seq![stripes[j]],
            query,
            hidden,
            room,
        ),
    decreases cursor_room(query),
{
    let one = seq![stripes[j]];
    lemma_lone_answers(stripes, query, j);
    assert(one[0] == stripes[j]);
    lemma_lone_answers(one, query, 0);
    assert(db_page(stripes, query) == db_page(one, query));
    let found = db_page(stripes, query);
    if found.len() > 0 && accepted_entries(found, hidden, room, found.len() as int) is Ok {
        let taken = accepted_entries(found, hidden, room, found.len() as int)->Ok_0;
        let next = LogQueryModel { after: Some(cursor_at(found.last())), ..query };
        if !(taken.len() >= room || query.limit is None || found.len() < query.limit->0
            || cursor_room(next) >= cursor_room(query)) {
            lemma_lone_pages(stripes, next, hidden, (room - taken.len()) as nat, j);
        }
    }
}

proof fn lemma_lone_shown(
    stripes: Seq<LogStripe>,
    partition: TopicPartition,
    request: QueryModel,
    deletes: Seq<DeleteModel>,
    cutoff: Option<u64>,
    j: int,
)
    requires
        j < stripes.len(),
        forall|i: int|
            0 <= i < stripes.len() && i != j ==> visible(#[trigger] stripes[i], partition).len()
                == 0,
    ensures
        shown_in_one(stripes, partition, request, deletes, cutoff) == if 0 <= j {
            shown_of(visible(stripes[j], partition), request, deletes, cutoff).to_multiset()
        } else {
            Multiset::empty()
        },
    decreases stripes.len(),
{
    broadcast use vstd::seq_lib::group_to_multiset_ensures;

    if stripes.len() > 0 {
        let early = stripes.drop_last();
        let last = stripes.last();
        let at = stripes.len() - 1;
        assert(stripes[at] == last);
        assert forall|i: int| 0 <= i < early.len() && i != j implies visible(
            #[trigger] early[i],
            partition,
        ).len() == 0 by {
            assert(early[i] == stripes[i]);
        }
        let whole = shown_in_one(stripes, partition, request, deletes, cutoff);
        let more = shown_of(visible(last, partition), request, deletes, cutoff).to_multiset();
        if j == at {
            lemma_lone_shown(early, partition, request, deletes, cutoff, -1);
            assert(whole =~= more);
        } else {
            lemma_lone_shown(early, partition, request, deletes, cutoff, j);
            assert(visible(stripes[at], partition).len() == 0);
            assert(Seq::<Accepted>::empty().to_multiset() =~= Multiset::<Accepted>::empty());
            assert(whole =~= shown_in_one(early, partition, request, deletes, cutoff));
        }
    }
}

proof fn lemma_whole_is_sorted(stripe: LogStripe, query: LogQueryModel)
    requires
        readable(stripe, query.partition),
        query.after is None,
    ensures
        ({
            let whole = whole_answer(whole_model(stripe, query.partition), query);
            &&& whole.to_multiset() == selected(
                visible(stripe, query.partition),
                LogQueryModel { limit: None, ..query },
            ).to_multiset()
            &&& forall|i: int, j: int|
                0 <= i < j < whole.len() ==> rank(query, #[trigger] whole[i]) <= rank(
                    query,
                    #[trigger] whole[j],
                )
        }),
{
    let free = LogQueryModel { limit: None, ..query };
    assert(free == (LogQueryModel { limit: None, after: None, ..query }));
    let documents = visible(stripe, query.partition);
    let found = selected(documents, free);
    let whole = whole_answer(whole_model(stripe, query.partition), query);
    let keys = ranks(free, found);
    stripe_answers_as_a_whole(stripe, free);
    query_is_exact(stripe, free);
    lemma_selected_len(documents, free);
    sorting_permutes(found, keys);
    assert(whole == arranged(found, order_of(keys)));
    sorting_lists_first(place_by(free), found, keys, found.len());
    assert(limited(whole, found.len()) =~= whole);
    let key = place_by(free);
    assert forall|i: int, j: int| 0 <= i < j < whole.len() implies rank(
        query,
        #[trigger] whole[i],
    ) <= rank(query, #[trigger] whole[j]) by {
        assert(key(whole[i]) <= key(whole[j]));
    }
}

proof fn lemma_limit_is_free(query: LogQueryModel, limit: Option<usize>, document: Document)
    ensures
        asks_for(LogQueryModel { limit, ..query }, document) == asks_for(query, document),
{
    let other = LogQueryModel { limit, ..query };
    let record = document.0;
    queries_select_what_they_ask_for(query, document);
    queries_select_what_they_ask_for(other, document);
    assert(other.terms == query.terms && other.fields == query.fields);
    assert(other.offset_fits(record) == query.offset_fits(record));
    assert(other.key(record) == query.key(record));
    assert(other.behind_cursor(query.key(record)) == query.behind_cursor(query.key(record)));
    assert(other.position_fits(record) == query.position_fits(record));
    if query.selects(record, document.1) {
        assert(other.selects(record, document.1));
    }
    if other.selects(record, document.1) {
        assert(query.selects(record, document.1));
    }
}

proof fn lemma_partition_shows(
    stripes: Seq<LogStripe>,
    partition: TopicPartition,
    request: QueryModel,
    deletes: Seq<DeleteModel>,
    hidden: Seq<SelectionModel>,
    cutoff: Option<u64>,
    page_limit: usize,
    j: int,
)
    requires
        forall|i: int| 0 <= i < stripes.len() ==> (#[trigger] stripes[i]).well_formed(),
        lives_in(stripes, partition, j),
        deleted_selections(deletes) == Ok::<_, ApiFault>(hidden),
        page_limit > 0,
        forall|k: int|
            0 <= k < visible(stripes[j], partition).len() && is_wanted(
                request,
                cutoff,
                #[trigger] visible(stripes[j], partition)[k],
            ) ==> visible(stripes[j], partition)[k].0.timestamp <= i64::MAX,
    ensures
        paged_entries(
            stripes,
            native_log_query_of(
                request,
                partition,
                retained_start(request.start, cutoff),
                page_limit,
                None,
            ),
            hidden,
            request.limit as nat,
        ) matches Ok(more) && lists_first(
            accepted_place(direction_order(request.direction)),
            shown_in_one(stripes, partition, request, deletes, cutoff),
            request.limit as nat,
            more,
        ),
{
    let query = native_log_query_of(
        request,
        partition,
        retained_start(request.start, cutoff),
        page_limit,
        None,
    );
    let free = LogQueryModel { limit: None, ..query };
    let stripe = stripes[j];
    let one = seq![stripe];
    let room = request.limit as nat;
    let documents = visible(stripe, partition);
    let found = selected(documents, free);
    let whole = whole_answer(whole_model(stripe, partition), query);
    let place = accepted_place(query.order);
    lemma_lone_pages(stripes, query, hidden, room, j);
    assert(one[0] == stripe);
    paging_gives_first_visible(one, query, hidden, room);
    lemma_whole_is_sorted(stripe, query);
    lemma_native_alike(request, cutoff, partition, page_limit);
    assert(asks_alike(free, request, cutoff)) by {
        assert forall|document: Document| #[trigger] asks_for(free, document) == (
        document.0.reference.topic_partition == free.partition && is_wanted(
            request,
            cutoff,
            document,
        )) by {
            lemma_limit_is_free(query, None, document);
        }
    }
    assert forall|k: int| 0 <= k < documents.len() implies (
    #[trigger] documents[k]).0.reference.topic_partition == free.partition by {
        documents_keep_their_partition(stripe, partition, k);
    }
    lemma_selected_are_shown(documents, free, request, deletes, hidden, cutoff);
    lemma_shown_bag(whole, found, hidden);
    lemma_selected_is_asked(documents, free);
    assert forall|i: int| 0 <= i < whole.len() implies (#[trigger] whole[i]).timestamp
        <= i64::MAX by {
        lemma_bag_has(whole, whole[i]);
        lemma_bag_has(found, whole[i]);
        let k = choose|k: int|
            0 <= k < documents.len() && (#[trigger] documents[k]).0 == whole[i] && asks_for(
                free,
                documents[k],
            );
        assert(is_wanted(request, cutoff, documents[k]));
    }
    lemma_accepted_is_shown(whole, hidden, room, whole.len() as int);
    assert(whole.subrange(0, whole.len() as int) =~= whole);
    lemma_shown_in_order(query, whole, hidden);
    leading_items_come_first(place, shown(whole, hidden), room);
    lemma_lone_shown(stripes, partition, request, deletes, cutoff, j);
}

/// Whether every partition lives in one stripe.
pub open spec fn all_live_in_one(
    stripes: Seq<LogStripe>,
    partitions: Seq<TopicPartition>,
) -> bool {
    forall|p: int|
        0 <= p < partitions.len() ==> exists|j: int|
            lives_in(stripes, #[trigger] partitions[p], j)
}

proof fn lemma_accepted_chain(
    stripes: Seq<LogStripe>,
    partitions: Seq<TopicPartition>,
    request: QueryModel,
    deletes: Seq<DeleteModel>,
    hidden: Seq<SelectionModel>,
    cutoff: Option<u64>,
    page_limit: usize,
    count: int,
    further: Multiset<Accepted>,
    answer: Seq<Accepted>,
)
    requires
        forall|i: int| 0 <= i < stripes.len() ==> (#[trigger] stripes[i]).well_formed(),
        all_live_in_one(stripes, partitions),
        times_fit(stripes, partitions, request, cutoff),
        deleted_selections(deletes) == Ok::<_, ApiFault>(hidden),
        page_limit > 0,
        0 <= count <= partitions.len(),
    ensures
        accepted_in_all(
            stripes,
            request,
            partitions,
            retained_start(request.start, cutoff),
            page_limit,
            hidden,
            count,
        ) matches Ok(items) && (lists_first(
            accepted_place(direction_order(request.direction)),
            items.to_multiset().add(further),
            request.limit as nat,
            answer,
        ) ==> lists_first(
            accepted_place(direction_order(request.direction)),
            shown_by_partition(
                stripes,
                partitions.subrange(0, count),
                request,
                deletes,
                cutoff,
            ).add(further),
            request.limit as nat,
            answer,
        )),
    decreases count,
{
    broadcast use vstd::seq_lib::group_to_multiset_ensures;

    let start = retained_start(request.start, cutoff);
    let place = accepted_place(direction_order(request.direction));
    let limit = request.limit as nat;
    let part = partitions.subrange(0, count);
    let all = accepted_in_all(stripes, request, partitions, start, page_limit, hidden, count);
    if count == 0 {
        assert(Seq::<Accepted>::empty().to_multiset() =~= Multiset::<Accepted>::empty());
    } else {
        let p = count - 1;
        let early = partitions.subrange(0, p);
        let query = native_log_query_of(request, partitions[p], start, page_limit, None);
        let j = choose|j: int| lives_in(stripes, partitions[p], j);
        assert(part.drop_last() =~= early);
        assert(part.last() == partitions[p]);
        assert forall|k: int|
            0 <= k < visible(stripes[j], partitions[p]).len() && is_wanted(
                request,
                cutoff,
                #[trigger] visible(stripes[j], partitions[p])[k],
            ) implies visible(stripes[j], partitions[p])[k].0.timestamp <= i64::MAX by {}
        lemma_partition_shows(
            stripes,
            partitions[p],
            request,
            deletes,
            hidden,
            cutoff,
            page_limit,
            j,
        );
        let more = paged_entries(stripes, query, hidden, limit)->Ok_0;
        let bag = more.to_multiset();
        lemma_accepted_chain(
            stripes,
            partitions,
            request,
            deletes,
            hidden,
            cutoff,
            page_limit,
            p,
            bag.add(further),
            answer,
        );
        let front = accepted_in_all(
            stripes,
            request,
            partitions,
            start,
            page_limit,
            hidden,
            p,
        )->Ok_0;
        let items = all->Ok_0;
        assert(items == front + more);
        lemma_bag_adds(front, more);
        if lists_first(place, items.to_multiset().add(further), limit, answer) {
            let whole = shown_by_partition(stripes, early, request, deletes, cutoff);
            let one = shown_in_one(stripes, partitions[p], request, deletes, cutoff);
            assert(items.to_multiset().add(further) =~= front.to_multiset().add(bag.add(further)));
            assert(whole.add(bag.add(further)) =~= bag.add(whole.add(further)));
            first_items_suffice(place, one, whole.add(further), limit, more, answer);
            assert(one.add(whole.add(further)) =~= whole.add(one).add(further));
        }
    }
}

proof fn lemma_filtered_answer_shows_first(
    stripes: Seq<LogStripe>,
    partitions: Seq<TopicPartition>,
    request: QueryModel,
    deletes: Seq<DeleteModel>,
    hidden: Seq<SelectionModel>,
    cutoff: Option<u64>,
)
    requires
        forall|i: int| 0 <= i < stripes.len() ==> (#[trigger] stripes[i]).well_formed(),
        stock_of_all(stripes, partitions) <= usize::MAX,
        partitions.len() * request.limit <= usize::MAX,
        all_live_in_one(stripes, partitions),
        times_fit(stripes, partitions, request, cutoff),
        deleted_selections(deletes) == Ok::<_, ApiFault>(hidden),
    ensures
        filtered_answer_of(
            stripes,
            partitions,
            request,
            retained_start(request.start, cutoff),
            hidden,
        ) matches Ok(entries) && shows_first(
            stripes,
            partitions,
            request,
            deletes,
            cutoff,
            entries,
        ),
{
    let start = retained_start(request.start, cutoff);
    let page_limit = hidden_page_limit(request.limit);
    let total = partitions.len() as int;
    let all = accepted_in_all(stripes, request, partitions, start, page_limit, hidden, total);
    let items = all->Ok_0;
    let order = direction_order(request.direction);
    let limit = request.limit as nat;
    let answer = accepted_answer(items, order, limit);
    let none = Multiset::<Accepted>::empty();
    lemma_all_source(stripes, partitions, request, hidden, cutoff, page_limit, total);
    lemma_accepted_chain(
        stripes,
        partitions,
        request,
        deletes,
        hidden,
        cutoff,
        page_limit,
        total,
        none,
        answer,
    );
    lemma_accepted_first(items, order, limit);
    assert(items.to_multiset().add(none) =~= items.to_multiset());
    assert(partitions.subrange(0, total) =~= partitions);
    lemma_shown_either_way(stripes, partitions, request, deletes, cutoff);
    let whole = shown_in_all(stripes, partitions, request, deletes, cutoff);
    assert(whole.add(none) =~= whole);
    let entries = first_accepted(items, order, limit);
    assert(entries =~= answer.map_values(|item: Accepted| item.0));
    assert(shows_first(stripes, partitions, request, deletes, cutoff, entries));
}

/// A native query returns, up to its limit, every stored record of the tenant that carries
/// its labels, has its terms and lies in its time range and behind the retention cutoff, but
/// for those that a received deletion covers: the entries are the first of them in its
/// direction. It does so where the frames are indexed in full and the timestamps are those
/// of entries, and, where there are deletions, where each partition lives in one stripe.
pub proof fn wanted_records_are_returned(
    stripes: Seq<LogStripe>,
    partitions: Seq<TopicPartition>,
    request: QueryModel,
    deletes: Seq<DeleteModel>,
    cutoff: Option<u64>,
)
    requires
        forall|i: int| 0 <= i < stripes.len() ==> (#[trigger] stripes[i]).well_formed(),
        forall|i: int| 0 <= i < stripes.len() ==> all_covered((#[trigger] stripes[i]).appends@),
        partitions.len() > 0,
        stock_of_all(stripes, partitions) <= usize::MAX,
        partitions.len() * request.limit <= usize::MAX,
        times_fit(stripes, partitions, request, cutoff),
        forall|i: int|
            0 <= i < deletes.len() && (#[trigger] deletes[i]).status == "received"@
                ==> parse_query_text(deletes[i].query) is Ok,
        (exists|i: int| 0 <= i < deletes.len() && (#[trigger] deletes[i]).status == "received"@)
            ==> all_live_in_one(stripes, partitions),
    ensures
        native_result(stripes, partitions, request, deletes, cutoff) matches Ok(entries)
            && shows_first(stripes, partitions, request, deletes, cutoff, entries),
{
    deletions_cover_what_they_ask_for(deletes);
    let hidden = deleted_selections(deletes)->Ok_0;
    if request.limit == 0 {
        let none = Seq::<Accepted>::empty();
        vstd::seq_lib::to_multiset_len(none);
        let whole = shown_in_all(stripes, partitions, request, deletes, cutoff);
        assert forall|item: Accepted| none.to_multiset().count(item) <= whole.count(item) by {
            lemma_bag_has(none, item);
        }
        assert(Seq::<EntryModel>::empty() =~= none.map_values(|item: Accepted| item.0));
        assert(lists_first(
            accepted_place(direction_order(request.direction)),
            whole,
            request.limit as nat,
            none,
        ));
    } else if hidden.len() == 0 {
        assert(hidden =~= Seq::<SelectionModel>::empty());
        lemma_plain_answer_shows_first(stripes, partitions, request, deletes, cutoff);
    } else {
        lemma_filtered_answer_shows_first(stripes, partitions, request, deletes, hidden, cutoff);
    }
}

} // verus!
