//! Laws of reading several partitions of a stripe at once.
use vstd::multiset::Multiset;
use vstd::prelude::*;

use crate::frame_laws::{
    all_covered, hot_documents, installed_documents, lemma_answer_is_page, lemma_appends_exact,
    lemma_rank_order_unique, lemma_selected_concat, ranks_rise, selected, visible,
};
use crate::frame_query::{
    append_in_reach, appends_found, frame_keys, frame_records, frames_found, frames_in_order,
    frames_merge_exactly, page_absorbs_records, FrameModel,
};
use crate::log_query::{LogQueryModel, RecordModel};
use crate::log_service::{
    all_frames, append_frames, hot_answers, query_frames, same_but_partition, share_page,
    stripe_matches,
};
use crate::log_stripe::{IndexedFrameAppend, LogStripe};
use crate::order::{comes_before, lemma_order_exists, order_of, sorting_permutes};
use crate::record::ShardId;
use crate::stripe_query::{page, rank, ranks};

verus! {

broadcast use vstd::seq_lib::group_seq_properties;

/// What queries select of everything that a stripe holds, one query after the other.
pub open spec fn selected_by_all(stripe: LogStripe, queries: Seq<LogQueryModel>) -> Seq<
    RecordModel,
>
    decreases queries.len(),
{
    if queries.len() == 0 {
        Seq::empty()
    } else {
        selected_by_all(stripe, queries.drop_last()) + selected(
            visible(stripe, queries.last().partition),
            queries.last(),
        )
    }
}

/// No two records have the same place in the order of a query.
pub open spec fn ranks_differ(query: LogQueryModel, records: Seq<RecordModel>) -> bool {
    forall|i: int, j: int|
        0 <= i < j < records.len() ==> rank(query, #[trigger] records[i]) != rank(
            query,
            #[trigger] records[j],
        )
}

/// Records that the order of a query tells apart.
spec fn told_apart(query: LogQueryModel, records: Multiset<RecordModel>) -> bool {
    &&& forall|record: RecordModel| #[trigger] records.count(record) <= 1
    &&& forall|a: RecordModel, b: RecordModel|
        #[trigger] records.count(a) > 0 && #[trigger] records.count(b) > 0 && rank(query, a)
            == rank(query, b) ==> a == b
}

proof fn lemma_told_apart(query: LogQueryModel, records: Seq<RecordModel>)
    ensures
        ranks_differ(query, records) ==> told_apart(query, records.to_multiset()),
        told_apart(query, records.to_multiset()) ==> ranks_differ(query, records),
{
    broadcast use vstd::seq_lib::group_to_multiset_ensures;

    let bag = records.to_multiset();
    if ranks_differ(query, records) {
        assert(records.no_duplicates()) by {
            assert forall|i: int, j: int|
                0 <= i < records.len() && 0 <= j < records.len() && i != j implies records[i]
                != records[j] by {
                if i < j {
                    assert(rank(query, records[i]) != rank(query, records[j]));
                } else {
                    assert(rank(query, records[j]) != rank(query, records[i]));
                }
            }
        }
        records.lemma_multiset_has_no_duplicates();
        assert forall|record: RecordModel| #[trigger] bag.count(record) <= 1 by {
            if bag.count(record) > 0 {
                assert(bag.contains(record));
            }
        }
        assert forall|a: RecordModel, b: RecordModel|
            #[trigger] bag.count(a) > 0 && #[trigger] bag.count(b) > 0 && rank(query, a) == rank(
                query,
                b,
            ) implies a == b by {
            assert(records.contains(a) && records.contains(b));
            let i = choose|i: int| 0 <= i < records.len() && records[i] == a;
            let j = choose|j: int| 0 <= j < records.len() && records[j] == b;
            if i < j {
                assert(rank(query, records[i]) != rank(query, records[j]));
            } else if j < i {
                assert(rank(query, records[j]) != rank(query, records[i]));
            }
        }
    }
    if told_apart(query, bag) {
        assert forall|record: RecordModel| bag.contains(record) implies bag.count(record) == 1 by {
            assert(bag.count(record) <= 1);
        }
        records.lemma_multiset_has_no_duplicates_conv();
        assert forall|i: int, j: int| 0 <= i < j < records.len() implies rank(
            query,
            #[trigger] records[i],
        ) != rank(query, #[trigger] records[j]) by {
            assert(records.contains(records[i]) && records.contains(records[j]));
            assert(bag.count(records[i]) > 0 && bag.count(records[j]) > 0);
            assert(records[i] != records[j]);
        }
    }
}

proof fn lemma_sorted_rises(query: LogQueryModel, records: Seq<RecordModel>)
    requires
        records.len() <= usize::MAX,
        ranks_differ(query, records),
    ensures
        ranks_rise(query, page(query, records, None)),
        page(query, records, None).to_multiset() == records.to_multiset(),
{
    let places = ranks(query, records);
    let order = order_of(places);
    let sorted = page(query, records, None);
    sorting_permutes(records, places);
    lemma_order_exists(places);
    assert forall|i: int, j: int| 0 <= i < j < sorted.len() implies rank(
        query,
        #[trigger] sorted[i],
    ) < rank(query, #[trigger] sorted[j]) by {
        let a = order[i] as int;
        let b = order[j] as int;
        assert(comes_before(places, a, b));
        assert(sorted[i] == records[a] && sorted[j] == records[b]);
        if a < b {
            assert(rank(query, records[a]) != rank(query, records[b]));
        } else {
            assert(rank(query, records[b]) != rank(query, records[a]));
        }
    }
}

/// A page of records that the order tells apart does not depend on how they are listed.
proof fn lemma_page_of_bag(
    query: LogQueryModel,
    left: Seq<RecordModel>,
    right: Seq<RecordModel>,
    limit: Option<usize>,
)
    requires
        left.len() <= usize::MAX,
        left.to_multiset() == right.to_multiset(),
        told_apart(query, left.to_multiset()),
    ensures
        page(query, left, limit) == page(query, right, limit),
{
    broadcast use vstd::seq_lib::group_to_multiset_ensures;

    lemma_told_apart(query, left);
    lemma_told_apart(query, right);
    assert(left.len() == left.to_multiset().len());
    assert(right.len() == right.to_multiset().len());
    lemma_sorted_rises(query, left);
    lemma_sorted_rises(query, right);
    let first = page(query, left, None);
    let second = page(query, right, None);
    assert forall|record: RecordModel| first.contains(record) == second.contains(record) by {
        assert(first.contains(record) <==> first.to_multiset().count(record) > 0);
        assert(second.contains(record) <==> second.to_multiset().count(record) > 0);
    }
    lemma_rank_order_unique(query, first, second);
}

proof fn lemma_bag_concat(left: Seq<RecordModel>, right: Seq<RecordModel>)
    ensures
        (left + right).to_multiset() == left.to_multiset().add(right.to_multiset()),
{
    vstd::seq_lib::lemma_multiset_commutative(left, right);
}

/// A page holds some of its records, each as often as they do at most.
proof fn lemma_page_bag(query: LogQueryModel, records: Seq<RecordModel>, limit: usize)
    requires
        records.len() <= usize::MAX,
    ensures
        page(query, records, Some(limit)).to_multiset().subset_of(records.to_multiset()),
        page(query, records, Some(limit)).len() <= records.len(),
{
    let sorted = page(query, records, None);
    let kept = page(query, records, Some(limit));
    sorting_permutes(records, ranks(query, records));
    let rest = sorted.subrange(kept.len() as int, sorted.len() as int);
    assert(sorted =~= kept + rest);
    lemma_bag_concat(kept, rest);
}

/// What queries select among the hot records, one query after the other.
pub open spec fn hot_selected(stripe: LogStripe, queries: Seq<LogQueryModel>) -> Seq<RecordModel>
    decreases queries.len(),
{
    if queries.len() == 0 {
        Seq::empty()
    } else {
        hot_selected(stripe, queries.drop_last()) + selected(
            hot_documents(stripe.model(queries.last().partition)),
            queries.last(),
        )
    }
}

/// What queries select in compressed appends, one query after the other.
pub open spec fn cold_selected(stripe: LogStripe, queries: Seq<LogQueryModel>) -> Seq<RecordModel>
    decreases queries.len(),
{
    if queries.len() == 0 {
        Seq::empty()
    } else {
        cold_selected(stripe, queries.drop_last()) + selected(
            installed_documents(
                stripe.stream_shard_id,
                stripe.appends@,
                queries.last().partition,
            ),
            queries.last(),
        )
    }
}

pub proof fn lemma_all_bag(stripe: LogStripe, queries: Seq<LogQueryModel>)
    ensures
        selected_by_all(stripe, queries).to_multiset() == hot_selected(
            stripe,
            queries,
        ).to_multiset().add(cold_selected(stripe, queries).to_multiset()),
        selected_by_all(stripe, queries).len() == hot_selected(stripe, queries).len()
            + cold_selected(stripe, queries).len(),
    decreases queries.len(),
{
    if queries.len() == 0 {
        let none = Seq::<RecordModel>::empty();
        lemma_bag_concat(none, none);
        assert(none + none =~= none);
    } else {
        let front = queries.drop_last();
        let query = queries.last();
        let hot = hot_documents(stripe.model(query.partition));
        let cold = installed_documents(stripe.stream_shard_id, stripe.appends@, query.partition);
        lemma_all_bag(stripe, front);
        lemma_selected_concat(hot, cold, query);
        lemma_bag_concat(
            selected_by_all(stripe, front),
            selected(visible(stripe, query.partition), query),
        );
        lemma_bag_concat(selected(hot, query), selected(cold, query));
        lemma_bag_concat(hot_selected(stripe, front), selected(hot, query));
        lemma_bag_concat(cold_selected(stripe, front), selected(cold, query));
        assert(selected_by_all(stripe, queries).to_multiset() =~= hot_selected(
            stripe,
            queries,
        ).to_multiset().add(cold_selected(stripe, queries).to_multiset()));
    }
}

pub proof fn lemma_page_alike(
    left: LogQueryModel,
    right: LogQueryModel,
    records: Seq<RecordModel>,
    limit: Option<usize>,
)
    requires
        same_but_partition(left, right),
    ensures
        page(left, records, limit) == page(right, records, limit),
{
    assert(ranks(left, records) =~= ranks(right, records));
}

/// Whether queries differ from one query in their partition alone.
pub open spec fn all_alike(base: LogQueryModel, queries: Seq<LogQueryModel>) -> bool {
    forall|i: int| 0 <= i < queries.len() ==> same_but_partition(base, #[trigger] queries[i])
}

/// Cutting the hot answers of the partitions to a page each loses nothing of the page of all.
proof fn lemma_hot_pages(
    stripe: LogStripe,
    base: LogQueryModel,
    queries: Seq<LogQueryModel>,
    further: Seq<RecordModel>,
    limit: usize,
)
    requires
        stripe.well_formed(),
        base.limit == Some(limit),
        all_alike(base, queries),
        hot_selected(stripe, queries).len() + further.len() <= usize::MAX,
        told_apart(base, (hot_selected(stripe, queries) + further).to_multiset()),
    ensures
        page(base, hot_answers(stripe, queries) + further, Some(limit)) == page(
            base,
            hot_selected(stripe, queries) + further,
            Some(limit),
        ),
        hot_answers(stripe, queries).len() <= hot_selected(stripe, queries).len(),
    decreases queries.len(),
{
    if queries.len() > 0 {
        let front = queries.drop_last();
        let query = queries.last();
        let model = stripe.model(query.partition);
        let found = selected(hot_documents(model), query);
        let kept = page(base, found, Some(limit));
        let early = hot_selected(stripe, front);
        assert(queries[queries.len() - 1] == query);
        assert(all_alike(base, front)) by {
            assert forall|i: int| 0 <= i < front.len() implies same_but_partition(
                base,
                #[trigger] front[i],
            ) by {
                assert(front[i] == queries[i]);
            }
        }
        crate::log_stripe::lemma_partition_place(stripe.partitions@, query.partition, 0);
        lemma_answer_is_page(model, query);
        lemma_page_alike(base, query, found, Some(limit));
        lemma_page_bag(base, found, limit);
        let all = (early + found) + further;
        let cut = early + (kept + further);
        lemma_bag_concat(early + found, further);
        lemma_bag_concat(early, found);
        lemma_bag_concat(early, kept + further);
        lemma_bag_concat(kept, further);
        assert(told_apart(base, cut.to_multiset())) by {
            assert forall|record: RecordModel| #[trigger] cut.to_multiset().count(record)
                <= all.to_multiset().count(record) by {
                assert(kept.to_multiset().count(record) <= found.to_multiset().count(record));
            }
            assert forall|record: RecordModel| #[trigger] cut.to_multiset().count(record) <= 1 by {
                assert(all.to_multiset().count(record) <= 1);
            }
            assert forall|a: RecordModel, b: RecordModel|
                #[trigger] cut.to_multiset().count(a) > 0 && #[trigger] cut.to_multiset().count(b)
                    > 0 && rank(base, a) == rank(base, b) implies a == b by {
                assert(all.to_multiset().count(a) > 0 && all.to_multiset().count(b) > 0);
            }
        }
        lemma_hot_pages(stripe, base, front, kept + further, limit);
        assert(hot_answers(stripe, queries) + further =~= hot_answers(stripe, front) + (kept
            + further));
        let moved = kept + (early + further);
        lemma_bag_concat(kept, early + further);
        lemma_bag_concat(early, further);
        assert(cut.to_multiset() =~= moved.to_multiset());
        lemma_page_of_bag(base, cut, moved, Some(limit));
        page_absorbs_records(base, found, early + further, limit);
        let whole = found + (early + further);
        lemma_bag_concat(found, early + further);
        assert(whole.to_multiset() =~= all.to_multiset());
        lemma_page_of_bag(base, all, whole, Some(limit));
    } else {
        assert(hot_answers(stripe, queries) + further =~= hot_selected(stripe, queries) + further);
    }
}

pub proof fn lemma_frame_records_concat(left: Seq<FrameModel>, right: Seq<FrameModel>)
    ensures
        frame_records(left + right) == frame_records(left) + frame_records(right),
    decreases right.len(),
{
    if right.len() == 0 {
        assert(left + right =~= left);
        assert(frame_records(left) + frame_records(right) =~= frame_records(left));
    } else {
        lemma_frame_records_concat(left, right.drop_last());
        assert((left + right).drop_last() =~= left + right.drop_last());
        assert((left + right).last() == right.last());
        assert(frame_records(left + right) =~= frame_records(left) + frame_records(right));
    }
}

proof fn lemma_append_frames(
    shard: ShardId,
    append: IndexedFrameAppend,
    query: LogQueryModel,
    count: int,
)
    requires
        0 <= count <= append.frames@.len(),
    ensures
        frame_records(append_frames(shard, append, query, count)) == frames_found(
            shard,
            append,
            query,
            count,
        ),
    decreases count,
{
    if count > 0 {
        lemma_append_frames(shard, append, query, count - 1);
        let all = append_frames(shard, append, query, count);
        let front = append_frames(shard, append, query, count - 1);
        if all != front {
            assert(all.drop_last() =~= front);
        }
    }
}

pub proof fn lemma_query_frames(
    shard: ShardId,
    appends: Seq<IndexedFrameAppend>,
    query: LogQueryModel,
)
    ensures
        frame_records(query_frames(shard, appends, query)) == appends_found(shard, appends, query),
    decreases appends.len(),
{
    if appends.len() > 0 {
        let front = appends.drop_last();
        let last = appends.last();
        lemma_query_frames(shard, front, query);
        if append_in_reach(last, query) {
            let total = last.frames@.len() as int;
            lemma_append_frames(shard, last, query, total);
            lemma_frame_records_concat(
                query_frames(shard, front, query),
                append_frames(shard, last, query, total),
            );
        }
    }
}

pub proof fn lemma_all_frames(stripe: LogStripe, queries: Seq<LogQueryModel>)
    requires
        stripe.well_formed(),
        all_covered(stripe.appends@),
    ensures
        frame_records(all_frames(stripe, queries)) == cold_selected(stripe, queries),
    decreases queries.len(),
{
    if queries.len() > 0 {
        let front = queries.drop_last();
        let query = queries.last();
        lemma_all_frames(stripe, front);
        lemma_query_frames(stripe.stream_shard_id, stripe.appends@, query);
        lemma_appends_exact(stripe.stream_shard_id, stripe.appends@, query);
        lemma_frame_records_concat(
            all_frames(stripe, front),
            query_frames(stripe.stream_shard_id, stripe.appends@, query),
        );
    }
}

proof fn lemma_frames_without(frames: Seq<FrameModel>, k: int)
    requires
        0 <= k < frames.len(),
    ensures
        frame_records(frames).to_multiset() == frame_records(
            frames.remove(k),
        ).to_multiset().add(frames[k].records.to_multiset()),
{
    let before = frames.subrange(0, k);
    let after = frames.subrange(k + 1, frames.len() as int);
    let one = seq![frames[k]];
    assert(frames =~= before + (one + after));
    assert(frames.remove(k) =~= before + after);
    assert(one.drop_last() =~= Seq::<FrameModel>::empty());
    assert(frame_records(one.drop_last()) =~= Seq::<RecordModel>::empty());
    assert(one.last() == frames[k]);
    assert(frame_records(one) =~= frames[k].records);
    lemma_frame_records_concat(before, one + after);
    lemma_frame_records_concat(one, after);
    lemma_frame_records_concat(before, after);
    lemma_bag_concat(frame_records(before), frame_records(one + after));
    lemma_bag_concat(frame_records(one), frame_records(after));
    lemma_bag_concat(frame_records(before), frame_records(after));
    assert(frame_records(frames).to_multiset() =~= frame_records(
        frames.remove(k),
    ).to_multiset().add(frames[k].records.to_multiset()));
}

/// The records of frames do not depend on how the frames are listed.
pub proof fn lemma_frames_bag(left: Seq<FrameModel>, right: Seq<FrameModel>)
    requires
        left.to_multiset() == right.to_multiset(),
    ensures
        frame_records(left).to_multiset() == frame_records(right).to_multiset(),
    decreases left.len(),
{
    broadcast use vstd::seq_lib::group_to_multiset_ensures;

    assert(left.len() == left.to_multiset().len());
    assert(right.len() == right.to_multiset().len());
    if left.len() == 0 {
        assert(left =~= right);
    } else {
        let last = left.last();
        assert(left.contains(last));
        assert(right.to_multiset().count(last) > 0);
        assert(right.contains(last));
        let k = choose|k: int| 0 <= k < right.len() && right[k] == last;
        let front = left.drop_last();
        assert(left.remove(left.len() - 1) =~= front);
        assert(front.to_multiset() =~= right.remove(k).to_multiset());
        lemma_frames_bag(front, right.remove(k));
        lemma_frames_without(left, left.len() - 1);
        lemma_frames_without(right, k);
    }
}

/// Partitions that are read at once share one page: whatever lies in hot records and in
/// compressed appends, the matches are the first of everything that the queries select, in
/// their order and up to their one limit. Records of different partitions with the same
/// time and offset are left out: nothing orders them.
pub proof fn partitions_share_one_page(stripe: LogStripe, queries: Seq<LogQueryModel>)
    requires
        stripe.well_formed(),
        all_covered(stripe.appends@),
        share_page(queries),
        selected_by_all(stripe, queries).len() <= usize::MAX,
        all_frames(stripe, queries).len() <= usize::MAX,
        ranks_differ(queries[0], selected_by_all(stripe, queries)),
    ensures
        stripe_matches(stripe, queries) == page(
            queries[0],
            selected_by_all(stripe, queries),
            queries[0].limit,
        ),
{
    let base = queries[0];
    let limit = base.limit->0;
    let frames = all_frames(stripe, queries);
    let listed = frames_in_order(base, frames);
    let hot = hot_selected(stripe, queries);
    let cold = cold_selected(stripe, queries);
    let all = selected_by_all(stripe, queries);
    let further = frame_records(listed);
    assert(all_alike(base, queries));
    lemma_all_bag(stripe, queries);
    lemma_told_apart(base, all);
    lemma_all_frames(stripe, queries);
    sorting_permutes(frames, frame_keys(base, frames));
    lemma_frames_bag(listed, frames);
    vstd::seq_lib::to_multiset_len(further);
    vstd::seq_lib::to_multiset_len(cold);
    lemma_bag_concat(hot, further);
    lemma_bag_concat(hot, cold);
    assert((hot + further).to_multiset() == all.to_multiset());
    lemma_hot_pages(stripe, base, queries, further, limit);
    frames_merge_exactly(base, hot_answers(stripe, queries), listed, limit);
    vstd::seq_lib::to_multiset_len(hot + further);
    vstd::seq_lib::to_multiset_len(all);
    lemma_page_of_bag(base, hot + further, all, Some(limit));
}

} // verus!
