//! Queries over several partitions at once.
use vstd::prelude::*;

use crate::codec::same_text;
use crate::frame_query::{
    append_in_reach, frame_found, frames_in_order, frames_view, lemma_frame_found, merge_frames,
    page_after, stripe_answer, FrameMatches, FrameModel,
};
use crate::labels::pairs_view;
use crate::log_predicate::same_predicates;
use crate::log_query::{
    records_view, search_forms, DurableLogRecord, LogQuery, LogQueryModel, QuerySort, RecordModel,
};
use crate::log_stripe::{IndexedFrameAppend, LogStripe};
use crate::record::ShardId;
use crate::stripe_query::{
    append_matches_query_bounds, frame_matches_query_bounds, frame_overlaps, merged, query_answer,
    ShardLogDb,
};
use crate::text::{normal_term, normalize_term};

verus! {

broadcast use vstd::seq_lib::group_seq_properties;

/// Values of queries.
pub open spec fn queries_view(queries: Seq<LogQuery>) -> Seq<LogQueryModel> {
    queries.map_values(|query: LogQuery| query@)
}

/// Whether a query differs from another one in its partition alone.
pub open spec fn same_but_partition(left: LogQueryModel, right: LogQueryModel) -> bool {
    right == (LogQueryModel { partition: right.partition, ..left })
}

fn same_terms(left: &Vec<String>, right: &Vec<String>) -> (same: bool)
    ensures
        same == (search_forms(left@) == search_forms(right@)),
{
    let ghost l = search_forms(left@);
    let ghost r = search_forms(right@);
    if left.len() != right.len() {
        proof {
            assert(l.len() != r.len());
        }
        return false;
    }
    let mut index: usize = 0;
    while index < left.len()
        invariant
            index <= left@.len(),
            left@.len() == right@.len(),
            l == search_forms(left@),
            r == search_forms(right@),
            forall|i: int| 0 <= i < index ==> l[i] == r[i],
        decreases left@.len() - index,
    {
        proof {
            assert(l[index as int] == normal_term(left@[index as int]@));
            assert(r[index as int] == normal_term(right@[index as int]@));
        }
        if !same_text(&normalize_term(&left[index]), &normalize_term(&right[index])) {
            return false;
        }
        index = index + 1;
    }
    proof {
        assert(l =~= r);
    }
    true
}

fn same_pairs(left: &Vec<(String, String)>, right: &Vec<(String, String)>) -> (same: bool)
    ensures
        same == (pairs_view(left@) == pairs_view(right@)),
{
    let ghost l = pairs_view(left@);
    let ghost r = pairs_view(right@);
    if left.len() != right.len() {
        proof {
            assert(l.len() != r.len());
        }
        return false;
    }
    let mut index: usize = 0;
    while index < left.len()
        invariant
            index <= left@.len(),
            left@.len() == right@.len(),
            l == pairs_view(left@),
            r == pairs_view(right@),
            forall|i: int| 0 <= i < index ==> l[i] == r[i],
        decreases left@.len() - index,
    {
        proof {
            assert(l[index as int] == (left@[index as int].0@, left@[index as int].1@));
            assert(r[index as int] == (right@[index as int].0@, right@[index as int].1@));
        }
        if !same_text(&left[index].0, &right[index].0) || !same_text(
            &left[index].1,
            &right[index].1,
        ) {
            return false;
        }
        index = index + 1;
    }
    proof {
        assert(l =~= r);
    }
    true
}

/// Whether a query differs from another one in its partition alone.
pub fn same_query_across_partition(left: &LogQuery, right: &LogQuery) -> (same: bool)
    ensures
        same == same_but_partition(left@, right@),
{
    same_terms(&left.terms, &right.terms) && same_pairs(&left.fields, &right.fields)
        && same_predicates(&left.predicates, &right.predicates)
        && left.start_offset == right.start_offset && left.end_offset == right.end_offset
        && left.start_timestamp_unix_nanos == right.start_timestamp_unix_nanos
        && left.end_timestamp_unix_nanos == right.end_timestamp_unix_nanos && left.sort
        == right.sort && left.order == right.order && left.limit == right.limit && left.after
        == right.after
}

/// Answers of a stripe to queries, one after the other.
pub open spec fn partition_answers(stripe: LogStripe, queries: Seq<LogQueryModel>) -> Seq<
    RecordModel,
>
    decreases queries.len(),
{
    if queries.len() == 0 {
        Seq::empty()
    } else {
        partition_answers(stripe, queries.drop_last()) + stripe_answer(stripe, queries.last())
    }
}

/// Whether queries share one page: a limit, time order, and nothing but the partition
/// differs.
pub open spec fn share_page(queries: Seq<LogQueryModel>) -> bool {
    &&& queries.len() > 0
    &&& queries[0].limit is Some
    &&& queries[0].sort == QuerySort::Timestamp
    &&& forall|i: int|
        0 <= i < queries.len() ==> same_but_partition(queries[0], #[trigger] queries[i])
}

/// Hot records that queries find, one query after the other.
pub open spec fn hot_answers(stripe: LogStripe, queries: Seq<LogQueryModel>) -> Seq<RecordModel>
    decreases queries.len(),
{
    if queries.len() == 0 {
        Seq::empty()
    } else {
        hot_answers(stripe, queries.drop_last()) + query_answer(
            stripe.model(queries.last().partition),
            queries.last(),
        )
    }
}

/// What a query finds in the first `count` frames of an append, frame by frame.
pub open spec fn append_frames(
    shard: ShardId,
    append: IndexedFrameAppend,
    query: LogQueryModel,
    count: int,
) -> Seq<FrameModel>
    decreases count,
{
    if count <= 0 {
        Seq::empty()
    } else {
        let front = append_frames(shard, append, query, count - 1);
        let frame = append.frames@[count - 1];
        if frame_overlaps(
            query,
            frame.frame.min_timestamp_unix_nanos,
            frame.frame.max_timestamp_unix_nanos,
        ) {
            front.push(
                FrameModel {
                    min_timestamp: frame.frame.min_timestamp_unix_nanos,
                    max_timestamp: frame.frame.max_timestamp_unix_nanos,
                    records: frame_found(shard, append, frame, query),
                },
            )
        } else {
            front
        }
    }
}

/// What a query finds in compressed appends, frame by frame.
pub open spec fn query_frames(
    shard: ShardId,
    appends: Seq<IndexedFrameAppend>,
    query: LogQueryModel,
) -> Seq<FrameModel>
    decreases appends.len(),
{
    if appends.len() == 0 {
        Seq::empty()
    } else {
        let front = query_frames(shard, appends.drop_last(), query);
        let last = appends.last();
        if append_in_reach(last, query) {
            front + append_frames(shard, last, query, last.frames@.len() as int)
        } else {
            front
        }
    }
}

/// What queries find in the compressed appends of a stripe, frame by frame.
pub open spec fn all_frames(stripe: LogStripe, queries: Seq<LogQueryModel>) -> Seq<FrameModel>
    decreases queries.len(),
{
    if queries.len() == 0 {
        Seq::empty()
    } else {
        all_frames(stripe, queries.drop_last()) + query_frames(
            stripe.stream_shard_id,
            stripe.appends@,
            queries.last(),
        )
    }
}

/// Matches of a stripe for queries. Where they share one page, the frames are taken into
/// the page of the hot records in the order of their time ranges; else the answers follow
/// each other.
pub open spec fn stripe_matches(stripe: LogStripe, queries: Seq<LogQueryModel>) -> Seq<
    RecordModel,
> {
    if share_page(queries) {
        page_after(
            queries[0],
            hot_answers(stripe, queries),
            frames_in_order(queries[0], all_frames(stripe, queries)),
            queries[0].limit->0,
        )
    } else {
        partition_answers(stripe, queries)
    }
}

/// Whether queries share one page.
fn shares_page(queries: &Vec<LogQuery>) -> (shares: bool)
    ensures
        shares == share_page(queries_view(queries@)),
{
    let ghost models = queries_view(queries@);
    if queries.len() == 0 {
        return false;
    }
    proof {
        assert(models[0] == queries@[0]@);
    }
    if queries[0].limit.is_none() || queries[0].sort != QuerySort::Timestamp {
        return false;
    }
    let mut index: usize = 0;
    while index < queries.len()
        invariant
            0 < queries@.len(),
            index <= queries@.len(),
            models == queries_view(queries@),
            models[0] == queries@[0]@,
            forall|i: int| 0 <= i < index ==> same_but_partition(models[0], #[trigger] models[i]),
        decreases queries@.len() - index,
    {
        proof {
            assert(models[index as int] == queries@[index as int]@);
        }
        if !same_query_across_partition(&queries[0], &queries[index]) {
            proof {
                assert(!same_but_partition(models[0], models[index as int]));
            }
            return false;
        }
        index = index + 1;
    }
    true
}

impl LogStripe {
    /// Adds what a query finds in the frames of an append.
    fn append_matches(
        &self,
        query: &LogQuery,
        append: &IndexedFrameAppend,
        frames: &mut Vec<FrameMatches>,
    )
        requires
            append.well_formed(),
            all_in_bounds(old(frames)@),
        ensures
            all_in_bounds(final(frames)@),
            frames_view(final(frames)@) == frames_view(old(frames)@) + append_frames(
                self.stream_shard_id,
                *append,
                query@,
                append.frames@.len() as int,
            ),
    {
        let ghost before = frames_view(frames@);
        let ghost shard = self.stream_shard_id;
        let mut index: usize = 0;
        proof {
            assert(before + Seq::<FrameModel>::empty() =~= before);
        }
        while index < append.frames.len()
            invariant
                index <= append.frames@.len(),
                append.well_formed(),
                shard == self.stream_shard_id,
                all_in_bounds(frames@),
                frames_view(frames@) == before + append_frames(
                    shard,
                    *append,
                    query@,
                    index as int,
                ),
            decreases append.frames@.len() - index,
        {
            let frame = &append.frames[index];
            if frame_matches_query_bounds(query, &frame.frame) {
                let found = FrameMatches {
                    min_timestamp_unix_nanos: frame.frame.min_timestamp_unix_nanos,
                    max_timestamp_unix_nanos: frame.frame.max_timestamp_unix_nanos,
                    matches: self.query_indexed_frame(query, append, frame),
                };
                let ghost kept = frames@;
                proof {
                    lemma_frame_found(shard, *append, *frame, query@);
                    let front = append_frames(shard, *append, query@, index as int);
                    assert(found@.in_bounds());
                    assert(frames_view(kept.push(found)) =~= frames_view(kept).push(found@));
                    assert((before + front).push(found@) =~= before + front.push(found@));
                }
                frames.push(found);
                proof {
                    assert forall|i: int| 0 <= i < frames@.len() implies (
                    #[trigger] frames@[i])@.in_bounds() by {
                        if i < kept.len() {
                            assert(frames@[i] == kept[i]);
                        }
                    }
                }
            }
            index = index + 1;
        }
    }

    /// Adds what a query finds in the compressed appends of its partition.
    fn frame_matches(&self, query: &LogQuery, frames: &mut Vec<FrameMatches>)
        requires
            self.well_formed(),
            all_in_bounds(old(frames)@),
        ensures
            all_in_bounds(final(frames)@),
            frames_view(final(frames)@) == frames_view(old(frames)@) + query_frames(
                self.stream_shard_id,
                self.appends@,
                query@,
            ),
    {
        let ghost before = frames_view(frames@);
        let mut index: usize = 0;
        proof {
            assert(self.appends@.subrange(0, 0) =~= Seq::<IndexedFrameAppend>::empty());
            assert(before + Seq::<FrameModel>::empty() =~= before);
        }
        while index < self.appends.len()
            invariant
                index <= self.appends@.len(),
                self.well_formed(),
                all_in_bounds(frames@),
                frames_view(frames@) == before + query_frames(
                    self.stream_shard_id,
                    self.appends@.subrange(0, index as int),
                    query@,
                ),
            decreases self.appends@.len() - index,
        {
            let append = &self.appends[index];
            let ghost front = query_frames(
                self.stream_shard_id,
                self.appends@.subrange(0, index as int),
                query@,
            );
            proof {
                let part = self.appends@.subrange(0, index + 1);
                assert(part.drop_last() =~= self.appends@.subrange(0, index as int));
                assert(part.last() == *append);
            }
            if append.topic_partition == query.topic_partition && append_matches_query_bounds(
                query,
                append,
            ) {
                self.append_matches(query, append, frames);
                proof {
                    let added = append_frames(
                        self.stream_shard_id,
                        *append,
                        query@,
                        append.frames@.len() as int,
                    );
                    assert(before + front + added =~= before + (front + added));
                }
            }
            index = index + 1;
        }
        proof {
            assert(self.appends@.subrange(0, index as int) =~= self.appends@);
        }
    }

    /// The one page of queries that share it.
    fn query_page(&self, queries: &Vec<LogQuery>, limit: usize) -> (matches: Vec<DurableLogRecord>)
        requires
            self.well_formed(),
            share_page(queries_view(queries@)),
            queries@[0].limit == Some(limit),
        ensures
            records_view(matches@) == stripe_matches(*self, queries_view(queries@)),
    {
        let ghost models = queries_view(queries@);
        let mut hot: Vec<DurableLogRecord> = Vec::new();
        let mut frames: Vec<FrameMatches> = Vec::new();
        let mut index: usize = 0;
        proof {
            assert(models[0] == queries@[0]@);
            assert(records_view(hot@) =~= hot_answers(*self, models.subrange(0, 0)));
            assert(frames_view(frames@) =~= all_frames(*self, models.subrange(0, 0)));
        }
        while index < queries.len()
            invariant
                self.well_formed(),
                index <= queries@.len(),
                models == queries_view(queries@),
                all_in_bounds(frames@),
                records_view(hot@) == hot_answers(*self, models.subrange(0, index as int)),
                frames_view(frames@) == all_frames(*self, models.subrange(0, index as int)),
            decreases queries@.len() - index,
        {
            let ghost before = hot@;
            let mut found = self.query_hot_matches(&queries[index]);
            let ghost added = found@;
            proof {
                let part = models.subrange(0, index + 1);
                assert(part.drop_last() =~= models.subrange(0, index as int));
                assert(part.last() == queries@[index as int]@);
            }
            hot.append(&mut found);
            proof {
                assert(records_view(hot@) =~= records_view(before) + records_view(added));
            }
            self.frame_matches(&queries[index], &mut frames);
            index = index + 1;
        }
        proof {
            assert(models.subrange(0, index as int) =~= models);
        }
        merge_frames(&queries[0], &hot, &frames, limit)
    }

    /// Matches for queries of several partitions.
    pub fn query_partitions(&self, queries: &Vec<LogQuery>) -> (matches: Vec<DurableLogRecord>)
        requires
            self.well_formed(),
        ensures
            records_view(matches@) == stripe_matches(*self, queries_view(queries@)),
    {
        if shares_page(queries) {
            proof {
                assert(queries_view(queries@)[0] == queries@[0]@);
            }
            match queries[0].limit {
                Some(limit) => return self.query_page(queries, limit),
                None => {},
            }
        }
        let ghost models = queries_view(queries@);
        let mut matches: Vec<DurableLogRecord> = Vec::new();
        let mut index: usize = 0;
        proof {
            assert(records_view(matches@) =~= partition_answers(*self, models.subrange(0, 0)));
        }
        while index < queries.len()
            invariant
                self.well_formed(),
                index <= queries@.len(),
                models == queries_view(queries@),
                records_view(matches@) == partition_answers(
                    *self,
                    models.subrange(0, index as int),
                ),
            decreases queries@.len() - index,
        {
            let ghost before = matches@;
            let mut found = self.query(&queries[index]);
            let ghost added = found@;
            proof {
                let part = models.subrange(0, index + 1);
                assert(part.drop_last() =~= models.subrange(0, index as int));
                assert(part.last() == queries@[index as int]@);
            }
            matches.append(&mut found);
            proof {
                assert(records_view(matches@) =~= records_view(before) + records_view(added));
            }
            index = index + 1;
        }
        proof {
            assert(models.subrange(0, index as int) =~= models);
        }
        matches
    }
}

/// All records of frames lie in the time ranges of their frames.
spec fn all_in_bounds(frames: Seq<FrameMatches>) -> bool {
    forall|i: int| 0 <= i < frames.len() ==> (#[trigger] frames[i])@.in_bounds()
}

/// Matches of stripes for queries, one stripe after the other.
pub open spec fn all_matches(stripes: Seq<LogStripe>, queries: Seq<LogQueryModel>) -> Seq<
    RecordModel,
>
    decreases stripes.len(),
{
    if stripes.len() == 0 {
        Seq::empty()
    } else {
        all_matches(stripes.drop_last(), queries) + stripe_matches(stripes.last(), queries)
    }
}

/// The answer to queries of several partitions: in the order and up to the limit of the
/// first one.
pub open spec fn partitions_answer(stripes: Seq<LogStripe>, queries: Seq<LogQueryModel>) -> Seq<
    RecordModel,
> {
    if queries.len() == 0 {
        Seq::empty()
    } else {
        merged(all_matches(stripes, queries), queries[0])
    }
}

impl ShardLogDb {
    /// Fans queries of several partitions across every stripe and merges the results.
    pub fn query_partitions(&self, queries: &Vec<LogQuery>) -> (matches: Vec<DurableLogRecord>)
        requires
            self.well_formed(),
        ensures
            records_view(matches@) == partitions_answer(self.stripes@, queries_view(queries@)),
    {
        let ghost models = queries_view(queries@);
        let mut all: Vec<DurableLogRecord> = Vec::new();
        if queries.len() == 0 {
            proof {
                assert(records_view(all@) =~= Seq::<RecordModel>::empty());
            }
            return all;
        }
        let mut index: usize = 0;
        proof {
            assert(records_view(all@) =~= all_matches(self.stripes@.subrange(0, 0), models));
        }
        while index < self.stripes.len()
            invariant
                self.well_formed(),
                index <= self.stripes@.len(),
                models == queries_view(queries@),
                records_view(all@) == all_matches(
                    self.stripes@.subrange(0, index as int),
                    models,
                ),
            decreases self.stripes@.len() - index,
        {
            let ghost before = all@;
            let mut found = self.stripes[index].query_partitions(queries);
            let ghost added = found@;
            proof {
                let part = self.stripes@.subrange(0, index + 1);
                assert(part.drop_last() =~= self.stripes@.subrange(0, index as int));
                assert(part.last() == self.stripes@[index as int]);
            }
            all.append(&mut found);
            proof {
                assert(records_view(all@) =~= records_view(before) + records_view(added));
            }
            index = index + 1;
        }
        proof {
            assert(self.stripes@.subrange(0, index as int) =~= self.stripes@);
            assert(models[0] == queries@[0]@);
        }
        crate::stripe_query::merge_matches(&all, &queries[0])
    }
}

} // verus!
