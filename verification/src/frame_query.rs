//! Queries over compressed frames: candidates, selected records, and the merge of
//! frames into a page.
use vstd::prelude::*;

use crate::frame_install::{
    find_postings, frame_fault, index_sound, lemma_postings_sound, ordinals_below, postings_of,
    time_outside, FramePosting, InstalledFrame,
};
use crate::log_query::{
    records_view, DurableLogRecord, LogQuery, LogQueryModel, QuerySort, RecordModel,
};
use crate::log_stripe::{IndexedFrameAppend, LogStripe};
use crate::native_query::strings_view;
use crate::order::{
    arranged, comes_before, is_order, lemma_order_exists, lemma_order_of_sorted, lemma_order_push,
    order_of, stable_order,
};
use crate::posting::{
    common, intersect_frame_candidates, limited, narrowed, rising, span, QueryOrder,
};
use crate::record::ShardId;
use crate::stripe_query::{
    append_matches_query_bounds, append_overlaps, fits_query, frame_matches_query_bounds,
    frame_overlaps,
    frame_record, full_page_is_final, page, query_answer, rank, ranks,
    skipped_frame_ranks_behind, sort_and_limit_matches,
};
use crate::text::normalize_term;

verus! {

broadcast use vstd::seq_lib::group_seq_properties;

/// Candidates after constraints; `None` stands for all records.
pub open spec fn candidates_after(lists: Seq<Seq<u32>>) -> Option<Seq<u32>>
    decreases lists.len(),
{
    if lists.len() == 0 {
        None
    } else {
        Some(narrowed(candidates_after(lists.drop_last()), lists.last()))
    }
}

/// Values of lists of ordinals.
pub open spec fn lists_view(lists: Seq<Vec<u32>>) -> Seq<Seq<u32>> {
    lists.map_values(|list: Vec<u32>| list@)
}

/// Candidate records of a frame: those in all posting lists of the required terms and
/// fields, or all records where nothing is required.
pub open spec fn frame_candidates_of(lists: Seq<Seq<u32>>, record_count: u32) -> Seq<u32> {
    match candidates_after(lists) {
        Some(found) => found,
        None => span(0, record_count - 1),
    }
}

proof fn lemma_empty_stays(lists: Seq<Seq<u32>>, n: int)
    requires
        0 < n <= lists.len(),
        candidates_after(lists.subrange(0, n)) == Some(Seq::<u32>::empty()),
    ensures
        candidates_after(lists) == Some(Seq::<u32>::empty()),
    decreases lists.len(),
{
    if n < lists.len() {
        assert(lists.drop_last().subrange(0, n) =~= lists.subrange(0, n));
        lemma_empty_stays(lists.drop_last(), n);
        assert(common(Seq::<u32>::empty(), lists.last()) =~= Seq::<u32>::empty());
    } else {
        assert(lists.subrange(0, n) =~= lists);
    }
}

pub(crate) fn clone_list(list: &Vec<u32>) -> (copy: Vec<u32>)
    ensures
        copy@ == list@,
{
    let mut copy: Vec<u32> = Vec::new();
    let mut index: usize = 0;
    while index < list.len()
        invariant
            index <= list@.len(),
            copy@ == list@.subrange(0, index as int),
        decreases list@.len() - index,
    {
        proof {
            assert(list@.subrange(0, index + 1) =~= list@.subrange(0, index as int).push(
                list@[index as int],
            ));
        }
        copy.push(list[index]);
        index = index + 1;
    }
    proof {
        assert(list@.subrange(0, index as int) =~= list@);
    }
    copy
}

/// Candidate records of a frame, given the posting list of each required term and
/// field.
pub fn frame_candidates(lists: &Vec<Vec<u32>>, record_count: u32) -> (candidates: Vec<u32>)
    requires
        forall|i: int| 0 <= i < lists@.len() ==> rising((#[trigger] lists@[i])@),
    ensures
        candidates@ == frame_candidates_of(lists_view(lists@), record_count),
{
    let ghost models = lists_view(lists@);
    if lists.len() == 0 {
        let mut all: Vec<u32> = Vec::new();
        let mut next: u32 = 0;
        proof {
            assert(all@ =~= span(0, next - 1));
        }
        while next < record_count
            invariant
                next <= record_count,
                all@ == span(0, next - 1),
            decreases record_count - next,
        {
            all.push(next);
            proof {
                assert(all@ =~= span(0, next as int));
            }
            next = next + 1;
        }
        return all;
    }
    let mut current = clone_list(&lists[0]);
    let mut index: usize = 1;
    proof {
        let part = models.subrange(0, 1);
        assert(part.drop_last() =~= Seq::<Seq<u32>>::empty());
        assert(part.last() == lists@[0]@);
        assert(candidates_after(part.drop_last()) is None);
        assert(candidates_after(part) == Some(current@));
    }
    while index < lists.len()
        invariant
            1 <= index <= lists@.len(),
            models == lists_view(lists@),
            forall|i: int| 0 <= i < lists@.len() ==> rising((#[trigger] lists@[i])@),
            rising(current@),
            candidates_after(models.subrange(0, index as int)) == Some(current@),
        decreases lists@.len() - index,
    {
        if current.len() == 0 {
            proof {
                assert(current@ =~= Seq::<u32>::empty());
                lemma_empty_stays(models, index as int);
            }
            return current;
        }
        proof {
            let part = models.subrange(0, index + 1);
            assert(part.drop_last() =~= models.subrange(0, index as int));
            assert(part.last() == lists@[index as int]@);
        }
        current = intersect_frame_candidates(Some(current), clone_list(&lists[index]));
        index = index + 1;
    }
    proof {
        assert(models.subrange(0, index as int) =~= models);
    }
    current
}

/// Posting lists that an index gives for the required terms and fields of a query.
pub open spec fn required_lists(index: Seq<FramePosting>, query: LogQueryModel) -> Seq<Seq<u32>> {
    query.terms.map_values(|term: Seq<char>| postings_of(index, Seq::empty(), term))
        + query.fields.map_values(
        |field: (Seq<char>, Seq<char>)| postings_of(index, field.0, field.1),
    )
}

/// Candidates of a frame for a query.
pub open spec fn candidates_for(frame: InstalledFrame, query: LogQueryModel) -> Seq<u32> {
    frame_candidates_of(required_lists(frame.index@, query), frame.frame.record_count)
}

/// The record at an ordinal of a frame.
pub open spec fn record_at(
    shard: ShardId,
    append: IndexedFrameAppend,
    frame: InstalledFrame,
    ordinal: int,
) -> RecordModel {
    frame_record(
        shard,
        append.topic_partition,
        append.first_offset,
        append.record_count,
        frame.frame.cohort,
        frame.records@[ordinal],
    )->Ok_0
}

/// The terms of the record at an ordinal of a frame.
pub open spec fn terms_at(frame: InstalledFrame, ordinal: int) -> Seq<Seq<char>> {
    strings_view(frame.terms@[ordinal]@)
}

/// Those of the first `count` candidates whose records a query selects.
pub open spec fn picked(
    shard: ShardId,
    append: IndexedFrameAppend,
    frame: InstalledFrame,
    query: LogQueryModel,
    candidates: Seq<u32>,
    count: int,
) -> Seq<u32>
    decreases count,
{
    if count <= 0 {
        Seq::empty()
    } else {
        let front = picked(shard, append, frame, query, candidates, count - 1);
        let ordinal = candidates[count - 1] as int;
        if query.selects(record_at(shard, append, frame, ordinal), terms_at(frame, ordinal)) {
            front.push(candidates[count - 1])
        } else {
            front
        }
    }
}

/// The records at ordinals of a frame.
pub open spec fn records_of(
    shard: ShardId,
    append: IndexedFrameAppend,
    frame: InstalledFrame,
    ordinals: Seq<u32>,
) -> Seq<RecordModel> {
    ordinals.map_values(|ordinal: u32| record_at(shard, append, frame, ordinal as int))
}

/// Records of a frame that a query selects among the candidates of the frame's index.
pub open spec fn frame_found(
    shard: ShardId,
    append: IndexedFrameAppend,
    frame: InstalledFrame,
    query: LogQueryModel,
) -> Seq<RecordModel> {
    let candidates = candidates_for(frame, query);
    records_of(
        shard,
        append,
        frame,
        picked(shard, append, frame, query, candidates, candidates.len() as int),
    )
}

/// Picked candidates are candidates whose records the query selects, in their order.
pub proof fn lemma_picked(
    shard: ShardId,
    append: IndexedFrameAppend,
    frame: InstalledFrame,
    query: LogQueryModel,
    candidates: Seq<u32>,
    count: int,
)
    requires
        rising(candidates),
        0 <= count <= candidates.len(),
    ensures
        ({
            let found = picked(shard, append, frame, query, candidates, count);
            &&& rising(found)
            &&& forall|ordinal: u32|
                #[trigger] found.contains(ordinal) <==> candidates.subrange(0, count).contains(
                    ordinal,
                ) && query.selects(
                    record_at(shard, append, frame, ordinal as int),
                    terms_at(frame, ordinal as int),
                )
        }),
    decreases count,
{
    let found = picked(shard, append, frame, query, candidates, count);
    if count > 0 {
        let front = picked(shard, append, frame, query, candidates, count - 1);
        let last = candidates[count - 1];
        let before = candidates.subrange(0, count - 1);
        let now = candidates.subrange(0, count);
        lemma_picked(shard, append, frame, query, candidates, count - 1);
        assert(now =~= before.push(last));
        assert forall|i: int| 0 <= i < front.len() implies #[trigger] front[i] < last by {
            assert(front.contains(front[i]));
            let k = choose|k: int| 0 <= k < before.len() && before[k] == front[i];
            assert(candidates[k] < candidates[count - 1]);
        }
        assert forall|ordinal: u32|
            #[trigger] found.contains(ordinal) <==> now.contains(ordinal) && query.selects(
                record_at(shard, append, frame, ordinal as int),
                terms_at(frame, ordinal as int),
            ) by {
            assert(now.contains(ordinal) <==> before.contains(ordinal) || ordinal == last) by {
                if before.contains(ordinal) {
                    let k = choose|k: int| 0 <= k < before.len() && before[k] == ordinal;
                    assert(now[k] == ordinal);
                }
                assert(now[count - 1] == last);
                if now.contains(ordinal) && ordinal != last {
                    let k = choose|k: int| 0 <= k < now.len() && now[k] == ordinal;
                    assert(before[k] == ordinal);
                }
            }
            if front.contains(ordinal) {
                let k = choose|k: int| 0 <= k < front.len() && front[k] == ordinal;
                assert(found[k] == ordinal);
            }
            if found.len() > front.len() {
                assert(found[front.len() as int] == last);
                if found.contains(ordinal) && ordinal != last {
                    let k = choose|k: int| 0 <= k < found.len() && found[k] == ordinal;
                    assert(front[k] == ordinal);
                }
            }
        }
    } else {
        assert(candidates.subrange(0, 0) =~= Seq::<u32>::empty());
    }
}

proof fn lemma_candidates_after(lists: Seq<Seq<u32>>, count: u32)
    requires
        forall|i: int|
            0 <= i < lists.len() ==> rising(#[trigger] lists[i]) && ordinals_below(lists[i], count),
    ensures
        candidates_after(lists) matches Some(found) ==> {
            &&& rising(found)
            &&& ordinals_below(found, count)
            &&& forall|ordinal: u32|
                #[trigger] found.contains(ordinal) <==> forall|i: int|
                    0 <= i < lists.len() ==> (#[trigger] lists[i]).contains(ordinal)
        },
        lists.len() > 0 ==> candidates_after(lists) is Some,
    decreases lists.len(),
{
    if lists.len() > 0 {
        let front = lists.drop_last();
        let last = lists.last();
        assert(lists[lists.len() - 1] == last);
        assert forall|i: int| 0 <= i < front.len() implies rising(#[trigger] front[i])
            && ordinals_below(front[i], count) by {
            assert(front[i] == lists[i]);
        }
        lemma_candidates_after(front, count);
        let found = candidates_after(lists)->0;
        match candidates_after(front) {
            Some(existing) => {
                lemma_common_is_meet(existing, last);
                assert forall|i: int| 0 <= i < found.len() implies #[trigger] found[i]
                    < count by {
                    assert(found.contains(found[i]));
                    let k = choose|k: int| 0 <= k < last.len() && last[k] == found[i];
                }
                assert forall|ordinal: u32|
                    #[trigger] found.contains(ordinal) <==> forall|i: int|
                        0 <= i < lists.len() ==> (#[trigger] lists[i]).contains(ordinal) by {
                    if found.contains(ordinal) {
                        assert forall|i: int| 0 <= i < lists.len() implies (
                        #[trigger] lists[i]).contains(ordinal) by {
                            if i < front.len() {
                                assert(front[i] == lists[i]);
                            }
                        }
                    }
                    if forall|i: int|
                        0 <= i < lists.len() ==> (#[trigger] lists[i]).contains(ordinal) {
                        assert forall|i: int| 0 <= i < front.len() implies (
                        #[trigger] front[i]).contains(ordinal) by {
                            assert(front[i] == lists[i]);
                        }
                        assert(existing.contains(ordinal));
                        assert(lists[lists.len() - 1].contains(ordinal));
                    }
                }
            },
            None => {
                assert(front.len() == 0);
                assert forall|ordinal: u32|
                    #[trigger] found.contains(ordinal) <==> forall|i: int|
                        0 <= i < lists.len() ==> (#[trigger] lists[i]).contains(ordinal) by {
                    assert(found == lists[0]);
                }
            },
        }
    }
}

proof fn lemma_common_is_meet(left: Seq<u32>, right: Seq<u32>)
    requires
        rising(left),
    ensures
        rising(common(left, right)),
        forall|ordinal: u32|
            #[trigger] common(left, right).contains(ordinal) <==> left.contains(ordinal)
                && right.contains(ordinal),
    decreases left.len(),
{
    let all = common(left, right);
    if left.len() > 0 {
        let front = left.drop_last();
        let last = left.last();
        let kept = common(front, right);
        assert(left[left.len() - 1] == last);
        assert(rising(front)) by {
            assert forall|i: int, j: int| 0 <= i < j < front.len() implies #[trigger] front[i]
                < #[trigger] front[j] by {
                assert(left[i] < left[j]);
            }
        }
        lemma_common_is_meet(front, right);
        assert forall|i: int| 0 <= i < kept.len() implies #[trigger] kept[i] < last by {
            assert(kept.contains(kept[i]));
            let k = choose|k: int| 0 <= k < front.len() && front[k] == kept[i];
            assert(left[k] < left[left.len() - 1]);
        }
        assert forall|ordinal: u32|
            #[trigger] all.contains(ordinal) <==> left.contains(ordinal) && right.contains(
                ordinal,
            ) by {
            if kept.contains(ordinal) {
                let k = choose|k: int| 0 <= k < kept.len() && kept[k] == ordinal;
                assert(all[k] == ordinal);
                let m = choose|m: int| 0 <= m < front.len() && front[m] == ordinal;
                assert(left[m] == ordinal);
            }
            if right.contains(last) {
                assert(all[kept.len() as int] == last);
            }
            if all.contains(ordinal) && !(right.contains(last) && ordinal == last) {
                let k = choose|k: int| 0 <= k < all.len() && all[k] == ordinal;
                assert(kept[k] == ordinal);
            }
            if left.contains(ordinal) && ordinal != last {
                let m = choose|m: int| 0 <= m < left.len() && left[m] == ordinal;
                assert(front[m] == ordinal);
            }
        }
    }
}

/// The candidates of a sound frame ascend and are ordinals of the frame; they are those in
/// all required lists, or all ordinals where nothing is required.
pub proof fn lemma_candidates(frame: InstalledFrame, query: LogQueryModel)
    requires
        index_sound(frame.index@, frame.frame.record_count),
    ensures
        rising(candidates_for(frame, query)),
        ordinals_below(candidates_for(frame, query), frame.frame.record_count),
        forall|ordinal: u32|
            #[trigger] candidates_for(frame, query).contains(ordinal) <==> ordinal
                < frame.frame.record_count && forall|i: int|
                0 <= i < required_lists(frame.index@, query).len() ==> (
                #[trigger] required_lists(frame.index@, query)[i]).contains(ordinal),
{
    let lists = required_lists(frame.index@, query);
    let count = frame.frame.record_count;
    let found = candidates_for(frame, query);
    assert forall|i: int| 0 <= i < lists.len() implies rising(#[trigger] lists[i])
        && ordinals_below(lists[i], count) by {
        if i < query.terms.len() {
            lemma_postings_sound(frame.index@, count, Seq::empty(), query.terms[i]);
        } else {
            let field = query.fields[i - query.terms.len()];
            lemma_postings_sound(frame.index@, count, field.0, field.1);
        }
    }
    lemma_candidates_after(lists, count);
    assert forall|ordinal: u32|
        #[trigger] found.contains(ordinal) <==> ordinal < count && forall|i: int|
            0 <= i < lists.len() ==> (#[trigger] lists[i]).contains(ordinal) by {
        if lists.len() == 0 {
            if ordinal < count {
                assert(span(0, count - 1)[ordinal as int] == ordinal);
            }
        } else if found.contains(ordinal) {
            let k = choose|k: int| 0 <= k < found.len() && found[k] == ordinal;
        }
    }
}

/// What is found in a frame of an append: records of the frame that the query selects.
pub proof fn lemma_frame_found(
    shard: ShardId,
    append: IndexedFrameAppend,
    frame: InstalledFrame,
    query: LogQueryModel,
)
    requires
        append.well_formed(),
        frame_fault(frame, append.record_count) is None,
    ensures
        forall|i: int|
            0 <= i < frame_found(shard, append, frame, query).len() ==> {
                let record = #[trigger] frame_found(shard, append, frame, query)[i];
                &&& record.shard == shard
                &&& record.reference.topic_partition == append.topic_partition
                &&& query.offset_fits(record)
                &&& query.position_fits(record)
                &&& frame.frame.min_timestamp_unix_nanos <= record.timestamp
                    <= frame.frame.max_timestamp_unix_nanos
            },
{
    let candidates = candidates_for(frame, query);
    let total = candidates.len() as int;
    let ordinals = picked(shard, append, frame, query, candidates, total);
    let found = frame_found(shard, append, frame, query);
    lemma_candidates(frame, query);
    lemma_picked(shard, append, frame, query, candidates, total);
    assert(candidates.subrange(0, total) =~= candidates);
    assert forall|i: int| 0 <= i < found.len() implies {
        let record = #[trigger] found[i];
        &&& record.shard == shard
        &&& record.reference.topic_partition == append.topic_partition
        &&& query.offset_fits(record)
        &&& query.position_fits(record)
        &&& frame.frame.min_timestamp_unix_nanos <= record.timestamp
            <= frame.frame.max_timestamp_unix_nanos
    } by {
        let ordinal = ordinals[i];
        assert(ordinals.contains(ordinal));
        assert(candidates.contains(ordinal));
        assert(found[i] == record_at(shard, append, frame, ordinal as int));
        let decoded = frame.records@[ordinal as int];
        assert(decoded.offset < append.record_count);
        assert(!time_outside(
            frame.records@,
            frame.frame.min_timestamp_unix_nanos,
            frame.frame.max_timestamp_unix_nanos,
        ));
        assert(frame.frame.min_timestamp_unix_nanos <= decoded.timestamp_unix_nanos
            <= frame.frame.max_timestamp_unix_nanos);
    }
}

impl LogStripe {
    /// Posting lists of a frame for a query.
    fn required_postings(query: &LogQuery, frame: &InstalledFrame) -> (lists: Vec<Vec<u32>>)
        ensures
            lists_view(lists@) == required_lists(frame.index@, query@),
    {
        let ghost wanted = required_lists(frame.index@, query@);
        let mut lists: Vec<Vec<u32>> = Vec::new();
        let mut index: usize = 0;
        while index < query.terms.len()
            invariant
                index <= query.terms@.len(),
                wanted == required_lists(frame.index@, query@),
                query@.terms.len() == query.terms@.len(),
                lists@.len() == index,
                forall|i: int| 0 <= i < index ==> (#[trigger] lists@[i])@ == wanted[i],
            decreases query.terms@.len() - index,
        {
            let term = normalize_term(&query.terms[index]);
            proof {
                assert(query@.terms[index as int] == term@);
                reveal_strlit("");
                assert(""@ =~= Seq::<char>::empty());
            }
            lists.push(find_postings(&frame.index, "", &term));
            index = index + 1;
        }
        let mut place: usize = 0;
        while place < query.fields.len()
            invariant
                place <= query.fields@.len(),
                wanted == required_lists(frame.index@, query@),
                query@.terms.len() == query.terms@.len(),
                query@.fields.len() == query.fields@.len(),
                lists@.len() == query.terms@.len() + place,
                forall|i: int| 0 <= i < lists@.len() ==> (#[trigger] lists@[i])@ == wanted[i],
            decreases query.fields@.len() - place,
        {
            proof {
                assert(query@.fields[place as int] == (
                    query.fields@[place as int].0@,
                    query.fields@[place as int].1@,
                ));
            }
            lists.push(
                find_postings(&frame.index, &query.fields[place].0, &query.fields[place].1),
            );
            place = place + 1;
        }
        proof {
            assert(lists_view(lists@) =~= wanted);
        }
        lists
    }

    /// The records of a frame that a query selects among the candidates of the frame's
    /// index.
    pub fn query_indexed_frame(
        &self,
        query: &LogQuery,
        append: &IndexedFrameAppend,
        frame: &InstalledFrame,
    ) -> (matches: Vec<DurableLogRecord>)
        requires
            append.well_formed(),
            frame_fault(*frame, append.record_count) is None,
        ensures
            records_view(matches@) == frame_found(
                self.stream_shard_id,
                *append,
                *frame,
                query@,
            ),
    {
        let ghost shard = self.stream_shard_id;
        let lists = LogStripe::required_postings(query, frame);
        proof {
            lemma_candidates(*frame, query@);
            let models = required_lists(frame.index@, query@);
            assert forall|i: int| 0 <= i < lists@.len() implies rising(
                (#[trigger] lists@[i])@,
            ) by {
                assert(lists_view(lists@)[i] == lists@[i]@);
                if i < query@.terms.len() {
                    lemma_postings_sound(
                        frame.index@,
                        frame.frame.record_count,
                        Seq::empty(),
                        query@.terms[i],
                    );
                } else {
                    let field = query@.fields[i - query@.terms.len()];
                    lemma_postings_sound(
                        frame.index@,
                        frame.frame.record_count,
                        field.0,
                        field.1,
                    );
                }
            }
        }
        let candidates = frame_candidates(&lists, frame.frame.record_count);
        let mut matches: Vec<DurableLogRecord> = Vec::new();
        let mut index: usize = 0;
        proof {
            assert(records_view(matches@) =~= Seq::<RecordModel>::empty());
            assert(records_of(shard, *append, *frame, Seq::empty()) =~= Seq::<
                RecordModel,
            >::empty());
        }
        while index < candidates.len()
            invariant
                index <= candidates@.len(),
                shard == self.stream_shard_id,
                append.well_formed(),
                frame_fault(*frame, append.record_count) is None,
                ordinals_below(candidates@, frame.frame.record_count),
                records_view(matches@) == records_of(
                    shard,
                    *append,
                    *frame,
                    picked(shard, *append, *frame, query@, candidates@, index as int),
                ),
            decreases candidates@.len() - index,
        {
            let ordinal: u32 = candidates[index];
            proof {
                assert(candidates@[index as int] < frame.frame.record_count);
                assert(frame.records@[ordinal as int].offset < append.record_count);
                assert(strings_view(frame.terms@[ordinal as int]@)
                    =~= frame.terms@[ordinal as int]@.map_values(|item: String| item@));
            }
            match self.decoded_record(
                append.topic_partition,
                append,
                &frame.frame,
                &frame.records[ordinal as usize],
            ) {
                Ok(record) => {
                    proof {
                        assert(record@ == record_at(shard, *append, *frame, ordinal as int));
                    }
                    if query.matches(&record, &frame.terms[ordinal as usize]) {
                        proof {
                            let front = picked(
                                shard,
                                *append,
                                *frame,
                                query@,
                                candidates@,
                                index as int,
                            );
                            assert(records_view(matches@.push(record)) =~= records_view(
                                matches@,
                            ).push(record@));
                            assert(records_of(shard, *append, *frame, front.push(ordinal))
                                =~= records_of(shard, *append, *frame, front).push(record@));
                        }
                        matches.push(record);
                    }
                },
                Err(_) => {
                    assert(false);
                },
            }
            index = index + 1;
        }
        matches
    }
}

/// Records found in the frames of an append whose time ranges overlap a query.
pub open spec fn frames_found(
    shard: ShardId,
    append: IndexedFrameAppend,
    query: LogQueryModel,
    count: int,
) -> Seq<RecordModel>
    decreases count,
{
    if count <= 0 {
        Seq::empty()
    } else {
        let front = frames_found(shard, append, query, count - 1);
        let frame = append.frames@[count - 1];
        if frame_overlaps(
            query,
            frame.frame.min_timestamp_unix_nanos,
            frame.frame.max_timestamp_unix_nanos,
        ) {
            front + frame_found(shard, append, frame, query)
        } else {
            front
        }
    }
}

/// Whether an append is looked at for a query.
pub open spec fn append_in_reach(append: IndexedFrameAppend, query: LogQueryModel) -> bool {
    append.topic_partition == query.partition && append_overlaps(
        query,
        append.first_offset,
        append.last_offset,
    )
}

/// Records found in the compressed appends of a partition.
pub open spec fn appends_found(
    shard: ShardId,
    appends: Seq<IndexedFrameAppend>,
    query: LogQueryModel,
) -> Seq<RecordModel>
    decreases appends.len(),
{
    if appends.len() == 0 {
        Seq::empty()
    } else {
        let front = appends_found(shard, appends.drop_last(), query);
        let last = appends.last();
        if append_in_reach(last, query) {
            front + frames_found(shard, last, query, last.frames@.len() as int)
        } else {
            front
        }
    }
}

/// All records lie in the offset range of a query and behind its cursor.
spec fn all_fit(query: LogQueryModel, matches: Seq<DurableLogRecord>) -> bool {
    forall|i: int| 0 <= i < matches.len() ==> fits_query(query, (#[trigger] matches[i])@)
}

/// The answer of a stripe: what the query finds among the hot records and in the compressed
/// appends of the partition, in its order and up to its limit.
pub open spec fn stripe_answer(stripe: LogStripe, query: LogQueryModel) -> Seq<RecordModel> {
    page(
        query,
        query_answer(stripe.model(query.partition), query) + appends_found(
            stripe.stream_shard_id,
            stripe.appends@,
            query,
        ),
        query.limit,
    )
}

impl LogStripe {
    /// Adds what a query finds in the frames of an append.
    fn query_append(
        &self,
        query: &LogQuery,
        append: &IndexedFrameAppend,
        matches: &mut Vec<DurableLogRecord>,
    )
        requires
            append.well_formed(),
            all_fit(query@, old(matches)@),
        ensures
            all_fit(query@, final(matches)@),
            records_view(final(matches)@) == records_view(old(matches)@) + frames_found(
                self.stream_shard_id,
                *append,
                query@,
                append.frames@.len() as int,
            ),
    {
        let ghost before = records_view(matches@);
        let mut index: usize = 0;
        proof {
            assert(before + Seq::<RecordModel>::empty() =~= before);
        }
        while index < append.frames.len()
            invariant
                index <= append.frames@.len(),
                append.well_formed(),
                all_fit(query@, matches@),
                records_view(matches@) == before + frames_found(
                    self.stream_shard_id,
                    *append,
                    query@,
                    index as int,
                ),
            decreases append.frames@.len() - index,
        {
            let frame = &append.frames[index];
            if frame_matches_query_bounds(query, &frame.frame) {
                let mut found = self.query_indexed_frame(query, append, frame);
                let ghost kept = matches@;
                let ghost added = found@;
                matches.append(&mut found);
                proof {
                    lemma_frame_found(self.stream_shard_id, *append, *frame, query@);
                    assert(all_fit(query@, matches@)) by {
                        assert forall|i: int| 0 <= i < matches@.len() implies fits_query(
                            query@,
                            (#[trigger] matches@[i])@,
                        ) by {
                            if i < kept.len() {
                                assert(matches@[i] == kept[i]);
                            } else {
                                let k = i - kept.len();
                                assert(matches@[i] == added[k]);
                                assert(records_view(added)[k] == added[k]@);
                            }
                        }
                    }
                    assert(records_view(matches@) =~= records_view(kept) + records_view(added));
                    let front = frames_found(
                        self.stream_shard_id,
                        *append,
                        query@,
                        index as int,
                    );
                    assert(before + front + records_view(added) =~= before + (front
                        + records_view(added)));
                }
            }
            index = index + 1;
        }
    }

    /// Performs one exact lookup over the records of a partition, hot ones and those of
    /// compressed appends.
    pub fn query(&self, query: &LogQuery) -> (matches: Vec<DurableLogRecord>)
        requires
            self.well_formed(),
        ensures
            records_view(matches@) == stripe_answer(*self, query@),
            forall|i: int|
                0 <= i < matches@.len() ==> fits_query(query@, (#[trigger] matches@[i])@),
    {
        let mut matches = self.query_hot_matches(query);
        let ghost hot = records_view(matches@);
        let mut index: usize = 0;
        proof {
            assert(self.appends@.subrange(0, 0) =~= Seq::<IndexedFrameAppend>::empty());
            assert(hot + Seq::<RecordModel>::empty() =~= hot);
        }
        while index < self.appends.len()
            invariant
                index <= self.appends@.len(),
                self.well_formed(),
                all_fit(query@, matches@),
                records_view(matches@) == hot + appends_found(
                    self.stream_shard_id,
                    self.appends@.subrange(0, index as int),
                    query@,
                ),
            decreases self.appends@.len() - index,
        {
            let append = &self.appends[index];
            let ghost front = appends_found(
                self.stream_shard_id,
                self.appends@.subrange(0, index as int),
                query@,
            );
            proof {
                let part = self.appends@.subrange(0, index + 1);
                assert(part.drop_last() =~= self.appends@.subrange(0, index as int));
                assert(part.last() == *append);
            }
            if append.topic_partition == query.topic_partition && append_matches_query_bounds(
                query,
                append,
            ) {
                self.query_append(query, append, &mut matches);
                proof {
                    let added = frames_found(
                        self.stream_shard_id,
                        *append,
                        query@,
                        append.frames@.len() as int,
                    );
                    assert(hot + front + added =~= hot + (front + added));
                }
            }
            index = index + 1;
        }
        proof {
            assert(self.appends@.subrange(0, index as int) =~= self.appends@);
        }
        let sorted = sort_and_limit_matches(&matches, query, query.limit);
        proof {
            assert forall|i: int| 0 <= i < sorted@.len() implies fits_query(
                query@,
                (#[trigger] sorted@[i])@,
            ) by {
                let records = records_view(matches@);
                let k = choose|k: int| 0 <= k < records.len() && records[k] == sorted@[i]@;
                assert(records[k] == matches@[k]@);
            }
        }
        sorted
    }
}

/// Value of the matches of a frame.
#[verifier::ext_equal]
pub struct FrameModel {
    /// Lowest timestamp of the frame.
    pub min_timestamp: u64,
    /// Highest timestamp of the frame.
    pub max_timestamp: u64,
    /// Records of the frame that the query selects.
    pub records: Seq<RecordModel>,
}

/// Matches of a frame.
#[derive(Debug)]
pub struct FrameMatches {
    /// Lowest timestamp of the frame.
    pub min_timestamp_unix_nanos: u64,
    /// Highest timestamp of the frame.
    pub max_timestamp_unix_nanos: u64,
    /// Records of the frame that the query selects.
    pub matches: Vec<DurableLogRecord>,
}

impl View for FrameMatches {
    type V = FrameModel;

    open spec fn view(&self) -> FrameModel {
        FrameModel {
            min_timestamp: self.min_timestamp_unix_nanos,
            max_timestamp: self.max_timestamp_unix_nanos,
            records: records_view(self.matches@),
        }
    }
}

impl FrameModel {
    /// All records lie in the time range of the frame.
    pub open spec fn in_bounds(self) -> bool {
        forall|i: int|
            0 <= i < self.records.len() ==> self.min_timestamp <= (
            #[trigger] self.records[i]).timestamp <= self.max_timestamp
    }
}

/// Values of the matches of frames.
pub open spec fn frames_view(frames: Seq<FrameMatches>) -> Seq<FrameModel> {
    frames.map_values(|frame: FrameMatches| frame@)
}

/// Sort keys of frames: those that may come first in a result come first.
pub open spec fn frame_keys(query: LogQueryModel, frames: Seq<FrameModel>) -> Seq<u128> {
    frames.map_values(
        |frame: FrameModel|
            match query.order {
                QueryOrder::NewestFirst => (u64::MAX - frame.max_timestamp) as u128,
                QueryOrder::OldestFirst => frame.min_timestamp as u128,
            },
    )
}

/// Frames in the order in which they are looked at.
pub open spec fn frames_in_order(query: LogQueryModel, frames: Seq<FrameModel>) -> Seq<
    FrameModel,
> {
    arranged(frames, order_of(frame_keys(query, frames)))
}

/// Records of frames, one frame after the other.
pub open spec fn frame_records(frames: Seq<FrameModel>) -> Seq<RecordModel>
    decreases frames.len(),
{
    if frames.len() == 0 {
        Seq::empty()
    } else {
        frame_records(frames.drop_last()) + frames.last().records
    }
}

/// Records in the order of a query.
spec fn sorted(query: LogQueryModel, records: Seq<RecordModel>) -> Seq<RecordModel> {
    page(query, records, None)
}

proof fn lemma_sorted_push(query: LogQueryModel, records: Seq<RecordModel>, record: RecordModel) -> (
    at: int)
    requires
        records.len() < usize::MAX,
    ensures
        0 <= at <= sorted(query, records).len(),
        sorted(query, records).len() == records.len(),
        sorted(query, records.push(record)) == sorted(query, records).insert(at, record),
        forall|i: int|
            0 <= i < at ==> rank(query, #[trigger] sorted(query, records)[i]) <= rank(
                query,
                record,
            ),
        forall|i: int|
            at <= i < records.len() ==> rank(query, #[trigger] sorted(query, records)[i]) > rank(
                query,
                record,
            ),
{
    let keys = ranks(query, records);
    let key = rank(query, record);
    let order = order_of(keys);
    let at = crate::order::rank(keys, order, key);
    lemma_order_push(keys, key);
    assert(ranks(query, records.push(record)) =~= keys.push(key));
    let before = sorted(query, records);
    let after = sorted(query, records.push(record));
    assert forall|i: int| 0 <= i < records.len() implies rank(query, #[trigger] before[i])
        == keys[order[i] as int] by {
        assert(before[i] == records[order[i] as int]);
    }
    assert(after =~= before.insert(at, record)) by {
        let longer = order_of(keys.push(key));
        assert forall|i: int| 0 <= i < after.len() implies after[i] == before.insert(
            at,
            record,
        )[i] by {
            assert(after[i] == records.push(record)[longer[i] as int]);
            if i < at {
                assert(longer[i] == order[i]);
            } else if i > at {
                assert(longer[i] == order[i - 1]);
            }
        }
    }
    at
}

proof fn lemma_page_rises(query: LogQueryModel, records: Seq<RecordModel>, limit: usize)
    requires
        records.len() <= usize::MAX,
    ensures
        sorted(query, records).len() == records.len(),
        forall|i: int, j: int|
            0 <= i < j < records.len() ==> rank(query, #[trigger] sorted(query, records)[i])
                <= rank(query, #[trigger] sorted(query, records)[j]),
        sorted(query, page(query, records, Some(limit))) == page(query, records, Some(limit)),
{
    let keys = ranks(query, records);
    let order = order_of(keys);
    lemma_order_exists(keys);
    let all = sorted(query, records);
    assert forall|i: int, j: int| 0 <= i < j < records.len() implies rank(
        query,
        #[trigger] all[i],
    ) <= rank(query, #[trigger] all[j]) by {
        assert(comes_before(keys, order[i] as int, order[j] as int));
        assert(all[i] == records[order[i] as int] && all[j] == records[order[j] as int]);
    }
    let kept = page(query, records, Some(limit));
    let short = ranks(query, kept);
    assert forall|i: int, j: int| 0 <= i < j < short.len() implies short[i] <= short[j] by {
        assert(kept[i] == all[i] && kept[j] == all[j]);
    }
    lemma_order_of_sorted(short);
    assert(sorted(query, kept) =~= kept);
}

/// A page takes in a further record as the whole result does.
proof fn lemma_page_push(
    query: LogQueryModel,
    records: Seq<RecordModel>,
    record: RecordModel,
    limit: usize,
)
    requires
        records.len() < usize::MAX,
    ensures
        page(query, records.push(record), Some(limit)) == page(
            query,
            page(query, records, Some(limit)).push(record),
            Some(limit),
        ),
{
    let all = sorted(query, records);
    let kept = page(query, records, Some(limit));
    lemma_page_rises(query, records, limit);
    let first = lemma_sorted_push(query, records, record);
    let second = lemma_sorted_push(query, kept, record);
    let left = limited(all.insert(first, record), limit as nat);
    let right = limited(kept.insert(second, record), limit as nat);
    assert(page(query, records.push(record), Some(limit)) == left);
    assert(page(query, kept.push(record), Some(limit)) == right);
    if all.len() <= limit {
        assert(kept == all);
        if first < second {
            assert(rank(query, all[first]) > rank(query, record));
        } else if second < first {
            assert(rank(query, all[second]) <= rank(query, record));
        }
    } else {
        assert(kept =~= all.subrange(0, limit as int));
        if first < limit {
            if first < second {
                assert(kept[first] == all[first]);
            } else if second < first {
                assert(kept[second] == all[second]);
            }
            assert(left =~= right);
        } else {
            if second < limit {
                assert(kept[second] == all[second]);
            }
            assert(left =~= right);
        }
    }
}

/// A page takes in further records as the whole result does: what was cut off does not
/// come back.
pub proof fn page_absorbs_records(
    query: LogQueryModel,
    records: Seq<RecordModel>,
    further: Seq<RecordModel>,
    limit: usize,
)
    requires
        records.len() + further.len() <= usize::MAX,
    ensures
        page(query, records + further, Some(limit)) == page(
            query,
            page(query, records, Some(limit)) + further,
            Some(limit),
        ),
    decreases further.len(),
{
    let kept = page(query, records, Some(limit));
    lemma_page_rises(query, records, limit);
    if further.len() == 0 {
        assert(records + further =~= records);
        assert(kept + further =~= kept);
        assert(page(query, kept, Some(limit)) =~= kept);
    } else {
        let front = further.drop_last();
        let last = further.last();
        page_absorbs_records(query, records, front, limit);
        assert(records + further =~= (records + front).push(last));
        assert(kept + further =~= (kept + front).push(last));
        lemma_page_push(query, records + front, last, limit);
        lemma_page_push(query, kept + front, last, limit);
    }
}

/// A page after the records of frames were taken in, one frame after the other.
pub open spec fn page_after(
    query: LogQueryModel,
    hot: Seq<RecordModel>,
    frames: Seq<FrameModel>,
    limit: usize,
) -> Seq<RecordModel>
    decreases frames.len(),
{
    if frames.len() == 0 {
        page(query, hot, Some(limit))
    } else {
        page(
            query,
            page_after(query, hot, frames.drop_last(), limit) + frames.last().records,
            Some(limit),
        )
    }
}

/// Taking in frames one after the other gives the first records of the whole result.
pub proof fn frames_merge_exactly(
    query: LogQueryModel,
    hot: Seq<RecordModel>,
    frames: Seq<FrameModel>,
    limit: usize,
)
    requires
        hot.len() + frame_records(frames).len() <= usize::MAX,
    ensures
        page_after(query, hot, frames, limit) == page(
            query,
            hot + frame_records(frames),
            Some(limit),
        ),
    decreases frames.len(),
{
    if frames.len() == 0 {
        assert(hot + frame_records(frames) =~= hot);
    } else {
        let front = frames.drop_last();
        frames_merge_exactly(query, hot, front, limit);
        page_absorbs_records(query, hot + frame_records(front), frames.last().records, limit);
        assert(hot + frame_records(front) + frames.last().records =~= hot + frame_records(frames));
    }
}

/// Merges the matches of frames into those of the hot index. Frames that cannot improve a
/// full page are not looked at.
pub fn merge_frames(
    query: &LogQuery,
    hot: &Vec<DurableLogRecord>,
    frames: &Vec<FrameMatches>,
    limit: usize,
) -> (matches: Vec<DurableLogRecord>)
    requires
        query.sort == QuerySort::Timestamp,
        forall|i: int| 0 <= i < frames@.len() ==> (#[trigger] frames@[i])@.in_bounds(),
    ensures
        records_view(matches@) == page_after(
            query@,
            records_view(hot@),
            frames_in_order(query@, frames_view(frames@)),
            limit,
        ),
{
    let ghost models = frames_view(frames@);
    let ghost wanted = frames_in_order(query@, models);
    let ghost start = records_view(hot@);
    let mut keys: Vec<u128> = Vec::new();
    let mut index: usize = 0;
    while index < frames.len()
        invariant
            index <= frames@.len(),
            models == frames_view(frames@),
            keys@.len() == index,
            forall|i: int| 0 <= i < index ==> keys@[i] == frame_keys(query@, models)[i],
        decreases frames@.len() - index,
    {
        proof {
            assert(models[index as int] == frames@[index as int]@);
        }
        let key: u128 = match query.order {
            QueryOrder::NewestFirst => (u64::MAX - frames[index].max_timestamp_unix_nanos) as u128,
            QueryOrder::OldestFirst => frames[index].min_timestamp_unix_nanos as u128,
        };
        keys.push(key);
        index = index + 1;
    }
    proof {
        assert(keys@ =~= frame_keys(query@, models));
    }
    let order = stable_order(&keys);
    let hot_count: usize = hot.len();
    let mut matches = sort_and_limit_matches(hot, query, Some(limit));
    let mut place: usize = 0;
    proof {
        assert(start.len() == hot_count);
        lemma_page_is_sorted(query@, start, limit);
        assert(wanted.subrange(0, 0) =~= Seq::<FrameModel>::empty());
    }
    while place < order.len()
        invariant
            place <= order@.len(),
            query.sort == QuerySort::Timestamp,
            models == frames_view(frames@),
            start == records_view(hot@),
            keys@ == frame_keys(query@, models),
            is_order(keys@, order@),
            wanted == arranged(models, order@),
            order@.len() == frames@.len(),
            forall|i: int| 0 <= i < frames@.len() ==> (#[trigger] frames@[i])@.in_bounds(),
            page(query@, records_view(matches@), Some(limit)) == records_view(matches@),
            records_view(matches@) == page_after(
                query@,
                start,
                wanted.subrange(0, place as int),
                limit,
            ),
        decreases order@.len() - place,
    {
        let at: usize = order[place];
        let count: usize = frames[at].matches.len();
        let ghost before = records_view(matches@);
        let ghost extra = records_view(frames@[at as int].matches@);
        proof {
            assert(models[at as int] == frames@[at as int]@);
            assert(wanted[place as int] == models[at as int]);
            let part = wanted.subrange(0, place + 1);
            assert(part.drop_last() =~= wanted.subrange(0, place as int));
            assert(part.last() == wanted[place as int]);
        }
        let full = limit > 0 && matches.len() == limit && count <= usize::MAX - limit;
        let behind = full && (match query.order {
            QueryOrder::NewestFirst => frames[at].max_timestamp_unix_nanos
                < matches[matches.len() - 1].timestamp_unix_nanos,
            QueryOrder::OldestFirst => frames[at].min_timestamp_unix_nanos
                > matches[matches.len() - 1].timestamp_unix_nanos,
        });
        if behind {
            proof {
                let last = before.last();
                assert(last == matches@[matches@.len() - 1]@);
                assert forall|i: int| 0 <= i < extra.len() implies rank(
                    query@,
                    page(query@, before, Some(limit)).last(),
                ) < rank(query@, #[trigger] extra[i]) by {
                    assert(models[at as int].records[i] == extra[i]);
                    skipped_frame_ranks_behind(
                        query@,
                        last,
                        extra[i],
                        models[at as int].min_timestamp,
                        models[at as int].max_timestamp,
                    );
                }
                full_page_is_final(query@, before, limit, extra);
            }
        } else {
            let mut more = matches;
            let mut added: usize = 0;
            proof {
                assert(before + extra.subrange(0, 0) =~= before);
            }
            while added < frames[at].matches.len()
                invariant
                    at < frames@.len(),
                    added <= extra.len(),
                    extra == records_view(frames@[at as int].matches@),
                    records_view(more@) == before + extra.subrange(0, added as int),
                decreases extra.len() - added,
            {
                let copy = frames[at].matches[added].clone();
                proof {
                    assert(records_view(more@.push(copy)) =~= records_view(more@).push(copy@));
                    assert(before + extra.subrange(0, added + 1) =~= (before + extra.subrange(
                        0,
                        added as int,
                    )).push(extra[added as int]));
                }
                more.push(copy);
                added = added + 1;
            }
            let total: usize = more.len();
            matches = sort_and_limit_matches(&more, query, Some(limit));
            proof {
                assert(extra.subrange(0, extra.len() as int) =~= extra);
                assert(records_view(more@).len() == total);
                lemma_page_is_sorted(query@, records_view(more@), limit);
            }
        }
        place = place + 1;
    }
    proof {
        assert(wanted.subrange(0, place as int) =~= wanted);
    }
    matches
}

/// A page is in the order of its query.
proof fn lemma_page_is_sorted(query: LogQueryModel, records: Seq<RecordModel>, limit: usize)
    requires
        records.len() <= usize::MAX,
    ensures
        page(query, page(query, records, Some(limit)), Some(limit)) == page(
            query,
            records,
            Some(limit),
        ),
{
    lemma_page_rises(query, records, limit);
}

} // verus!
