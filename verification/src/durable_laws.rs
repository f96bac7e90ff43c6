//! Laws of the reads of the durable store.
use vstd::prelude::*;

use crate::api_error::ApiFault;
use crate::durable_query::{accepted_entries, cursor_room, db_page, joined, paged_entries, Accepted};
use crate::frame_laws::{readable, stripe_answers_as_a_whole, whole_model};
use crate::log_query::{place_key, LogQueryModel, QuerySort, RecordModel};
use crate::log_stripe::LogStripe;
use crate::loki_stats::SelectionModel;
use crate::order::{arranged, lemma_order_of_sorted, order_of};
use crate::partition_index::{answer, offsets_rise, PartitionModel};
use crate::posting::{limited, QueryOrder};
use crate::query_laws::{
    cursor_at, in_key_order, lemma_in_key_order, ordinal_key, pages_continue, whole_answer,
};
use crate::stripe_query::{query_answer, rank, ranks, shard_keys, stripe_answers};

verus! {

broadcast use vstd::seq_lib::group_seq_properties;

/// Whether all records of a partition were written to one shard.
pub open spec fn one_shard(model: PartitionModel) -> bool {
    forall|i: int, j: int|
        0 <= i < model.records.len() && 0 <= j < model.records.len() ==> (
        #[trigger] model.records[i]).shard == (#[trigger] model.records[j]).shard
}

proof fn lemma_answer_len(model: PartitionModel, query: LogQueryModel)
    requires
        model.records.len() <= u32::MAX,
        query.sort == QuerySort::Timestamp,
    ensures
        in_key_order(model, query).len() <= u32::MAX,
        answer(model, query).len() <= in_key_order(model, query).len(),
        query_answer(model, query).len() == answer(model, query).len(),
{
    let all = crate::partition_index::matching(model, query, model.records.len());
    crate::partition_index::lemma_matching(model, query, model.records.len());
    crate::partition_index::lemma_rising_len(all, model.records.len());
    let keys = crate::partition_index::ordinal_sort_keys(all, model.records, query);
    crate::order::lemma_order_exists(keys);
    assert(in_key_order(model, query).len() == all.len());
}

proof fn lemma_answer_at(model: PartitionModel, query: LogQueryModel, i: int)
    requires
        0 <= i < answer(model, query).len(),
    ensures
        answer(model, query).len() <= in_key_order(model, query).len(),
        answer(model, query)[i] == in_key_order(model, query)[match query.order {
            QueryOrder::OldestFirst => i,
            QueryOrder::NewestFirst => in_key_order(model, query).len() - 1 - i,
        }],
        query_answer(model, query)[i] == model.records[answer(model, query)[i] as int],
{
}

proof fn lemma_answer_in_rank_order(model: PartitionModel, query: LogQueryModel)
    requires
        model.records.len() <= u32::MAX,
        offsets_rise(model.records),
        query.sort == QuerySort::Timestamp,
    ensures
        query_answer(model, query).len() <= u32::MAX,
        query_answer(model, query).len() == answer(model, query).len(),
        forall|i: int| 0 <= i < answer(model, query).len() ==> #[trigger] answer(model, query)[i]
            < model.records.len(),
        forall|i: int, j: int|
            0 <= i < j < query_answer(model, query).len() ==> rank(
                query,
                #[trigger] query_answer(model, query)[i],
            ) < rank(query, #[trigger] query_answer(model, query)[j]),
{
    lemma_in_key_order(model, query);
    lemma_answer_len(model, query);
    crate::partition_index::lemma_answer_in_range(model, query);
    assert forall|i: int, j: int| 0 <= i < j < query_answer(model, query).len() implies rank(
        query,
        #[trigger] query_answer(model, query)[i],
    ) < rank(query, #[trigger] query_answer(model, query)[j]) by {
        lemma_answer_at(model, query, i);
        lemma_answer_at(model, query, j);
        lemma_ranks_rise(model, query, in_key_order(model, query), i, j);
    }
}

proof fn lemma_ranks_rise(
    model: PartitionModel,
    query: LogQueryModel,
    sorted: Seq<u32>,
    i: int,
    j: int,
)
    requires
        crate::query_laws::keys_rise(model, query, sorted),
        0 <= i < j < sorted.len(),
    ensures
        match query.order {
            QueryOrder::OldestFirst => rank(query, model.records[sorted[i] as int]) < rank(
                query,
                model.records[sorted[j] as int],
            ),
            QueryOrder::NewestFirst => rank(
                query,
                model.records[sorted[sorted.len() - 1 - i] as int],
            ) < rank(query, model.records[sorted[sorted.len() - 1 - j] as int]),
        },
{
    let total = sorted.len() as int;
    match query.order {
        QueryOrder::OldestFirst => {
            assert(ordinal_key(model, query, sorted[i]) < ordinal_key(model, query, sorted[j]));
        },
        QueryOrder::NewestFirst => {
            assert(ordinal_key(model, query, sorted[total - 1 - j]) < ordinal_key(
                model,
                query,
                sorted[total - 1 - i],
            ));
        },
    }
}

proof fn lemma_single_page(stripes: Seq<LogStripe>, query: LogQueryModel)
    requires
        stripes.len() == 1,
        readable(stripes[0], query.partition),
        one_shard(whole_model(stripes[0], query.partition)),
        query.sort == QuerySort::Timestamp,
    ensures
        db_page(stripes, query) == query_answer(whole_model(stripes[0], query.partition), query),
        whole_model(stripes[0], query.partition).records.len() <= u32::MAX,
        offsets_rise(whole_model(stripes[0], query.partition).records),
{
    let model = whole_model(stripes[0], query.partition);
    stripe_answers_as_a_whole(stripes[0], query);
    lemma_answer_in_rank_order(model, query);
    let found = query_answer(model, query);
    let list = answer(model, query);
    assert(stripes.drop_last() =~= Seq::<LogStripe>::empty());
    assert(stripe_answers(stripes.drop_last(), query) =~= Seq::<RecordModel>::empty());
    assert(stripes.last() == stripes[0]);
    assert(stripe_answers(stripes, query) =~= found);
    let keys = shard_keys(found);
    assert forall|i: int, j: int| 0 <= i < j < keys.len() implies keys[i] <= keys[j] by {
        assert(found[i] == model.records[list[i] as int]);
        assert(found[j] == model.records[list[j] as int]);
        assert(list[i] < model.records.len() && list[j] < model.records.len());
        assert(model.records[list[i] as int].shard == model.records[list[j] as int].shard);
    }
    lemma_order_of_sorted(keys);
    assert(arranged(found, order_of(keys)) =~= found);
    let places = ranks(query, found);
    assert forall|i: int, j: int| 0 <= i < j < places.len() implies places[i] <= places[j] by {
        assert(rank(query, found[i]) < rank(query, found[j]));
    }
    lemma_order_of_sorted(places);
    assert(arranged(found, order_of(places)) =~= found);
    match query.limit {
        Some(limit) => {
            crate::query_laws::lemma_limit_cuts(model, query);
            assert(found.len() <= limit);
            assert(limited(found, limit as nat) =~= found);
        },
        None => {},
    }
}

proof fn lemma_accepted_prefix(
    records: Seq<RecordModel>,
    more: Seq<RecordModel>,
    hidden: Seq<SelectionModel>,
    room: nat,
    count: int,
)
    requires
        0 <= count <= records.len(),
    ensures
        accepted_entries(records + more, hidden, room, count) == accepted_entries(
            records,
            hidden,
            room,
            count,
        ),
    decreases count,
{
    if count > 0 {
        lemma_accepted_prefix(records, more, hidden, room, count - 1);
        assert((records + more)[count - 1] == records[count - 1]);
    }
}

/// Accepting records in two parts is accepting them at once.
proof fn lemma_accepted_split(
    records: Seq<RecordModel>,
    more: Seq<RecordModel>,
    hidden: Seq<SelectionModel>,
    room: nat,
    count: int,
)
    requires
        0 <= count <= more.len(),
    ensures
        accepted_entries(records + more, hidden, room, records.len() + count)
            == match accepted_entries(records, hidden, room, records.len() as int) {
            Err(fault) => Err(fault),
            Ok(front) => joined(
                front,
                accepted_entries(more, hidden, (room - front.len()) as nat, count),
            ),
        },
        accepted_entries(records, hidden, room, records.len() as int) matches Ok(front)
            ==> front.len() <= room,
    decreases count,
{
    let all = records + more;
    let first = accepted_entries(records, hidden, room, records.len() as int);
    lemma_accepted_prefix(records, more, hidden, room, records.len() as int);
    lemma_accepted_room(records, hidden, room, records.len() as int);
    if count == 0 {
        match first {
            Ok(front) => {
                assert(front + Seq::<Accepted>::empty() =~= front);
            },
            Err(_) => {},
        }
    } else {
        lemma_accepted_split(records, more, hidden, room, count - 1);
        assert(all[records.len() + count - 1] == more[count - 1]);
        match first {
            Ok(front) => {
                let left = (room - front.len()) as nat;
                let before = accepted_entries(more, hidden, left, count - 1);
                let after = accepted_entries(more, hidden, left, count);
                match before {
                    Ok(taken) => {
                        assert((front + taken).len() == front.len() + taken.len());
                        match after {
                            Ok(longer) => {
                                if longer.len() > taken.len() {
                                    let item = longer.last();
                                    assert(longer =~= taken.push(item));
                                    assert(front + longer =~= (front + taken).push(item));
                                }
                            },
                            Err(_) => {},
                        }
                    },
                    Err(_) => {},
                }
            },
            Err(_) => {},
        }
    }
}

proof fn lemma_accepted_room(
    records: Seq<RecordModel>,
    hidden: Seq<SelectionModel>,
    room: nat,
    count: int,
)
    ensures
        accepted_entries(records, hidden, room, count) matches Ok(front) ==> front.len() <= room,
    decreases count,
{
    if count > 0 {
        lemma_accepted_room(records, hidden, room, count - 1);
    }
}

proof fn lemma_accepted_none(
    records: Seq<RecordModel>,
    hidden: Seq<SelectionModel>,
    count: int,
)
    ensures
        accepted_entries(records, hidden, 0, count) == Ok::<_, ApiFault>(Seq::<Accepted>::empty()),
    decreases count,
{
    if count > 0 {
        lemma_accepted_none(records, hidden, count - 1);
    }
}

proof fn lemma_pages_from(
    stripes: Seq<LogStripe>,
    base: LogQueryModel,
    hidden: Seq<SelectionModel>,
    room: nat,
    k: int,
)
    requires
        stripes.len() == 1,
        readable(stripes[0], base.partition),
        one_shard(whole_model(stripes[0], base.partition)),
        base.sort == QuerySort::Timestamp,
        base.after is None,
        base.limit is Some,
        base.limit->0 > 0,
        0 <= k <= whole_answer(whole_model(stripes[0], base.partition), base).len(),
    ensures
        ({
            let whole = whole_answer(whole_model(stripes[0], base.partition), base);
            let query = if k == 0 {
                base
            } else {
                LogQueryModel { after: Some(cursor_at(whole[k - 1])), ..base }
            };
            paged_entries(stripes, query, hidden, room) == accepted_entries(
                whole.subrange(k, whole.len() as int),
                hidden,
                room,
                whole.len() - k,
            )
        }),
    decreases whole_answer(whole_model(stripes[0], base.partition), base).len() - k,
{
    let model = whole_model(stripes[0], base.partition);
    let whole = whole_answer(model, base);
    let total = whole.len() as int;
    let query = if k == 0 {
        base
    } else {
        LogQueryModel { after: Some(cursor_at(whole[k - 1])), ..base }
    };
    let limit = base.limit->0 as nat;
    lemma_single_page(stripes, query);
    lemma_single_page(stripes, base);
    pages_continue(model, base, k);
    let rest = whole.subrange(k, total);
    let found = db_page(stripes, query);
    if k == 0 {
        assert(rest =~= whole);
    }
    assert(found == limited(rest, limit));
    if found.len() == 0 {
        assert(rest.len() == 0);
    } else {
        let n = found.len() as int;
        let later = rest.subrange(n, rest.len() as int);
        assert(found =~= rest.subrange(0, n));
        assert(rest =~= found + later);
        lemma_accepted_split(found, later, hidden, room, later.len() as int);
        assert(accepted_entries(rest, hidden, room, rest.len() as int)
            == match accepted_entries(found, hidden, room, n) {
            Err(fault) => Err(fault),
            Ok(front) => joined(
                front,
                accepted_entries(later, hidden, (room - front.len()) as nat, later.len() as int),
            ),
        });
        match accepted_entries(found, hidden, room, n) {
            Err(_) => {},
            Ok(taken) => {
                if taken.len() >= room {
                    lemma_accepted_none(later, hidden, later.len() as int);
                    assert(taken + Seq::<Accepted>::empty() =~= taken);
                } else if n < limit {
                    assert(later =~= Seq::<RecordModel>::empty());
                    assert(taken + Seq::<Accepted>::empty() =~= taken);
                } else {
                    let next = LogQueryModel { after: Some(cursor_at(found.last())), ..query };
                    assert(found.last() == whole[k + n - 1]);
                    assert(next == (LogQueryModel {
                        after: Some(cursor_at(whole[k + n - 1])),
                        ..base
                    }));
                    lemma_cursor_advances(model, base, query, k, n);
                    lemma_pages_from(stripes, base, hidden, (room - taken.len()) as nat, k + n);
                    assert(whole.subrange(k + n, total) =~= later);
                }
            },
        }
    }
}

proof fn lemma_cursor_advances(
    model: PartitionModel,
    base: LogQueryModel,
    query: LogQueryModel,
    k: int,
    n: int,
)
    requires
        model.records.len() <= u32::MAX,
        offsets_rise(model.records),
        base.sort == QuerySort::Timestamp,
        base.after is None,
        0 <= k,
        0 < n,
        k + n <= whole_answer(model, base).len(),
        query == (if k == 0 {
            base
        } else {
            LogQueryModel { after: Some(cursor_at(whole_answer(model, base)[k - 1])), ..base }
        }),
    ensures
        cursor_room(
            LogQueryModel { after: Some(cursor_at(whole_answer(model, base)[k + n - 1])), ..query },
        ) < cursor_room(query),
{
    let free = LogQueryModel { limit: None, after: None, ..base };
    let whole = whole_answer(model, base);
    lemma_answer_in_rank_order(model, free);
    let last = whole[k + n - 1];
    assert(base.key(last) == place_key(base.sort, last.timestamp, last.reference.offset));
    assert(rank(free, last) == rank(base, last));
    if k > 0 {
        let first = whole[k - 1];
        assert(rank(free, whole[k - 1]) < rank(free, whole[k + n - 1]));
    }
}

/// A query over hidden entries gives the first visible ones: where a partition lives in
/// one stripe, in hot records and in compressed appends, paging accepts exactly what the
/// whole answer would, in its order.
pub proof fn paging_gives_first_visible(
    stripes: Seq<LogStripe>,
    query: LogQueryModel,
    hidden: Seq<SelectionModel>,
    room: nat,
)
    requires
        stripes.len() == 1,
        readable(stripes[0], query.partition),
        one_shard(whole_model(stripes[0], query.partition)),
        query.sort == QuerySort::Timestamp,
        query.after is None,
        query.limit is Some,
        query.limit->0 > 0,
    ensures
        ({
            let whole = whole_answer(whole_model(stripes[0], query.partition), query);
            paged_entries(stripes, query, hidden, room) == accepted_entries(
                whole,
                hidden,
                room,
                whole.len() as int,
            )
        }),
{
    let whole = whole_answer(whole_model(stripes[0], query.partition), query);
    lemma_pages_from(stripes, query, hidden, room, 0);
    assert(whole.subrange(0, whole.len() as int) =~= whole);
}

} // verus!
