//! Laws of paging through the records of a partition.
use vstd::prelude::*;

use crate::log_query::{LogQueryModel, QueryCursor, QuerySort, RecordModel};
use crate::order::{comes_before, lemma_order_exists, listed, order_of};
use crate::partition_index::{
    answer, lemma_matching, lemma_rising_len, matching, offsets_rise, ordinal_sort_keys,
    sorted_ordinals, PartitionModel,
};
use crate::posting::{limited, QueryOrder};
use crate::stripe_query::query_answer;

verus! {

broadcast use vstd::seq_lib::group_seq_properties;

/// Sort key of the record at an ordinal.
pub open spec fn ordinal_key(model: PartitionModel, query: LogQueryModel, ordinal: u32) -> u128 {
    query.key(model.records[ordinal as int])
}

/// Ordinals in strictly ascending key order.
pub open spec fn keys_rise(model: PartitionModel, query: LogQueryModel, ordinals: Seq<u32>) -> bool {
    forall|i: int, j: int|
        0 <= i < j < ordinals.len() ==> ordinal_key(model, query, #[trigger] ordinals[i])
            < ordinal_key(model, query, #[trigger] ordinals[j])
}

/// Ordinals of a partition's records, sorted for a query.
pub open spec fn in_key_order(model: PartitionModel, query: LogQueryModel) -> Seq<u32> {
    sorted_ordinals(matching(model, query, model.records.len()), model.records, query)
}

proof fn lemma_keys_differ(model: PartitionModel, query: LogQueryModel, a: int, b: int)
    requires
        offsets_rise(model.records),
        0 <= a < b < model.records.len(),
    ensures
        query.key(model.records[a]) != query.key(model.records[b]),
{
    let left = model.records[a];
    let right = model.records[b];
    assert(left.reference.offset.0 < right.reference.offset.0);
}

/// The sorted ordinals are those of the selected records, in strictly ascending key order.
pub proof fn lemma_in_key_order(model: PartitionModel, query: LogQueryModel)
    requires
        model.records.len() <= u32::MAX,
        offsets_rise(model.records),
        query.sort == QuerySort::Timestamp,
    ensures
        keys_rise(model, query, in_key_order(model, query)),
        forall|ordinal: u32|
            #[trigger] in_key_order(model, query).contains(ordinal) <==> (ordinal
                < model.records.len() && query.selects(
                model.records[ordinal as int],
                model.terms[ordinal as int],
            )),
{
    let found = matching(model, query, model.records.len());
    let keys = ordinal_sort_keys(found, model.records, query);
    let order = order_of(keys);
    let sorted = in_key_order(model, query);
    lemma_matching(model, query, model.records.len());
    lemma_rising_len(found, model.records.len());
    lemma_order_exists(keys);
    assert forall|i: int| 0 <= i < found.len() implies #[trigger] found[i]
        < model.records.len() by {
        assert(found.contains(found[i]));
    }
    assert forall|i: int, j: int| 0 <= i < j < sorted.len() implies ordinal_key(
        model,
        query,
        #[trigger] sorted[i],
    ) < ordinal_key(model, query, #[trigger] sorted[j]) by {
        let a = order[i] as int;
        let b = order[j] as int;
        assert(comes_before(keys, a, b));
        assert(sorted[i] == found[a] && sorted[j] == found[b]);
        if a < b {
            assert(found[a] < found[b]);
            lemma_keys_differ(model, query, found[a] as int, found[b] as int);
        } else {
            assert(a != b);
            assert(found[b] < found[a]);
            lemma_keys_differ(model, query, found[b] as int, found[a] as int);
        }
    }
    assert forall|ordinal: u32| sorted.contains(ordinal) == found.contains(ordinal) by {
        if sorted.contains(ordinal) {
            let i = choose|i: int| 0 <= i < sorted.len() && sorted[i] == ordinal;
            assert(found[order[i] as int] == ordinal);
        }
        if found.contains(ordinal) {
            let place = choose|place: int| 0 <= place < found.len() && found[place] == ordinal;
            assert(listed(order, place));
            let i = choose|i: int| 0 <= i < order.len() && #[trigger] order[i] == place;
            assert(sorted[i] == ordinal);
        }
    }
    assert forall|ordinal: u32|
        #[trigger] sorted.contains(ordinal) <==> (ordinal < model.records.len() && query.selects(
            model.records[ordinal as int],
            model.terms[ordinal as int],
        )) by {
        assert(sorted.contains(ordinal) == found.contains(ordinal));
    }
}

proof fn lemma_key_order_unique(
    model: PartitionModel,
    query: LogQueryModel,
    left: Seq<u32>,
    right: Seq<u32>,
)
    requires
        keys_rise(model, query, left),
        keys_rise(model, query, right),
        forall|ordinal: u32| left.contains(ordinal) == right.contains(ordinal),
    ensures
        left == right,
    decreases left.len(),
{
    if left.len() == 0 {
        if right.len() > 0 {
            assert(right.contains(right[0]));
            assert(left.contains(right[0]));
        }
        assert(left =~= right);
    } else {
        assert(left.contains(left.last()));
        assert(right.contains(left.last()));
        assert(right.contains(right.last()));
        assert(left.contains(right.last()));
        let a = choose|a: int| 0 <= a < right.len() && right[a] == left.last();
        let b = choose|b: int| 0 <= b < left.len() && left[b] == right.last();
        if a < right.len() - 1 {
            assert(ordinal_key(model, query, right[a]) < ordinal_key(
                model,
                query,
                right[right.len() - 1],
            ));
        }
        if b < left.len() - 1 {
            assert(ordinal_key(model, query, left[b]) < ordinal_key(
                model,
                query,
                left[left.len() - 1],
            ));
        }
        assert(left.last() == right.last());
        let l = left.drop_last();
        let r = right.drop_last();
        assert forall|ordinal: u32| l.contains(ordinal) == r.contains(ordinal) by {
            lemma_without_last(model, query, left, ordinal);
            lemma_without_last(model, query, right, ordinal);
            assert(left.contains(ordinal) == right.contains(ordinal));
        }
        lemma_key_order_unique(model, query, l, r);
        assert(left =~= l.push(left.last()));
        assert(right =~= r.push(right.last()));
    }
}

proof fn lemma_without_last(
    model: PartitionModel,
    query: LogQueryModel,
    ordinals: Seq<u32>,
    ordinal: u32,
)
    requires
        keys_rise(model, query, ordinals),
        ordinals.len() > 0,
    ensures
        ordinals.drop_last().contains(ordinal) == (ordinals.contains(ordinal) && ordinal
            != ordinals.last()),
{
    let front = ordinals.drop_last();
    if front.contains(ordinal) {
        let k = choose|k: int| 0 <= k < front.len() && front[k] == ordinal;
        assert(ordinals[k] == ordinal);
        assert(ordinal_key(model, query, ordinals[k]) < ordinal_key(
            model,
            query,
            ordinals[ordinals.len() - 1],
        ));
    }
    if ordinals.contains(ordinal) && ordinal != ordinals.last() {
        let k = choose|k: int| 0 <= k < ordinals.len() && ordinals[k] == ordinal;
        assert(front[k] == ordinal);
    }
}

proof fn lemma_selects_less(
    query: LogQueryModel,
    next: LogQueryModel,
    record: RecordModel,
    terms: Seq<Seq<char>>,
)
    requires
        next == (LogQueryModel { after: next.after, limit: next.limit, ..query }),
        next.selects(record, terms),
    ensures
        (LogQueryModel { after: None, ..query }).selects(record, terms),
        next.behind_cursor(query.key(record)),
        next.after == query.after ==> query.selects(record, terms),
{
    assert(next.key(record) == query.key(record));
    assert forall|i: int| 0 <= i < query.terms.len() implies terms.contains(
        #[trigger] query.terms[i],
    ) by {
        assert(terms.contains(next.terms[i]));
    }
    assert forall|i: int| 0 <= i < query.fields.len() implies record.fields.contains(
        #[trigger] query.fields[i],
    ) by {
        assert(record.fields.contains(next.fields[i]));
    }
    assert(next.offset_fits(record) && query.offset_fits(record));
}

proof fn lemma_selects_more(
    query: LogQueryModel,
    next: LogQueryModel,
    record: RecordModel,
    terms: Seq<Seq<char>>,
)
    requires
        next == (LogQueryModel { after: next.after, limit: next.limit, ..query }),
        query.after is None,
        query.selects(record, terms),
        next.behind_cursor(query.key(record)),
    ensures
        next.selects(record, terms),
{
    assert(next.key(record) == query.key(record));
    assert forall|i: int| 0 <= i < next.terms.len() implies terms.contains(
        #[trigger] next.terms[i],
    ) by {
        assert(terms.contains(query.terms[i]));
    }
    assert forall|i: int| 0 <= i < next.fields.len() implies record.fields.contains(
        #[trigger] next.fields[i],
    ) by {
        assert(record.fields.contains(query.fields[i]));
    }
    assert(query.offset_fits(record) && next.offset_fits(record));
}

/// The place of a record.
pub open spec fn cursor_at(record: RecordModel) -> QueryCursor {
    QueryCursor {
        timestamp_unix_nanos: record.timestamp,
        offset: record.reference.offset,
    }
}

/// The whole answer of a partition: no limit and no cursor.
pub open spec fn whole_answer(model: PartitionModel, query: LogQueryModel) -> Seq<RecordModel> {
    query_answer(model, LogQueryModel { limit: None, after: None, ..query })
}

proof fn lemma_behind(model: PartitionModel, query: LogQueryModel, k: int)
    requires
        model.records.len() <= u32::MAX,
        offsets_rise(model.records),
        query.sort == QuerySort::Timestamp,
        query.limit is None,
        query.after is None,
        0 < k <= answer(model, query).len(),
    ensures
        answer(
            model,
            LogQueryModel {
                after: Some(cursor_at(model.records[answer(model, query)[k - 1] as int])),
                ..query
            },
        ) == answer(model, query).subrange(k, answer(model, query).len() as int),
{
    let all = in_key_order(model, query);
    let total = all.len() as int;
    let full = answer(model, query);
    let last = full[k - 1];
    let next = LogQueryModel { after: Some(cursor_at(model.records[last as int])), ..query };
    let rest = in_key_order(model, next);
    lemma_in_key_order(model, query);
    lemma_in_key_order(model, next);
    let at = match query.order {
        QueryOrder::OldestFirst => k - 1,
        QueryOrder::NewestFirst => total - k,
    };
    assert(last == all[at]);
    let wanted = match query.order {
        QueryOrder::OldestFirst => all.subrange(k, total),
        QueryOrder::NewestFirst => all.subrange(0, total - k),
    };
    let place = ordinal_key(model, query, last);
    assert forall|ordinal: u32| #[trigger] wanted.contains(ordinal) == rest.contains(ordinal) by {
        assert(ordinal_key(model, query, ordinal) == ordinal_key(model, next, ordinal));
        assert(next.behind_cursor(ordinal_key(model, next, ordinal)) == match query.order {
            QueryOrder::OldestFirst => ordinal_key(model, query, ordinal) > place,
            QueryOrder::NewestFirst => ordinal_key(model, query, ordinal) < place,
        });
        assert(rest.contains(ordinal) <==> all.contains(ordinal) && next.behind_cursor(
            ordinal_key(model, next, ordinal),
        )) by {
            let record = model.records[ordinal as int];
            let terms = model.terms[ordinal as int];
            if rest.contains(ordinal) {
                lemma_selects_less(query, next, record, terms);
                assert((LogQueryModel { after: None, ..query }) == query);
            }
            if all.contains(ordinal) && next.behind_cursor(ordinal_key(model, next, ordinal)) {
                lemma_selects_more(query, next, record, terms);
            }
        }
        if wanted.contains(ordinal) {
            let i = choose|i: int| 0 <= i < wanted.len() && wanted[i] == ordinal;
            let j = match query.order {
                QueryOrder::OldestFirst => i + k,
                QueryOrder::NewestFirst => i,
            };
            assert(all[j] == ordinal);
            if j < at {
                assert(ordinal_key(model, query, all[j]) < ordinal_key(model, query, all[at]));
            } else {
                assert(ordinal_key(model, query, all[at]) < ordinal_key(model, query, all[j]));
            }
        }
        if rest.contains(ordinal) {
            let j = choose|j: int| 0 <= j < all.len() && all[j] == ordinal;
            if j < at {
                assert(ordinal_key(model, query, all[j]) < ordinal_key(model, query, all[at]));
            } else if j > at {
                assert(ordinal_key(model, query, all[at]) < ordinal_key(model, query, all[j]));
            }
            match query.order {
                QueryOrder::OldestFirst => {
                    assert(wanted[j - k] == ordinal);
                },
                QueryOrder::NewestFirst => {
                    assert(wanted[j] == ordinal);
                },
            }
        }
    }
    assert(keys_rise(model, query, rest)) by {
        assert forall|i: int, j: int| 0 <= i < j < rest.len() implies ordinal_key(
            model,
            query,
            #[trigger] rest[i],
        ) < ordinal_key(model, query, #[trigger] rest[j]) by {
            assert(ordinal_key(model, next, rest[i]) < ordinal_key(model, next, rest[j]));
        }
    }
    assert forall|ordinal: u32| wanted.contains(ordinal) == rest.contains(ordinal) by {}
    lemma_key_order_unique(model, query, wanted, rest);
    match query.order {
        QueryOrder::OldestFirst => {
            assert(answer(model, next) =~= full.subrange(k, full.len() as int));
        },
        QueryOrder::NewestFirst => {
            assert(answer(model, next) =~= full.subrange(k, full.len() as int));
        },
    }
}

/// Pages lose no record and repeat none: the page behind the `k`th record of the whole
/// answer is what follows it there, up to the limit.
pub proof fn pages_continue(model: PartitionModel, query: LogQueryModel, k: int)
    requires
        model.records.len() <= u32::MAX,
        offsets_rise(model.records),
        query.sort == QuerySort::Timestamp,
        query.after is None,
        query.limit is Some,
        0 <= k <= whole_answer(model, query).len(),
    ensures
        k == 0 ==> query_answer(model, query) == limited(
            whole_answer(model, query),
            query.limit->0 as nat,
        ),
        k > 0 ==> query_answer(
            model,
            LogQueryModel { after: Some(cursor_at(whole_answer(model, query)[k - 1])), ..query },
        ) == limited(
            whole_answer(model, query).subrange(k, whole_answer(model, query).len() as int),
            query.limit->0 as nat,
        ),
{
    let free = LogQueryModel { limit: None, after: None, ..query };
    let whole = whole_answer(model, query);
    lemma_limit_cuts(model, query);
    assert((LogQueryModel { limit: None, ..query }) == free);
    if k > 0 {
        let cursor = cursor_at(whole[k - 1]);
        let next = LogQueryModel { after: Some(cursor), ..query };
        lemma_behind(model, free, k);
        lemma_limit_cuts(model, next);
        assert((LogQueryModel { limit: None, ..next }) == (LogQueryModel {
            after: Some(cursor),
            ..free
        }));
        assert(query_answer(model, LogQueryModel { limit: None, ..next }) =~= whole.subrange(
            k,
            whole.len() as int,
        ));
    }
}

/// A limit keeps the first records of the answer.
pub proof fn lemma_limit_cuts(model: PartitionModel, query: LogQueryModel)
    requires
        query.limit is Some,
    ensures
        query_answer(model, query) == limited(
            query_answer(model, LogQueryModel { limit: None, ..query }),
            query.limit->0 as nat,
        ),
{
    let free = LogQueryModel { limit: None, ..query };
    lemma_matching_free(model, query, model.records.len());
    let found = matching(model, query, model.records.len());
    assert(ordinal_sort_keys(found, model.records, query) =~= ordinal_sort_keys(
        found,
        model.records,
        free,
    ));
    assert(query_answer(model, query) =~= limited(
        query_answer(model, free),
        query.limit->0 as nat,
    ));
}

proof fn lemma_matching_free(model: PartitionModel, query: LogQueryModel, count: nat)
    ensures
        matching(model, query, count) == matching(
            model,
            LogQueryModel { limit: None, ..query },
            count,
        ),
    decreases count,
{
    if count > 0 {
        lemma_matching_free(model, query, (count - 1) as nat);
        let free = LogQueryModel { limit: None, ..query };
        let record = model.records[count - 1];
        let terms = model.terms[count - 1];
        if query.selects(record, terms) {
            lemma_selects_less(free, query, record, terms);
        }
        if free.selects(record, terms) {
            lemma_selects_less(query, free, record, terms);
        }
    }
}

} // verus!
