//! Laws of native queries, over what they ask for.
use vstd::multiset::Multiset;
use vstd::prelude::*;

use crate::api_error::ApiFault;
use crate::durable_query::{
    accepted_entries, accepted_in_all, accepted_keys, cursor_room, db_page, direction_order,
    filtered_answer_of, first_accepted, hidden_page_limit, native_answer_of, native_log_query_of,
    native_queries_of, native_result, paged_entries, stored_entries, Accepted,
};
use crate::durable_store::{retained_start, stored_entry};
use crate::first_laws::{first_items_suffice, lemma_bag_has, lists_first, sorting_lists_first};
use crate::frame_laws::{visible, Document};
use crate::log_query::{LogQueryModel, RecordModel};
use crate::log_service::{partitions_answer, same_but_partition, share_page};
use crate::log_stripe::LogStripe;
use crate::loki_delete::{deleted_selections, is_deleted, DeleteModel};
use crate::loki_query::{parse_query_text, selects_entry};
use crate::loki_stats::SelectionModel;
use crate::native_query::{NativeQueryDirection, QueryModel};
use crate::order::{arranged, order_of};
use crate::posting::{limited, QueryOrder};
use crate::query_laws::cursor_at;
use crate::record::{EntryModel, TopicPartition};
use crate::store_laws::{
    answers_are_asked_for, asks_for, found_in_all, given_by, gives, lemma_all_found_are_asked,
    lemma_all_found_len, partitions_of, place_by, stock, stock_of_all, stores_answer_first,
};
use crate::stripe_query::{page, ranks};
use crate::text::normal_term;

verus! {

broadcast use vstd::seq_lib::group_seq_properties;

/// Whether a native query asks for a document: a record of its tenant that carries each of
/// its labels, whose message has each of its terms in search form, and that lies in its
/// half-open time range and is not older than the retention cutoff.
pub open spec fn is_wanted(request: QueryModel, cutoff: Option<u64>, document: Document) -> bool {
    let record = document.0;
    &&& record.fields.contains(("resource.loki.tenant"@, request.tenant))
    &&& forall|name: Seq<char>, value: Seq<char>| #[trigger]
        request.labels.contains((name, value)) ==> record.fields.contains(
            ("resource.loki.label."@ + name, value),
        )
    &&& forall|term: Seq<char>| #[trigger]
        request.terms.contains(term) ==> document.1.contains(normal_term(term))
    &&& (request.start matches Some(start) ==> start <= record.timestamp)
    &&& (request.end matches Some(end) ==> record.timestamp < end)
    &&& (cutoff matches Some(cutoff) ==> cutoff <= record.timestamp)
}

/// Whether a received deletion request covers an entry.
pub open spec fn is_erased(deletes: Seq<DeleteModel>, entry: EntryModel) -> bool {
    exists|i: int|
        0 <= i < deletes.len() && (#[trigger] deletes[i]).status == "received"@ && deletes[i].start
            <= entry.timestamp <= deletes[i].end && (parse_query_text(deletes[i].query) matches Ok(
            selector,
        ) && selects_entry(selector, entry))
}

/// Whether an entry is that of a document of stripes that a native query asks for and that
/// no deletion covers.
pub open spec fn is_shown(
    stripes: Seq<LogStripe>,
    partitions: Seq<TopicPartition>,
    request: QueryModel,
    deletes: Seq<DeleteModel>,
    cutoff: Option<u64>,
    entry: EntryModel,
) -> bool {
    exists|s: int, p: int, k: int|
        #![trigger visible(stripes[s], partitions[p])[k]]
        0 <= s < stripes.len() && 0 <= p < partitions.len() && 0 <= k < visible(
            stripes[s],
            partitions[p],
        ).len() && is_wanted(request, cutoff, visible(stripes[s], partitions[p])[k])
            && stored_entry(visible(stripes[s], partitions[p])[k].0) == Ok::<_, ApiFault>(entry)
            && !is_erased(deletes, entry)
}

pub proof fn lemma_native_asks(
    request: QueryModel,
    cutoff: Option<u64>,
    partition: TopicPartition,
    limit: usize,
    document: Document,
)
    ensures
        asks_for(
            native_log_query_of(
                request,
                partition,
                retained_start(request.start, cutoff),
                limit,
                None,
            ),
            document,
        ) == (document.0.reference.topic_partition == partition && is_wanted(
            request,
            cutoff,
            document,
        )),
{
    let query = native_log_query_of(
        request,
        partition,
        retained_start(request.start, cutoff),
        limit,
        None,
    );
    let record = document.0;
    if asks_for(query, document) {
        assert(query.fields[0] == ("resource.loki.tenant"@, request.tenant));
        assert(query.fields.contains(query.fields[0]));
        assert forall|name: Seq<char>, value: Seq<char>| #[trigger]
            request.labels.contains((name, value)) implies record.fields.contains(
            ("resource.loki.label."@ + name, value),
        ) by {
            let i = choose|i: int| 0 <= i < request.labels.len() && request.labels[i] == (name, value);
            assert(query.fields[i + 1] == ("resource.loki.label."@ + name, value));
            assert(query.fields.contains(query.fields[i + 1]));
        }
        assert forall|term: Seq<char>| #[trigger]
            request.terms.contains(term) implies document.1.contains(normal_term(term)) by {
            let i = choose|i: int| 0 <= i < request.terms.len() && request.terms[i] == term;
            assert(query.terms[i] == normal_term(term));
            assert(query.terms.contains(query.terms[i]));
        }
    }
    if record.reference.topic_partition == partition && is_wanted(request, cutoff, document) {
        assert forall|term: Seq<char>| #[trigger] query.terms.contains(term) implies document.1.contains(
            term,
        ) by {
            let i = choose|i: int| 0 <= i < query.terms.len() && query.terms[i] == term;
            assert(request.terms.contains(request.terms[i]));
        }
        assert forall|field: (Seq<char>, Seq<char>)| #[trigger]
            query.fields.contains(field) implies record.fields.contains(field) by {
            let i = choose|i: int| 0 <= i < query.fields.len() && query.fields[i] == field;
            if i > 0 {
                let label = request.labels[i - 1];
                assert(request.labels.contains((label.0, label.1)));
                assert(field == ("resource.loki.label."@ + label.0, label.1));
            }
        }
    }
}

/// Compiled deletions cover what the received requests cover, and compiling fails where the
/// query of a received request does not parse.
pub proof fn deletions_cover_what_they_ask_for(deletes: Seq<DeleteModel>)
    ensures
        deleted_selections(deletes) is Ok <==> forall|i: int|
            0 <= i < deletes.len() && (#[trigger] deletes[i]).status == "received"@
                ==> parse_query_text(deletes[i].query) is Ok,
        deleted_selections(deletes) matches Ok(hidden) ==> {
            &&& forall|entry: EntryModel| #[trigger]
                is_deleted(hidden, entry) == is_erased(deletes, entry)
            &&& (hidden.len() == 0 <==> forall|i: int|
                0 <= i < deletes.len() ==> (#[trigger] deletes[i]).status != "received"@)
        },
    decreases deletes.len(),
{
    if deletes.len() > 0 {
        let early = deletes.drop_last();
        let last = deletes.last();
        deletions_cover_what_they_ask_for(early);
        assert(deletes[deletes.len() - 1] == last);
        assert forall|i: int| 0 <= i < early.len() implies #[trigger] early[i] == deletes[i] by {}
        if deleted_selections(early) is Err {
            let i = choose|i: int|
                0 <= i < early.len() && (#[trigger] early[i]).status == "received"@
                    && parse_query_text(early[i].query) is Err;
            assert(deletes[i].status == "received"@);
        }
        if deleted_selections(deletes) is Ok {
            let hidden = deleted_selections(deletes)->Ok_0;
            let front = deleted_selections(early)->Ok_0;
            assert forall|i: int|
                0 <= i < deletes.len() && (#[trigger] deletes[i]).status
                    == "received"@ implies parse_query_text(deletes[i].query) is Ok by {
                if i < early.len() {
                    assert(early[i] == deletes[i]);
                }
            }
            assert forall|entry: EntryModel| #[trigger] is_deleted(hidden, entry) == is_erased(
                deletes,
                entry,
            ) by {
                assert(is_deleted(front, entry) == is_erased(early, entry));
                if is_deleted(hidden, entry) {
                    let i = choose|i: int|
                        0 <= i < hidden.len() && crate::loki_stats::selection_holds(
                            #[trigger] hidden[i],
                            entry,
                        );
                    if i < front.len() {
                        assert(front[i] == hidden[i]);
                        let k = choose|k: int|
                            0 <= k < early.len() && (#[trigger] early[k]).status == "received"@
                                && early[k].start <= entry.timestamp <= early[k].end && (
                            parse_query_text(early[k].query) matches Ok(selector) && selects_entry(
                                selector,
                                entry,
                            ));
                        assert(deletes[k] == early[k]);
                    } else {
                        assert(deletes[deletes.len() - 1].status == "received"@);
                    }
                }
                if is_erased(deletes, entry) {
                    let k = choose|k: int|
                        0 <= k < deletes.len() && (#[trigger] deletes[k]).status == "received"@
                            && deletes[k].start <= entry.timestamp <= deletes[k].end && (
                        parse_query_text(deletes[k].query) matches Ok(selector) && selects_entry(
                            selector,
                            entry,
                        ));
                    if k < early.len() {
                        assert(early[k] == deletes[k]);
                        let i = choose|i: int|
                            0 <= i < front.len() && crate::loki_stats::selection_holds(
                                #[trigger] front[i],
                                entry,
                            );
                        assert(hidden[i] == front[i]);
                    } else {
                        assert(crate::loki_stats::selection_holds(hidden[hidden.len() - 1], entry));
                    }
                }
            }
            if forall|i: int|
                0 <= i < deletes.len() ==> (#[trigger] deletes[i]).status != "received"@ {
                assert forall|i: int| 0 <= i < early.len() implies (#[trigger] early[i]).status
                    != "received"@ by {
                    assert(deletes[i].status != "received"@);
                }
            }
            if hidden.len() == 0 {
                assert forall|i: int| 0 <= i < deletes.len() implies (#[trigger] deletes[i]).status
                    != "received"@ by {
                    if i < early.len() {
                        assert(early[i].status != "received"@);
                    }
                }
            }
        } else if deleted_selections(early) is Ok {
            assert(deletes[deletes.len() - 1].status == "received"@);
        }
    }
}

pub proof fn lemma_stored_entries(records: Seq<RecordModel>)
    ensures
        stored_entries(records) matches Ok(entries) ==> entries.len() == records.len() && forall|
            i: int,
        |
            0 <= i < records.len() ==> stored_entry(#[trigger] records[i]) == Ok::<_, ApiFault>(
                entries[i],
            ),
        stored_entries(records) is Ok <==> forall|i: int|
            0 <= i < records.len() ==> (#[trigger] records[i]).timestamp <= i64::MAX,
    decreases records.len(),
{
    if records.len() > 0 {
        let early = records.drop_last();
        lemma_stored_entries(early);
        assert(records[records.len() - 1] == records.last());
        if stored_entries(early) is Err {
            let i = choose|i: int|
                0 <= i < early.len() && (#[trigger] early[i]).timestamp > i64::MAX;
            assert(records[i].timestamp > i64::MAX);
        } else if stored_entries(records) is Ok {
            let entries = stored_entries(records)->Ok_0;
            assert forall|i: int| 0 <= i < records.len() implies (
            #[trigger] records[i]).timestamp <= i64::MAX && stored_entry(records[i]) == Ok::<
                _,
                ApiFault,
            >(entries[i]) by {
                if i < early.len() {
                    assert(early[i] == records[i]);
                }
            }
        }
    }
}

/// The records of the answer where nothing is hidden.
pub open spec fn native_records(
    stripes: Seq<LogStripe>,
    partitions: Seq<TopicPartition>,
    request: QueryModel,
    cutoff: Option<u64>,
) -> Seq<RecordModel> {
    let queries = native_queries_of(request, partitions, retained_start(request.start, cutoff));
    page(queries[0], partitions_answer(stripes, queries), Some(request.limit as usize))
}

pub proof fn lemma_native_records(
    stripes: Seq<LogStripe>,
    partitions: Seq<TopicPartition>,
    request: QueryModel,
    cutoff: Option<u64>,
)
    requires
        forall|i: int| 0 <= i < stripes.len() ==> (#[trigger] stripes[i]).well_formed(),
        partitions.len() > 0,
        stock_of_all(stripes, partitions) <= usize::MAX,
    ensures
        ({
            let queries = native_queries_of(
                request,
                partitions,
                retained_start(request.start, cutoff),
            );
            lists_first(
                place_by(queries[0]),
                found_in_all(stripes, queries).to_multiset(),
                request.limit as nat,
                native_records(stripes, partitions, request, cutoff),
            )
        }),
{
    let queries = native_queries_of(request, partitions, retained_start(request.start, cutoff));
    let base = queries[0];
    let limit = request.limit as usize;
    let found = found_in_all(stripes, queries);
    let given = partitions_answer(stripes, queries);
    let none = Multiset::<RecordModel>::empty();
    assert(partitions_of(queries) =~= partitions);
    assert forall|i: int| 0 <= i < queries.len() implies same_but_partition(
        base,
        #[trigger] queries[i],
    ) by {
        assert(queries[i] == native_log_query_of(
            request,
            partitions[i],
            retained_start(request.start, cutoff),
            limit,
            None,
        ));
    }
    assert(share_page(queries));
    lemma_all_found_len(stripes, queries);
    stores_answer_first(stripes, queries);
    vstd::seq_lib::to_multiset_len(found);
    sorting_lists_first(place_by(base), given, ranks(base, given), limit as nat);
    assert(given.to_multiset().add(none) =~= given.to_multiset());
    first_items_suffice(
        place_by(base),
        found.to_multiset(),
        none,
        limit as nat,
        given,
        native_records(stripes, partitions, request, cutoff),
    );
    assert(found.to_multiset().add(none) =~= found.to_multiset());
}

/// Whether a time does not come after another one in a direction.
pub open spec fn not_behind(direction: NativeQueryDirection, left: int, right: int) -> bool {
    match direction {
        NativeQueryDirection::OldestFirst => left <= right,
        NativeQueryDirection::NewestFirst => left >= right,
    }
}

pub proof fn lemma_record_source(
    stripes: Seq<LogStripe>,
    partitions: Seq<TopicPartition>,
    request: QueryModel,
    cutoff: Option<u64>,
    record: RecordModel,
) -> (at: (int, int, int))
    requires
        given_by(
            stripes,
            native_queries_of(request, partitions, retained_start(request.start, cutoff)),
            record,
        ),
    ensures
        0 <= at.0 < stripes.len(),
        0 <= at.1 < partitions.len(),
        0 <= at.2 < visible(stripes[at.0], partitions[at.1]).len(),
        visible(stripes[at.0], partitions[at.1])[at.2].0 == record,
        is_wanted(request, cutoff, visible(stripes[at.0], partitions[at.1])[at.2]),
{
    let start = retained_start(request.start, cutoff);
    let limit = request.limit as usize;
    let queries = native_queries_of(request, partitions, start);
    let (s, p) = choose|s: int, p: int|
        0 <= s < stripes.len() && 0 <= p < queries.len() && gives(
            #[trigger] stripes[s],
            #[trigger] queries[p],
            record,
        );
    assert(queries[p] == native_log_query_of(request, partitions[p], start, limit, None));
    let documents = visible(stripes[s], partitions[p]);
    let k = choose|k: int|
        0 <= k < documents.len() && (#[trigger] documents[k]).0 == record && asks_for(
            queries[p],
            documents[k],
        );
    lemma_native_asks(request, cutoff, partitions[p], limit, documents[k]);
    (s, p, k)
}

proof fn lemma_plain_answer_is_shown(
    stripes: Seq<LogStripe>,
    partitions: Seq<TopicPartition>,
    request: QueryModel,
    deletes: Seq<DeleteModel>,
    cutoff: Option<u64>,
    entries: Seq<EntryModel>,
)
    requires
        forall|i: int| 0 <= i < stripes.len() ==> (#[trigger] stripes[i]).well_formed(),
        partitions.len() > 0,
        stock_of_all(stripes, partitions) <= usize::MAX,
        native_answer_of(
            stripes,
            partitions,
            request,
            retained_start(request.start, cutoff),
        ) == Ok::<_, ApiFault>(entries),
        deleted_selections(deletes) == Ok::<_, ApiFault>(Seq::<SelectionModel>::empty()),
    ensures
        entries.len() <= request.limit,
        forall|i: int|
            0 <= i < entries.len() ==> is_shown(
                stripes,
                partitions,
                request,
                deletes,
                cutoff,
                #[trigger] entries[i],
            ),
        forall|i: int, j: int|
            0 <= i < j < entries.len() ==> not_behind(
                request.direction,
                (#[trigger] entries[i]).timestamp as int,
                (#[trigger] entries[j]).timestamp as int,
            ),
{
    let queries = native_queries_of(request, partitions, retained_start(request.start, cutoff));
    let found = found_in_all(stripes, queries);
    let records = native_records(stripes, partitions, request, cutoff);
    lemma_native_records(stripes, partitions, request, cutoff);
    lemma_stored_entries(records);
    deletions_cover_what_they_ask_for(deletes);
    assert forall|i: int| 0 <= i < entries.len() implies is_shown(
        stripes,
        partitions,
        request,
        deletes,
        cutoff,
        #[trigger] entries[i],
    ) by {
        let record = records[i];
        lemma_bag_has(records, record);
        lemma_bag_has(found, record);
        lemma_all_found_are_asked(stripes, queries, record);
        let at = lemma_record_source(stripes, partitions, request, cutoff, record);
        assert(stored_entry(records[i]) == Ok::<_, ApiFault>(entries[i]));
        assert(!is_deleted(Seq::<SelectionModel>::empty(), entries[i]));
        let document = visible(stripes[at.0], partitions[at.1])[at.2];
        assert(document.0 == record);
    }
    assert forall|i: int, j: int| 0 <= i < j < entries.len() implies not_behind(
        request.direction,
        (#[trigger] entries[i]).timestamp as int,
        (#[trigger] entries[j]).timestamp as int,
    ) by {
        let key = place_by(queries[0]);
        assert(key(records[i]) <= key(records[j]));
        assert(stored_entry(records[i]) == Ok::<_, ApiFault>(entries[i]));
        assert(stored_entry(records[j]) == Ok::<_, ApiFault>(entries[j]));
    }
}

/// Whether an accepted entry is that of a record, at its offset, and not hidden.
pub open spec fn is_entry_of(record: RecordModel, hidden: Seq<SelectionModel>, item: Accepted) -> bool {
    &&& stored_entry(record) == Ok::<_, ApiFault>(item.0)
    &&& record.reference.offset.0 == item.1
    &&& !is_deleted(hidden, item.0)
}

proof fn lemma_accepted_source(
    records: Seq<RecordModel>,
    hidden: Seq<SelectionModel>,
    room: nat,
    count: int,
)
    requires
        0 <= count <= records.len(),
    ensures
        accepted_entries(records, hidden, room, count) matches Ok(taken) ==> taken.len() <= room
            && forall|n: int|
            0 <= n < taken.len() ==> exists|i: int|
                0 <= i < count && is_entry_of(#[trigger] records[i], hidden, #[trigger] taken[n]),
    decreases count,
{
    if count > 0 {
        lemma_accepted_source(records, hidden, room, count - 1);
        if accepted_entries(records, hidden, room, count) is Ok {
            let taken = accepted_entries(records, hidden, room, count)->Ok_0;
            let front = accepted_entries(records, hidden, room, count - 1)->Ok_0;
            assert forall|n: int| 0 <= n < taken.len() implies exists|i: int|
                0 <= i < count && is_entry_of(
                    #[trigger] records[i],
                    hidden,
                    #[trigger] taken[n],
                ) by {
                if n < front.len() {
                    assert(taken[n] == front[n]);
                    let i = choose|i: int|
                        0 <= i < count - 1 && is_entry_of(
                            #[trigger] records[i],
                            hidden,
                            #[trigger] front[n],
                        );
                    assert(is_entry_of(records[i], hidden, taken[n]));
                } else {
                    assert(is_entry_of(records[count - 1], hidden, taken[n]));
                }
            }
        }
    }
}

/// Whether an accepted entry is that of a document that a query asks for, wherever its
/// cursor is.
spec fn is_paged_from(
    stripes: Seq<LogStripe>,
    query: LogQueryModel,
    hidden: Seq<SelectionModel>,
    item: Accepted,
) -> bool {
    exists|s: int, k: int|
        #![trigger visible(stripes[s], query.partition)[k]]
        0 <= s < stripes.len() && 0 <= k < visible(stripes[s], query.partition).len() && asks_for(
            LogQueryModel { after: None, ..query },
            visible(stripes[s], query.partition)[k],
        ) && is_entry_of(visible(stripes[s], query.partition)[k].0, hidden, item)
}

proof fn lemma_page_source(
    stripes: Seq<LogStripe>,
    query: LogQueryModel,
    hidden: Seq<SelectionModel>,
    room: nat,
)
    requires
        forall|i: int| 0 <= i < stripes.len() ==> (#[trigger] stripes[i]).well_formed(),
        stock_of_all(stripes, seq![query.partition]) <= usize::MAX,
    ensures
        ({
            let found = db_page(stripes, query);
            accepted_entries(found, hidden, room, found.len() as int) matches Ok(taken)
                ==> taken.len() <= room && forall|n: int|
                0 <= n < taken.len() ==> is_paged_from(stripes, query, hidden, #[trigger] taken[n])
        }),
{
    let found = db_page(stripes, query);
    answers_are_asked_for(stripes, query);
    lemma_accepted_source(found, hidden, room, found.len() as int);
    if accepted_entries(found, hidden, room, found.len() as int) is Ok {
        let taken = accepted_entries(found, hidden, room, found.len() as int)->Ok_0;
        assert forall|n: int| 0 <= n < taken.len() implies is_paged_from(
            stripes,
            query,
            hidden,
            #[trigger] taken[n],
        ) by {
            let i = choose|i: int|
                0 <= i < found.len() && is_entry_of(#[trigger] found[i], hidden, taken[n]);
            let record = found[i];
            let s = choose|s: int|
                0 <= s < stripes.len() && gives(#[trigger] stripes[s], query, found[i]);
            let documents = visible(stripes[s], query.partition);
            let k = choose|k: int|
                0 <= k < documents.len() && (#[trigger] documents[k]).0 == record && asks_for(
                    query,
                    documents[k],
                );
            assert(asks_for(LogQueryModel { after: None, ..query }, documents[k]));
        }
    }
}

proof fn lemma_paged_source(
    stripes: Seq<LogStripe>,
    query: LogQueryModel,
    hidden: Seq<SelectionModel>,
    room: nat,
)
    requires
        forall|i: int| 0 <= i < stripes.len() ==> (#[trigger] stripes[i]).well_formed(),
        stock_of_all(stripes, seq![query.partition]) <= usize::MAX,
    ensures
        paged_entries(stripes, query, hidden, room) matches Ok(items) ==> items.len() <= room
            && forall|n: int|
            0 <= n < items.len() ==> is_paged_from(stripes, query, hidden, #[trigger] items[n]),
    decreases cursor_room(query),
{
    let found = db_page(stripes, query);
    lemma_page_source(stripes, query, hidden, room);
    if found.len() > 0 && accepted_entries(found, hidden, room, found.len() as int) is Ok {
        let taken = accepted_entries(found, hidden, room, found.len() as int)->Ok_0;
        let next = LogQueryModel {
            after: Some(cursor_at(found.last())),
            ..query
        };
        if !(taken.len() >= room || query.limit is None || found.len() < query.limit->0
            || cursor_room(next) >= cursor_room(query)) {
            let rest = (room - taken.len()) as nat;
            lemma_paged_source(stripes, next, hidden, rest);
            if paged_entries(stripes, query, hidden, room) is Ok {
                let items = paged_entries(stripes, query, hidden, room)->Ok_0;
                let more = paged_entries(stripes, next, hidden, rest)->Ok_0;
                assert forall|n: int| 0 <= n < items.len() implies is_paged_from(
                    stripes,
                    query,
                    hidden,
                    #[trigger] items[n],
                ) by {
                    if n < taken.len() {
                        assert(items[n] == taken[n]);
                    } else {
                        assert(items[n] == more[n - taken.len()]);
                        assert(is_paged_from(stripes, next, hidden, more[n - taken.len()]));
                        let (s, k) = choose|s: int, k: int|
                            #![trigger visible(stripes[s], next.partition)[k]]
                            0 <= s < stripes.len() && 0 <= k < visible(
                                stripes[s],
                                next.partition,
                            ).len() && asks_for(
                                LogQueryModel { after: None, ..next },
                                visible(stripes[s], next.partition)[k],
                            ) && is_entry_of(
                                visible(stripes[s], next.partition)[k].0,
                                hidden,
                                more[n - taken.len()],
                            );
                        let document = visible(stripes[s], query.partition)[k];
                        assert((LogQueryModel { after: None, ..next }) == (LogQueryModel {
                            after: None,
                            ..query
                        }));
                    }
                }
            }
        }
    }
}

proof fn lemma_stock_of_one(stripe: LogStripe, partitions: Seq<TopicPartition>, p: int)
    requires
        0 <= p < partitions.len(),
    ensures
        stock(stripe, seq![partitions[p]]) <= stock(stripe, partitions),
    decreases partitions.len(),
{
    let one = seq![partitions[p]];
    assert(one.drop_last() =~= Seq::<TopicPartition>::empty());
    assert(one.last() == partitions[p]);
    assert(stock(stripe, one.drop_last()) == 0);
    if p < partitions.len() - 1 {
        assert(partitions.drop_last()[p] == partitions[p]);
        lemma_stock_of_one(stripe, partitions.drop_last(), p);
    } else {
        assert(partitions.last() == partitions[p]);
    }
}

pub proof fn lemma_stock_of_part(stripes: Seq<LogStripe>, partitions: Seq<TopicPartition>, p: int)
    requires
        0 <= p < partitions.len(),
    ensures
        stock_of_all(stripes, seq![partitions[p]]) <= stock_of_all(stripes, partitions),
    decreases stripes.len(),
{
    if stripes.len() > 0 {
        lemma_stock_of_part(stripes.drop_last(), partitions, p);
        lemma_stock_of_one(stripes.last(), partitions, p);
    }
}

/// Whether an accepted entry is that of a document that a native query asks for.
pub open spec fn is_taken_from(
    stripes: Seq<LogStripe>,
    partitions: Seq<TopicPartition>,
    request: QueryModel,
    hidden: Seq<SelectionModel>,
    cutoff: Option<u64>,
    item: Accepted,
) -> bool {
    exists|s: int, p: int, k: int|
        #![trigger visible(stripes[s], partitions[p])[k]]
        0 <= s < stripes.len() && 0 <= p < partitions.len() && 0 <= k < visible(
            stripes[s],
            partitions[p],
        ).len() && is_wanted(request, cutoff, visible(stripes[s], partitions[p])[k])
            && is_entry_of(visible(stripes[s], partitions[p])[k].0, hidden, item)
}

pub proof fn lemma_all_source(
    stripes: Seq<LogStripe>,
    partitions: Seq<TopicPartition>,
    request: QueryModel,
    hidden: Seq<SelectionModel>,
    cutoff: Option<u64>,
    page_limit: usize,
    count: int,
)
    requires
        forall|i: int| 0 <= i < stripes.len() ==> (#[trigger] stripes[i]).well_formed(),
        stock_of_all(stripes, partitions) <= usize::MAX,
        0 <= count <= partitions.len(),
    ensures
        accepted_in_all(
            stripes,
            request,
            partitions,
            retained_start(request.start, cutoff),
            page_limit,
            hidden,
            count,
        ) matches Ok(items) ==> items.len() <= count * request.limit && forall|n: int|
            0 <= n < items.len() ==> is_taken_from(
                stripes,
                partitions,
                request,
                hidden,
                cutoff,
                #[trigger] items[n],
            ),
    decreases count,
{
    if count > 0 {
        let start = retained_start(request.start, cutoff);
        let p = count - 1;
        let query = native_log_query_of(request, partitions[p], start, page_limit, None);
        let room = request.limit as nat;
        lemma_all_source(stripes, partitions, request, hidden, cutoff, page_limit, p);
        lemma_stock_of_part(stripes, partitions, p);
        lemma_paged_source(stripes, query, hidden, room);
        let all = accepted_in_all(
            stripes,
            request,
            partitions,
            start,
            page_limit,
            hidden,
            count,
        );
        if all is Ok {
            let items = all->Ok_0;
            let front = accepted_in_all(
                stripes,
                request,
                partitions,
                start,
                page_limit,
                hidden,
                p,
            )->Ok_0;
            let more = paged_entries(stripes, query, hidden, room)->Ok_0;
            assert(items == front + more);
            assert(count * request.limit == p * request.limit + request.limit) by (nonlinear_arith)
                requires
                    p == count - 1,
            ;
            assert forall|n: int| 0 <= n < items.len() implies is_taken_from(
                stripes,
                partitions,
                request,
                hidden,
                cutoff,
                #[trigger] items[n],
            ) by {
                if n < front.len() {
                    assert(items[n] == front[n]);
                } else {
                    let item = more[n - front.len()];
                    assert(items[n] == item);
                    assert(is_paged_from(stripes, query, hidden, item));
                    let (s, k) = choose|s: int, k: int|
                        #![trigger visible(stripes[s], query.partition)[k]]
                        0 <= s < stripes.len() && 0 <= k < visible(
                            stripes[s],
                            query.partition,
                        ).len() && asks_for(
                            LogQueryModel { after: None, ..query },
                            visible(stripes[s], query.partition)[k],
                        ) && is_entry_of(
                            visible(stripes[s], query.partition)[k].0,
                            hidden,
                            item,
                        );
                    let document = visible(stripes[s], partitions[p])[k];
                    lemma_native_asks(request, cutoff, partitions[p], page_limit, document);
                    assert((LogQueryModel { after: None, ..query }) == query);
                }
            }
        }
    }
}

/// Place of an accepted entry in a direction: by time, then by offset.
pub open spec fn accepted_place(order: QueryOrder) -> spec_fn(Accepted) -> u128 {
    |item: Accepted|
        {
            let key = (((item.0.timestamp - i64::MIN) as u64) * 0x1_0000_0000_0000_0000
                + item.1) as u128;
            match order {
                QueryOrder::OldestFirst => key,
                QueryOrder::NewestFirst => (u128::MAX - key) as u128,
            }
        }
}

/// The accepted entries that a native query gives where some are hidden.
pub open spec fn accepted_answer(accepted: Seq<Accepted>, order: QueryOrder, limit: nat) -> Seq<Accepted> {
    limited(arranged(accepted, order_of(accepted_keys(accepted, order))), limit)
}

pub proof fn lemma_accepted_first(accepted: Seq<Accepted>, order: QueryOrder, limit: nat)
    requires
        accepted.len() <= usize::MAX,
    ensures
        lists_first(
            accepted_place(order),
            accepted.to_multiset(),
            limit,
            accepted_answer(accepted, order, limit),
        ),
        first_accepted(accepted, order, limit).len() == accepted_answer(
            accepted,
            order,
            limit,
        ).len(),
        forall|i: int|
            0 <= i < accepted_answer(accepted, order, limit).len() ==> #[trigger] first_accepted(
                accepted,
                order,
                limit,
            )[i] == accepted_answer(accepted, order, limit)[i].0,
{
    sorting_lists_first(accepted_place(order), accepted, accepted_keys(accepted, order), limit);
}

proof fn lemma_places_by_time(order: QueryOrder, left: Accepted, right: Accepted)
    ensures
        ({
            let place = accepted_place(order);
            place(left) <= place(right) ==> match order {
                QueryOrder::OldestFirst => left.0.timestamp <= right.0.timestamp,
                QueryOrder::NewestFirst => left.0.timestamp >= right.0.timestamp,
            }
        }),
{
}

proof fn lemma_filtered_answer_is_shown(
    stripes: Seq<LogStripe>,
    partitions: Seq<TopicPartition>,
    request: QueryModel,
    deletes: Seq<DeleteModel>,
    cutoff: Option<u64>,
    hidden: Seq<SelectionModel>,
    entries: Seq<EntryModel>,
)
    requires
        forall|i: int| 0 <= i < stripes.len() ==> (#[trigger] stripes[i]).well_formed(),
        stock_of_all(stripes, partitions) <= usize::MAX,
        partitions.len() * request.limit <= usize::MAX,
        deleted_selections(deletes) == Ok::<_, ApiFault>(hidden),
        filtered_answer_of(
            stripes,
            partitions,
            request,
            retained_start(request.start, cutoff),
            hidden,
        ) == Ok::<_, ApiFault>(entries),
    ensures
        entries.len() <= request.limit,
        forall|i: int|
            0 <= i < entries.len() ==> is_shown(
                stripes,
                partitions,
                request,
                deletes,
                cutoff,
                #[trigger] entries[i],
            ),
        forall|i: int, j: int|
            0 <= i < j < entries.len() ==> not_behind(
                request.direction,
                (#[trigger] entries[i]).timestamp as int,
                (#[trigger] entries[j]).timestamp as int,
            ),
{
    let page_limit = hidden_page_limit(request.limit);
    let accepted = accepted_in_all(
        stripes,
        request,
        partitions,
        retained_start(request.start, cutoff),
        page_limit,
        hidden,
        partitions.len() as int,
    )->Ok_0;
    let order = direction_order(request.direction);
    let answer = accepted_answer(accepted, order, request.limit as nat);
    lemma_all_source(
        stripes,
        partitions,
        request,
        hidden,
        cutoff,
        page_limit,
        partitions.len() as int,
    );
    lemma_accepted_first(accepted, order, request.limit as nat);
    deletions_cover_what_they_ask_for(deletes);
    assert forall|i: int| 0 <= i < entries.len() implies is_shown(
        stripes,
        partitions,
        request,
        deletes,
        cutoff,
        #[trigger] entries[i],
    ) by {
        let item = answer[i];
        assert(entries[i] == item.0);
        lemma_bag_has(answer, item);
        lemma_bag_has(accepted, item);
        let n = choose|n: int| 0 <= n < accepted.len() && accepted[n] == item;
        assert(is_taken_from(stripes, partitions, request, hidden, cutoff, accepted[n]));
        let (s, p, k) = choose|s: int, p: int, k: int|
            #![trigger visible(stripes[s], partitions[p])[k]]
            0 <= s < stripes.len() && 0 <= p < partitions.len() && 0 <= k < visible(
                stripes[s],
                partitions[p],
            ).len() && is_wanted(request, cutoff, visible(stripes[s], partitions[p])[k])
                && is_entry_of(visible(stripes[s], partitions[p])[k].0, hidden, item);
        let document = visible(stripes[s], partitions[p])[k];
        assert(!is_deleted(hidden, entries[i]));
    }
    assert forall|i: int, j: int| 0 <= i < j < entries.len() implies not_behind(
        request.direction,
        (#[trigger] entries[i]).timestamp as int,
        (#[trigger] entries[j]).timestamp as int,
    ) by {
        let place = accepted_place(order);
        assert(entries[i] == answer[i].0 && entries[j] == answer[j].0);
        assert(place(answer[i]) <= place(answer[j]));
        lemma_places_by_time(order, answer[i], answer[j]);
    }
}

/// Every entry that a native query returns is that of a stored record of the tenant that
/// carries each label of the query, whose message has each of its terms in search form,
/// that lies in its time range and behind the retention cutoff, and that no received
/// deletion covers. The entries come in the direction of the query, no more of them than its
/// limit.
pub proof fn native_entries_are_wanted(
    stripes: Seq<LogStripe>,
    partitions: Seq<TopicPartition>,
    request: QueryModel,
    deletes: Seq<DeleteModel>,
    cutoff: Option<u64>,
)
    requires
        forall|i: int| 0 <= i < stripes.len() ==> (#[trigger] stripes[i]).well_formed(),
        partitions.len() > 0,
        stock_of_all(stripes, partitions) <= usize::MAX,
        partitions.len() * request.limit <= usize::MAX,
    ensures
        native_result(stripes, partitions, request, deletes, cutoff) matches Ok(entries) ==> {
            &&& entries.len() <= request.limit
            &&& forall|i: int|
                0 <= i < entries.len() ==> is_shown(
                    stripes,
                    partitions,
                    request,
                    deletes,
                    cutoff,
                    #[trigger] entries[i],
                )
            &&& forall|i: int, j: int|
                0 <= i < j < entries.len() ==> not_behind(
                    request.direction,
                    (#[trigger] entries[i]).timestamp as int,
                    (#[trigger] entries[j]).timestamp as int,
                )
        },
{
    let result = native_result(stripes, partitions, request, deletes, cutoff);
    if request.limit > 0 && result is Ok {
        let entries = result->Ok_0;
        let hidden = deleted_selections(deletes)->Ok_0;
        if hidden.len() == 0 {
            assert(hidden =~= Seq::<SelectionModel>::empty());
            lemma_plain_answer_is_shown(stripes, partitions, request, deletes, cutoff, entries);
        } else {
            lemma_filtered_answer_is_shown(
                stripes,
                partitions,
                request,
                deletes,
                cutoff,
                hidden,
                entries,
            );
        }
    }
}

} // verus!
