//! Reads of the durable store: native queries, entries of a tenant and analytical scans.
use vstd::prelude::*;

use crate::analytics::{
    batches_view, rows_view, scan_fault, scan_limit, AnalyticsLogRow, AnalyticsScanRequest,
    RowModel, ScanModel, SCAN_BATCH_ROWS,
};
use crate::api_error::{ApiFault, LokiApiError};
use crate::durable_store::{
    analytics_row_and_entry, log_match_to_entry, retained_query_start, retained_start, stored_entry,
    stored_row, TenantRouting,
};
use crate::labels::{fields_view, LabelMap, MetadataField};
use crate::log_query::{
    place_key, records_view, DurableLogRecord, LogQuery, LogQueryModel, QueryCursor, QuerySort,
    RecordModel,
};
use crate::log_service::{partitions_answer, queries_view};
use crate::log_stripe::LogStripe;
use crate::loki_delete::{
    deleted_selections, deletes_view, is_deleted, kept_entries, keep_visible, DeleteModel,
    DeleteRequest, LogicalDeleteFilter,
};
use crate::loki_read::{by_time, sort_by_time};
use crate::loki_stats::SelectionModel;
use crate::native_decode::{prefixed, prefixed_key, LABEL_PREFIX, METADATA_PREFIX, TENANT_FIELD};
use crate::native_query::{strings_view, NativeQuery, NativeQueryDirection, QueryModel};
use crate::order::{arranged, is_order, order_of, stable_order};
use crate::partition_index::answer;
use crate::posting::{limited, QueryOrder};
use crate::query_laws::cursor_at;
use crate::record::{entries_view, EntryModel, LogicalOffset, LokiEntry, TopicPartition};
use crate::stripe_query::{
    fits_query, merged, page, sort_and_limit_matches, stripe_answers, ShardLogDb,
};
use crate::text::{normal_term, normal_terms};

verus! {

broadcast use vstd::seq_lib::group_seq_properties;

/// Direction of a native query.
pub open spec fn direction_order(direction: NativeQueryDirection) -> QueryOrder {
    match direction {
        NativeQueryDirection::OldestFirst => QueryOrder::OldestFirst,
        NativeQueryDirection::NewestFirst => QueryOrder::NewestFirst,
    }
}

/// The query of a partition for a native query.
pub open spec fn native_log_query_of(
    request: QueryModel,
    partition: TopicPartition,
    start: Option<u64>,
    limit: usize,
    after: Option<QueryCursor>,
) -> LogQueryModel {
    LogQueryModel {
        partition,
        terms: normal_terms(request.terms),
        fields: seq![(TENANT_FIELD@, request.tenant)] + prefixed(LABEL_PREFIX@, request.labels),
        predicates: Seq::empty(),
        start_offset: None,
        end_offset: None,
        start_time: start,
        end_time: request.end,
        sort: QuerySort::Timestamp,
        order: direction_order(request.direction),
        limit: Some(limit),
        after,
    }
}

fn add_terms(query: LogQuery, terms: &Vec<String>) -> (result: LogQuery)
    ensures
        result@ == (LogQueryModel {
            terms: query@.terms + normal_terms(strings_view(terms@)),
            ..query@
        }),
{
    let ghost base = query@;
    let ghost all = strings_view(terms@);
    let mut result = query;
    let mut index: usize = 0;
    proof {
        assert(base.terms + normal_terms(all.subrange(0, 0)) =~= base.terms);
    }
    while index < terms.len()
        invariant
            index <= terms@.len(),
            all == strings_view(terms@),
            result@ == (LogQueryModel {
                terms: base.terms + normal_terms(all.subrange(0, index as int)),
                ..base
            }),
        decreases terms@.len() - index,
    {
        result = result.with_term(&terms[index]);
        proof {
            let part = all.subrange(0, index as int);
            assert(all.subrange(0, index + 1) =~= part.push(terms@[index as int]@));
            assert(base.terms + normal_terms(all.subrange(0, index + 1)) =~= (base.terms
                + normal_terms(part)).push(normal_term(terms@[index as int]@)));
        }
        index = index + 1;
    }
    proof {
        assert(all.subrange(0, index as int) =~= all);
    }
    result
}

fn add_labels(query: LogQuery, labels: &LabelMap) -> (result: LogQuery)
    ensures
        result@ == (LogQueryModel {
            fields: query@.fields + prefixed(LABEL_PREFIX@, labels@),
            ..query@
        }),
{
    let ghost base = query@;
    let mut result = query;
    let total: usize = labels.len();
    let mut index: usize = 0;
    proof {
        assert(base.fields + prefixed(LABEL_PREFIX@, labels@.subrange(0, 0)) =~= base.fields);
    }
    while index < total
        invariant
            index <= total == labels@.len(),
            result@ == (LogQueryModel {
                fields: base.fields + prefixed(
                    LABEL_PREFIX@,
                    labels@.subrange(0, index as int),
                ),
                ..base
            }),
        decreases total - index,
    {
        let name = prefixed_key(LABEL_PREFIX, labels.key_at(index));
        result = result.with_field(&name, labels.value_at(index));
        proof {
            let part = labels@.subrange(0, index as int);
            assert(labels@.subrange(0, index + 1) =~= part.push(labels@[index as int]));
            assert(base.fields + prefixed(LABEL_PREFIX@, labels@.subrange(0, index + 1)) =~= (
            base.fields + prefixed(LABEL_PREFIX@, part)).push(
                (LABEL_PREFIX@ + labels@[index as int].0, labels@[index as int].1),
            ));
        }
        index = index + 1;
    }
    proof {
        assert(labels@.subrange(0, index as int) =~= labels@);
    }
    result
}

fn add_fields(query: LogQuery, prefix: &str, fields: &Vec<MetadataField>) -> (result: LogQuery)
    ensures
        result@ == (LogQueryModel {
            fields: query@.fields + prefixed(prefix@, fields_view(fields@)),
            ..query@
        }),
{
    let ghost base = query@;
    let ghost all = fields_view(fields@);
    let mut result = query;
    let mut index: usize = 0;
    proof {
        assert(base.fields + prefixed(prefix@, all.subrange(0, 0)) =~= base.fields);
    }
    while index < fields.len()
        invariant
            index <= fields@.len(),
            all == fields_view(fields@),
            result@ == (LogQueryModel {
                fields: base.fields + prefixed(prefix@, all.subrange(0, index as int)),
                ..base
            }),
        decreases fields@.len() - index,
    {
        let name = prefixed_key(prefix, &fields[index].key);
        result = result.with_field(&name, &fields[index].value);
        proof {
            let part = all.subrange(0, index as int);
            assert(all[index as int] == (fields@[index as int].key@, fields@[index as int].value@));
            assert(all.subrange(0, index + 1) =~= part.push(all[index as int]));
            assert(base.fields + prefixed(prefix@, all.subrange(0, index + 1)) =~= (base.fields
                + prefixed(prefix@, part)).push((prefix@ + all[index as int].0, all[index as int].1)));
        }
        index = index + 1;
    }
    proof {
        assert(all.subrange(0, index as int) =~= all);
    }
    result
}

/// The query of a partition for a native query.
pub fn native_log_query(
    request: &NativeQuery,
    partition: TopicPartition,
    start: Option<u64>,
    limit: usize,
    after: Option<QueryCursor>,
) -> (query: LogQuery)
    ensures
        query@ == native_log_query_of(request@, partition, start, limit, after),
{
    let mut query = LogQuery::new(partition).sort_by_timestamp().with_limit(limit).with_field(
        TENANT_FIELD,
        &request.tenant,
    );
    query.start_timestamp_unix_nanos = start;
    query.end_timestamp_unix_nanos = request.end_timestamp_unix_nanos;
    query.after = after;
    match request.direction {
        NativeQueryDirection::OldestFirst => {},
        NativeQueryDirection::NewestFirst => {
            query = query.newest_first();
        },
    }
    let query = add_terms(add_labels(query, &request.labels), &request.terms);
    proof {
        let wanted = native_log_query_of(request@, partition, start, limit, after);
        assert(query@.fields =~= wanted.fields);
        assert(query@.terms =~= wanted.terms);
    }
    query
}

/// Entries of records, or the first fault.
pub open spec fn stored_entries(records: Seq<RecordModel>) -> Result<Seq<EntryModel>, ApiFault>
    decreases records.len(),
{
    if records.len() == 0 {
        Ok(Seq::empty())
    } else {
        match stored_entries(records.drop_last()) {
            Err(fault) => Err(fault),
            Ok(front) => match stored_entry(records.last()) {
                Err(fault) => Err(fault),
                Ok(entry) => Ok(front.push(entry)),
            },
        }
    }
}

proof fn lemma_stored_fault(records: Seq<RecordModel>, n: int)
    requires
        0 <= n <= records.len(),
        stored_entries(records.subrange(0, n)) is Err,
    ensures
        stored_entries(records) == stored_entries(records.subrange(0, n)),
    decreases records.len(),
{
    if n < records.len() {
        assert(records.drop_last().subrange(0, n) =~= records.subrange(0, n));
        lemma_stored_fault(records.drop_last(), n);
    } else {
        assert(records.subrange(0, n) =~= records);
    }
}

fn entries_from(records: &Vec<DurableLogRecord>) -> (result: Result<Vec<LokiEntry>, LokiApiError>)
    ensures
        match (result, stored_entries(records_view(records@))) {
            (Ok(entries), Ok(models)) => entries_view(entries@) == models,
            (Err(error), Err(fault)) => error@ == fault,
            _ => false,
        },
{
    let ghost models = records_view(records@);
    let mut entries: Vec<LokiEntry> = Vec::new();
    let mut index: usize = 0;
    proof {
        assert(models.subrange(0, 0) =~= Seq::<RecordModel>::empty());
        assert(entries_view(entries@) =~= Seq::<EntryModel>::empty());
    }
    while index < records.len()
        invariant
            index <= records@.len(),
            models == records_view(records@),
            stored_entries(models.subrange(0, index as int)) == Ok::<_, ApiFault>(
                entries_view(entries@),
            ),
        decreases records@.len() - index,
    {
        proof {
            let part = models.subrange(0, index + 1);
            assert(part.drop_last() =~= models.subrange(0, index as int));
            assert(part.last() == records@[index as int]@);
        }
        match log_match_to_entry(&records[index]) {
            Ok(entry) => {
                proof {
                    assert(entries_view(entries@.push(entry)) =~= entries_view(entries@).push(
                        entry@,
                    ));
                }
                entries.push(entry);
            },
            Err(error) => {
                proof {
                    lemma_stored_fault(models, index + 1);
                }
                return Err(error);
            },
        }
        index = index + 1;
    }
    proof {
        assert(models.subrange(0, index as int) =~= models);
    }
    Ok(entries)
}

/// Queries of partitions for a native query.
pub open spec fn native_queries_of(
    request: QueryModel,
    partitions: Seq<TopicPartition>,
    start: Option<u64>,
) -> Seq<LogQueryModel> {
    partitions.map_values(
        |partition: TopicPartition|
            native_log_query_of(request, partition, start, request.limit as usize, None),
    )
}

/// The answer to a native query where nothing is hidden.
pub open spec fn native_answer_of(
    stripes: Seq<LogStripe>,
    partitions: Seq<TopicPartition>,
    request: QueryModel,
    start: Option<u64>,
) -> Result<Seq<EntryModel>, ApiFault> {
    let queries = native_queries_of(request, partitions, start);
    stored_entries(
        page(queries[0], partitions_answer(stripes, queries), Some(request.limit as usize)),
    )
}

fn query_visible(
    db: &ShardLogDb,
    partitions: &Vec<TopicPartition>,
    request: &NativeQuery,
    start: Option<u64>,
) -> (result: Result<Vec<LokiEntry>, LokiApiError>)
    requires
        db.well_formed(),
        partitions@.len() > 0,
    ensures
        match (result, native_answer_of(db.stripes@, partitions@, request@, start)) {
            (Ok(entries), Ok(models)) => entries_view(entries@) == models,
            (Err(error), Err(fault)) => error@ == fault,
            _ => false,
        },
{
    let ghost wanted = native_queries_of(request@, partitions@, start);
    let mut queries: Vec<LogQuery> = Vec::new();
    let mut index: usize = 0;
    while index < partitions.len()
        invariant
            index <= partitions@.len(),
            wanted == native_queries_of(request@, partitions@, start),
            queries@.len() == index,
            forall|i: int| 0 <= i < index ==> (#[trigger] queries@[i])@ == wanted[i],
        decreases partitions@.len() - index,
    {
        queries.push(
            native_log_query(request, partitions[index], start, request.limit as usize, None),
        );
        index = index + 1;
    }
    proof {
        assert(queries_view(queries@) =~= wanted);
        assert(queries@[0]@ == wanted[0]);
    }
    let matches = db.query_partitions(&queries);
    let page = sort_and_limit_matches(&matches, &queries[0], Some(request.limit as usize));
    entries_from(&page)
}

/// An accepted entry with its offset.
pub type Accepted = (EntryModel, u64);

/// Entries of the first `count` records that are not hidden, until there are `room` of
/// them, or the first fault before.
pub open spec fn accepted_entries(
    records: Seq<RecordModel>,
    hidden: Seq<SelectionModel>,
    room: nat,
    count: int,
) -> Result<Seq<Accepted>, ApiFault>
    decreases count,
{
    if count <= 0 {
        Ok(Seq::empty())
    } else {
        match accepted_entries(records, hidden, room, count - 1) {
            Err(fault) => Err(fault),
            Ok(front) => if front.len() >= room {
                Ok(front)
            } else {
                match stored_entry(records[count - 1]) {
                    Err(fault) => Err(fault),
                    Ok(entry) => if is_deleted(hidden, entry) {
                        Ok(front)
                    } else {
                        Ok(front.push((entry, records[count - 1].reference.offset.0)))
                    },
                }
            },
        }
    }
}

proof fn lemma_accepted_fixed(
    records: Seq<RecordModel>,
    hidden: Seq<SelectionModel>,
    room: nat,
    n: int,
    count: int,
)
    requires
        0 <= n <= count,
        match accepted_entries(records, hidden, room, n) {
            Err(_) => true,
            Ok(front) => front.len() >= room,
        },
    ensures
        accepted_entries(records, hidden, room, count) == accepted_entries(
            records,
            hidden,
            room,
            n,
        ),
    decreases count - n,
{
    if n < count {
        lemma_accepted_fixed(records, hidden, room, n, count - 1);
    }
}

proof fn lemma_accepted_len(
    records: Seq<RecordModel>,
    hidden: Seq<SelectionModel>,
    room: nat,
    count: int,
)
    ensures
        accepted_entries(records, hidden, room, count) matches Ok(taken) ==> taken.len() <= room,
    decreases count,
{
    if count > 0 {
        lemma_accepted_len(records, hidden, room, count - 1);
    }
}

/// Values of accepted entries.
pub open spec fn accepted_view(accepted: Seq<(LokiEntry, u64)>) -> Seq<Accepted> {
    accepted.map_values(|item: (LokiEntry, u64)| (item.0@, item.1))
}

fn accept_page(records: &Vec<DurableLogRecord>, filter: &LogicalDeleteFilter, room: usize) -> (result:
    Result<Vec<(LokiEntry, u64)>, LokiApiError>)
    requires
        filter.well_formed(),
    ensures
        match (
            result,
            accepted_entries(
                records_view(records@),
                filter@,
                room as nat,
                records@.len() as int,
            ),
        ) {
            (Ok(accepted), Ok(models)) => accepted_view(accepted@) == models && accepted@.len()
                <= room,
            (Err(error), Err(fault)) => error@ == fault,
            _ => false,
        },
{
    let ghost models = records_view(records@);
    let mut accepted: Vec<(LokiEntry, u64)> = Vec::new();
    let mut index: usize = 0;
    proof {
        assert(accepted_view(accepted@) =~= Seq::<Accepted>::empty());
    }
    while index < records.len()
        invariant
            filter.well_formed(),
            index <= records@.len(),
            models == records_view(records@),
            accepted@.len() <= room,
            accepted_entries(models, filter@, room as nat, index as int) == Ok::<_, ApiFault>(
                accepted_view(accepted@),
            ),
        decreases records@.len() - index,
    {
        proof {
            assert(models[index as int] == records@[index as int]@);
            assert(accepted_view(accepted@).len() == accepted@.len());
        }
        if accepted.len() == room {
            proof {
                lemma_accepted_fixed(
                    models,
                    filter@,
                    room as nat,
                    index as int,
                    records@.len() as int,
                );
            }
            return Ok(accepted);
        }
        match log_match_to_entry(&records[index]) {
            Ok(entry) => {
                if !filter.matches(&entry) {
                    let item = (entry, records[index].record_ref.offset.0);
                    proof {
                        assert(accepted_view(accepted@.push(item)) =~= accepted_view(
                            accepted@,
                        ).push((entry@, item.1)));
                    }
                    accepted.push(item);
                }
            },
            Err(error) => {
                proof {
                    lemma_accepted_fixed(
                        models,
                        filter@,
                        room as nat,
                        index + 1,
                        records@.len() as int,
                    );
                }
                return Err(error);
            },
        }
        index = index + 1;
    }
    Ok(accepted)
}

/// How many keys lie behind the cursor of a query.
pub open spec fn cursor_room(query: LogQueryModel) -> nat {
    match query.after {
        None => (u128::MAX + 1) as nat,
        Some(cursor) => {
            let place = place_key(query.sort, cursor.timestamp_unix_nanos, cursor.offset);
            match query.order {
                QueryOrder::OldestFirst => (u128::MAX - place) as nat,
                QueryOrder::NewestFirst => place as nat,
            }
        },
    }
}

/// The page of a query over all stripes.
pub open spec fn db_page(stripes: Seq<LogStripe>, query: LogQueryModel) -> Seq<RecordModel> {
    merged(stripe_answers(stripes, query), query)
}

/// Entries of a partition that are not hidden, page by page, until there are `room` of
/// them. A page that is not full is the last one.
pub open spec fn paged_entries(
    stripes: Seq<LogStripe>,
    query: LogQueryModel,
    hidden: Seq<SelectionModel>,
    room: nat,
) -> Result<Seq<Accepted>, ApiFault>
    decreases cursor_room(query),
{
    let found = db_page(stripes, query);
    if found.len() == 0 {
        Ok(Seq::empty())
    } else {
        match accepted_entries(found, hidden, room, found.len() as int) {
            Err(fault) => Err(fault),
            Ok(taken) => {
                let next = LogQueryModel { after: Some(cursor_at(found.last())), ..query };
                if taken.len() >= room || query.limit is None || found.len() < query.limit->0
                    || cursor_room(next) >= cursor_room(query) {
                    Ok(taken)
                } else {
                    match paged_entries(stripes, next, hidden, (room - taken.len()) as nat) {
                        Err(fault) => Err(fault),
                        Ok(more) => Ok(taken + more),
                    }
                }
            },
        }
    }
}

/// One page of a query; every record fits the query.
fn fetch_page(db: &ShardLogDb, query: &LogQuery) -> (found: Vec<DurableLogRecord>)
    requires
        db.well_formed(),
    ensures
        records_view(found@) == db_page(db.stripes@, query@),
        forall|i: int| 0 <= i < found@.len() ==> fits_query(query@, (#[trigger] found@[i])@),
{
    db.query_all(query)
}

/// Adds what is before a result to it.
pub open spec fn joined<T>(done: Seq<T>, rest: Result<Seq<T>, ApiFault>) -> Result<
    Seq<T>,
    ApiFault,
> {
    match rest {
        Err(fault) => Err(fault),
        Ok(more) => Ok(done + more),
    }
}

/// Entries of one partition that are not hidden, up to `room`.
fn collect_partition(
    db: &ShardLogDb,
    request: &NativeQuery,
    partition: TopicPartition,
    start: Option<u64>,
    page_limit: usize,
    filter: &LogicalDeleteFilter,
) -> (result: Result<Vec<(LokiEntry, u64)>, LokiApiError>)
    requires
        db.well_formed(),
        filter.well_formed(),
    ensures
        match (
            result,
            paged_entries(
                db.stripes@,
                native_log_query_of(request@, partition, start, page_limit, None),
                filter@,
                request@.limit as nat,
            ),
        ) {
            (Ok(accepted), Ok(models)) => accepted_view(accepted@) == models,
            (Err(error), Err(fault)) => error@ == fault,
            _ => false,
        },
{
    let room: usize = request.limit as usize;
    let ghost wanted = paged_entries(
        db.stripes@,
        native_log_query_of(request@, partition, start, page_limit, None),
        filter@,
        room as nat,
    );
    let mut accepted: Vec<(LokiEntry, u64)> = Vec::new();
    let mut after: Option<QueryCursor> = None;
    proof {
        assert(accepted_view(accepted@) =~= Seq::<Accepted>::empty());
        assert(joined(Seq::<Accepted>::empty(), wanted) == wanted) by {
            match wanted {
                Ok(models) => {
                    assert(Seq::<Accepted>::empty() + models =~= models);
                },
                Err(_) => {},
            }
        }
    }
    loop
        invariant
            db.well_formed(),
            filter.well_formed(),
            room == request@.limit,
            accepted@.len() <= room,
            wanted == paged_entries(
                db.stripes@,
                native_log_query_of(request@, partition, start, page_limit, None),
                filter@,
                room as nat,
            ),
            joined(
                accepted_view(accepted@),
                paged_entries(
                    db.stripes@,
                    native_log_query_of(request@, partition, start, page_limit, after),
                    filter@,
                    (room - accepted@.len()) as nat,
                ),
            ) == wanted,
        decreases
            cursor_room(native_log_query_of(request@, partition, start, page_limit, after)),
    {
        let query = native_log_query(request, partition, start, page_limit, after);
        let ghost before = accepted_view(accepted@);
        let found = fetch_page(db, &query);
        let ghost records = records_view(found@);
        if found.len() == 0 {
            proof {
                assert(before + Seq::<Accepted>::empty() =~= before);
            }
            return Ok(accepted);
        }
        let last = &found[found.len() - 1];
        let cursor = QueryCursor::new(last.timestamp_unix_nanos, last.record_ref.offset);
        let ghost next = native_log_query_of(request@, partition, start, page_limit, Some(cursor));
        proof {
            assert(fits_query(query@, found@[found@.len() - 1]@));
            assert(records.last() == found@[found@.len() - 1]@);
            assert(cursor == cursor_at(records.last()));
            assert(next == (LogQueryModel { after: Some(cursor), ..query@ }));
            assert(cursor_room(next) < cursor_room(query@));
            lemma_accepted_len(
                records,
                filter@,
                (room - accepted@.len()) as nat,
                records.len() as int,
            );
        }
        match accept_page(&found, filter, room - accepted.len()) {
            Ok(mut taken) => {
                let ghost added = accepted_view(taken@);
                let ghost old_items = accepted@;
                let ghost new_items = taken@;
                accepted.append(&mut taken);
                proof {
                    assert(accepted_view(accepted@) =~= before + added);
                    assert(added.len() == new_items.len());
                }
                if accepted.len() == room || found.len() < page_limit {
                    return Ok(accepted);
                }
                proof {
                    let rest = paged_entries(
                        db.stripes@,
                        next,
                        filter@,
                        (room - accepted@.len()) as nat,
                    );
                    match rest {
                        Ok(more) => {
                            assert(before + (added + more) =~= (before + added) + more);
                        },
                        Err(_) => {},
                    }
                }
                after = Some(cursor);
            },
            Err(error) => return Err(error),
        }
    }
}

/// Accepted entries of the first `count` partitions, or the first fault.
pub open spec fn accepted_in_all(
    stripes: Seq<LogStripe>,
    request: QueryModel,
    partitions: Seq<TopicPartition>,
    start: Option<u64>,
    page_limit: usize,
    hidden: Seq<SelectionModel>,
    count: int,
) -> Result<Seq<Accepted>, ApiFault>
    decreases count,
{
    if count <= 0 {
        Ok(Seq::empty())
    } else {
        match accepted_in_all(
            stripes,
            request,
            partitions,
            start,
            page_limit,
            hidden,
            count - 1,
        ) {
            Err(fault) => Err(fault),
            Ok(front) => joined(
                front,
                paged_entries(
                    stripes,
                    native_log_query_of(request, partitions[count - 1], start, page_limit, None),
                    hidden,
                    request.limit as nat,
                ),
            ),
        }
    }
}

proof fn lemma_all_fault(
    stripes: Seq<LogStripe>,
    request: QueryModel,
    partitions: Seq<TopicPartition>,
    start: Option<u64>,
    page_limit: usize,
    hidden: Seq<SelectionModel>,
    n: int,
    count: int,
)
    requires
        0 <= n <= count,
        accepted_in_all(stripes, request, partitions, start, page_limit, hidden, n) is Err,
    ensures
        accepted_in_all(stripes, request, partitions, start, page_limit, hidden, count)
            == accepted_in_all(stripes, request, partitions, start, page_limit, hidden, n),
    decreases count - n,
{
    if n < count {
        lemma_all_fault(stripes, request, partitions, start, page_limit, hidden, n, count - 1);
    }
}

/// Sort keys of accepted entries: by time and offset, in a direction.
pub open spec fn accepted_keys(accepted: Seq<Accepted>, order: QueryOrder) -> Seq<u128> {
    accepted.map_values(
        |item: Accepted|
            {
                let key = (((item.0.timestamp - i64::MIN) as u64) * 0x1_0000_0000_0000_0000
                    + item.1) as u128;
                match order {
                    QueryOrder::OldestFirst => key,
                    QueryOrder::NewestFirst => (u128::MAX - key) as u128,
                }
            },
    )
}

/// The first accepted entries in the order of a query.
pub open spec fn first_accepted(accepted: Seq<Accepted>, order: QueryOrder, limit: nat) -> Seq<
    EntryModel,
> {
    limited(
        arranged(accepted, order_of(accepted_keys(accepted, order))),
        limit,
    ).map_values(|item: Accepted| item.0)
}

fn sort_accepted(accepted: &Vec<(LokiEntry, u64)>, order: QueryOrder, limit: usize) -> (entries: Vec<
    LokiEntry,
>)
    ensures
        entries_view(entries@) == first_accepted(
            accepted_view(accepted@),
            order,
            limit as nat,
        ),
{
    let ghost models = accepted_view(accepted@);
    let mut keys: Vec<u128> = Vec::new();
    let mut index: usize = 0;
    while index < accepted.len()
        invariant
            index <= accepted@.len(),
            models == accepted_view(accepted@),
            keys@.len() == index,
            forall|i: int| 0 <= i < index ==> keys@[i] == accepted_keys(models, order)[i],
        decreases accepted@.len() - index,
    {
        let time: u64 = (accepted[index].0.timestamp_unix_nanos as i128 + 0x8000_0000_0000_0000i128)
            as u64;
        let key: u128 = time as u128 * 0x1_0000_0000_0000_0000 + accepted[index].1 as u128;
        proof {
            assert(models[index as int] == (accepted@[index as int].0@, accepted@[index as int].1));
        }
        let rank: u128 = match order {
            QueryOrder::OldestFirst => key,
            QueryOrder::NewestFirst => u128::MAX - key,
        };
        keys.push(rank);
        index = index + 1;
    }
    proof {
        assert(keys@ =~= accepted_keys(models, order));
    }
    let sorted = stable_order(&keys);
    let take: usize = if limit < sorted.len() {
        limit
    } else {
        sorted.len()
    };
    let ghost wanted = arranged(models, sorted@);
    let mut entries: Vec<LokiEntry> = Vec::new();
    let mut place: usize = 0;
    while place < take
        invariant
            place <= take <= sorted@.len(),
            is_order(keys@, sorted@),
            keys@.len() == accepted@.len(),
            models == accepted_view(accepted@),
            wanted == arranged(models, sorted@),
            entries@.len() == place,
            forall|i: int| 0 <= i < place ==> (#[trigger] entries@[i])@ == wanted[i].0,
        decreases take - place,
    {
        let at: usize = sorted[place];
        proof {
            assert(wanted[place as int] == models[at as int]);
            assert(models[at as int] == (accepted@[at as int].0@, accepted@[at as int].1));
        }
        entries.push(accepted[at].0.clone());
        place = place + 1;
    }
    proof {
        assert(entries_view(entries@) =~= first_accepted(models, order, limit as nat));
    }
    entries
}

/// Records of one page where entries may be hidden.
pub open spec fn hidden_page_limit(limit: u32) -> usize {
    if limit < 1_024 {
        1_024
    } else if limit > 8_192 {
        8_192
    } else {
        limit as usize
    }
}

/// The answer to a native query where entries are hidden.
pub open spec fn filtered_answer_of(
    stripes: Seq<LogStripe>,
    partitions: Seq<TopicPartition>,
    request: QueryModel,
    start: Option<u64>,
    hidden: Seq<SelectionModel>,
) -> Result<Seq<EntryModel>, ApiFault> {
    match accepted_in_all(
        stripes,
        request,
        partitions,
        start,
        hidden_page_limit(request.limit),
        hidden,
        partitions.len() as int,
    ) {
        Err(fault) => Err(fault),
        Ok(accepted) => Ok(
            first_accepted(accepted, direction_order(request.direction), request.limit as nat),
        ),
    }
}

/// Answers a native query where entries are hidden.
pub fn query_native_with_deletes(
    db: &ShardLogDb,
    partitions: &Vec<TopicPartition>,
    request: &NativeQuery,
    start: Option<u64>,
    filter: &LogicalDeleteFilter,
) -> (result: Result<Vec<LokiEntry>, LokiApiError>)
    requires
        db.well_formed(),
        filter.well_formed(),
    ensures
        match (
            result,
            filtered_answer_of(db.stripes@, partitions@, request@, start, filter@),
        ) {
            (Ok(entries), Ok(models)) => entries_view(entries@) == models,
            (Err(error), Err(fault)) => error@ == fault,
            _ => false,
        },
{
    let limit: usize = request.limit as usize;
    let page_limit: usize = if limit < 1_024 {
        1_024
    } else if limit > 8_192 {
        8_192
    } else {
        limit
    };
    let mut accepted: Vec<(LokiEntry, u64)> = Vec::new();
    let mut index: usize = 0;
    proof {
        assert(accepted_view(accepted@) =~= Seq::<Accepted>::empty());
    }
    while index < partitions.len()
        invariant
            db.well_formed(),
            filter.well_formed(),
            page_limit == hidden_page_limit(request@.limit),
            index <= partitions@.len(),
            accepted_in_all(
                db.stripes@,
                request@,
                partitions@,
                start,
                page_limit,
                filter@,
                index as int,
            ) == Ok::<_, ApiFault>(accepted_view(accepted@)),
        decreases partitions@.len() - index,
    {
        let ghost before = accepted@;
        match collect_partition(db, request, partitions[index], start, page_limit, filter) {
            Ok(mut more) => {
                let ghost added = more@;
                accepted.append(&mut more);
                proof {
                    assert(accepted_view(accepted@) =~= accepted_view(before) + accepted_view(
                        added,
                    ));
                }
            },
            Err(error) => {
                proof {
                    lemma_all_fault(
                        db.stripes@,
                        request@,
                        partitions@,
                        start,
                        page_limit,
                        filter@,
                        index + 1,
                        partitions@.len() as int,
                    );
                }
                return Err(error);
            },
        }
        index = index + 1;
    }
    let order = match request.direction {
        NativeQueryDirection::OldestFirst => QueryOrder::OldestFirst,
        NativeQueryDirection::NewestFirst => QueryOrder::NewestFirst,
    };
    Ok(sort_accepted(&accepted, order, limit))
}

/// The answer to a native query.
pub open spec fn native_result(
    stripes: Seq<LogStripe>,
    partitions: Seq<TopicPartition>,
    request: QueryModel,
    deletes: Seq<DeleteModel>,
    cutoff: Option<u64>,
) -> Result<Seq<EntryModel>, ApiFault> {
    if request.limit == 0 {
        Ok(Seq::empty())
    } else {
        match deleted_selections(deletes) {
            Err(fault) => Err(fault),
            Ok(hidden) => {
                let start = retained_start(request.start, cutoff);
                if hidden.len() == 0 {
                    native_answer_of(stripes, partitions, request, start)
                } else {
                    filtered_answer_of(stripes, partitions, request, start, hidden)
                }
            },
        }
    }
}

/// Answers a native query of a tenant, given its deletion requests and the retention
/// cutoff.
pub fn query_native(
    db: &ShardLogDb,
    routing: &TenantRouting,
    request: &NativeQuery,
    deletes: &Vec<DeleteRequest>,
    cutoff: Option<u64>,
) -> (result: Result<Vec<LokiEntry>, LokiApiError>)
    requires
        db.well_formed(),
        routing.well_formed(),
    ensures
        match (
            result,
            native_result(
                db.stripes@,
                routing.partitions(request@.tenant),
                request@,
                deletes_view(deletes@),
                cutoff,
            ),
        ) {
            (Ok(entries), Ok(models)) => entries_view(entries@) == models,
            (Err(error), Err(fault)) => error@ == fault,
            _ => false,
        },
{
    if request.limit == 0 {
        let none: Vec<LokiEntry> = Vec::new();
        proof {
            assert(entries_view(none@) =~= Seq::<EntryModel>::empty());
        }
        return Ok(none);
    }
    let filter = match LogicalDeleteFilter::compile(deletes) {
        Ok(filter) => filter,
        Err(error) => return Err(error),
    };
    let start = retained_query_start(request.start_timestamp_unix_nanos, cutoff);
    let partitions = routing.tenant_partitions(&request.tenant);
    if filter.is_empty() {
        query_visible(db, &partitions, request, start)
    } else {
        query_native_with_deletes(db, &partitions, request, start, &filter)
    }
}

/// The query of a partition for all entries of a tenant.
pub open spec fn tenant_query_of(
    tenant: Seq<char>,
    partition: TopicPartition,
    cutoff: Option<u64>,
) -> LogQueryModel {
    LogQueryModel {
        partition,
        terms: Seq::empty(),
        fields: seq![(TENANT_FIELD@, tenant)],
        predicates: Seq::empty(),
        start_offset: None,
        end_offset: None,
        start_time: cutoff,
        end_time: None,
        sort: QuerySort::Timestamp,
        order: QueryOrder::OldestFirst,
        limit: None,
        after: None,
    }
}

/// Visible entries of a tenant in time order.
pub open spec fn tenant_result(
    stripes: Seq<LogStripe>,
    partitions: Seq<TopicPartition>,
    tenant: Seq<char>,
    deletes: Seq<DeleteModel>,
    cutoff: Option<u64>,
) -> Result<Seq<EntryModel>, ApiFault> {
    let queries = partitions.map_values(
        |partition: TopicPartition| tenant_query_of(tenant, partition, cutoff),
    );
    match stored_entries(partitions_answer(stripes, queries)) {
        Err(fault) => Err(fault),
        Ok(entries) => match deleted_selections(deletes) {
            Err(fault) => Err(fault),
            Ok(hidden) => Ok(by_time(kept_entries(entries, hidden))),
        },
    }
}

/// Visible entries of a tenant in time order, given its deletion requests and the
/// retention cutoff.
pub fn tenant_entries(
    db: &ShardLogDb,
    routing: &TenantRouting,
    tenant: &str,
    deletes: &Vec<DeleteRequest>,
    cutoff: Option<u64>,
) -> (result: Result<Vec<LokiEntry>, LokiApiError>)
    requires
        db.well_formed(),
        routing.well_formed(),
    ensures
        match (
            result,
            tenant_result(
                db.stripes@,
                routing.partitions(tenant@),
                tenant@,
                deletes_view(deletes@),
                cutoff,
            ),
        ) {
            (Ok(entries), Ok(models)) => entries_view(entries@) == models,
            (Err(error), Err(fault)) => error@ == fault,
            _ => false,
        },
{
    let partitions = routing.tenant_partitions(tenant);
    let ghost wanted = partitions@.map_values(
        |partition: TopicPartition| tenant_query_of(tenant@, partition, cutoff),
    );
    let mut queries: Vec<LogQuery> = Vec::new();
    let mut index: usize = 0;
    while index < partitions.len()
        invariant
            index <= partitions@.len(),
            wanted == partitions@.map_values(
                |partition: TopicPartition| tenant_query_of(tenant@, partition, cutoff),
            ),
            queries@.len() == index,
            forall|i: int| 0 <= i < index ==> (#[trigger] queries@[i])@ == wanted[i],
        decreases partitions@.len() - index,
    {
        let mut query = LogQuery::new(partitions[index]).sort_by_timestamp().with_field(
            TENANT_FIELD,
            tenant,
        );
        query.start_timestamp_unix_nanos = cutoff;
        proof {
            assert(query@.fields =~= seq![(TENANT_FIELD@, tenant@)]);
        }
        queries.push(query);
        index = index + 1;
    }
    proof {
        assert(queries_view(queries@) =~= wanted);
    }
    let matches = db.query_partitions(&queries);
    let entries = match entries_from(&matches) {
        Ok(entries) => entries,
        Err(error) => return Err(error),
    };
    match LogicalDeleteFilter::compile(deletes) {
        Ok(filter) => Ok(sort_by_time(&keep_visible(&entries, &filter))),
        Err(error) => Err(error),
    }
}

/// The query of a page of a partition for an analytical scan.
pub open spec fn scan_query_of(
    request: ScanModel,
    partition: TopicPartition,
    start: Option<u64>,
    next_offset: Option<u64>,
    limit: usize,
) -> LogQueryModel {
    LogQueryModel {
        partition,
        terms: normal_terms(request.terms),
        fields: seq![(TENANT_FIELD@, request.tenant)] + prefixed(LABEL_PREFIX@, request.labels)
            + prefixed(METADATA_PREFIX@, request.metadata),
        predicates: Seq::empty(),
        start_offset: match next_offset {
            Some(offset) => Some(LogicalOffset(offset)),
            None => None,
        },
        end_offset: None,
        start_time: start,
        end_time: request.end,
        sort: QuerySort::Offset,
        order: QueryOrder::OldestFirst,
        limit: Some(limit),
        after: None,
    }
}

fn scan_query(
    request: &AnalyticsScanRequest,
    partition: TopicPartition,
    start: Option<u64>,
    next_offset: Option<u64>,
    limit: usize,
) -> (query: LogQuery)
    ensures
        query@ == scan_query_of(request@, partition, start, next_offset, limit),
{
    let mut query = LogQuery::new(partition).with_limit(limit).with_field(
        TENANT_FIELD,
        &request.tenant,
    );
    query.start_offset = match next_offset {
        Some(offset) => Some(LogicalOffset(offset)),
        None => None,
    };
    query.start_timestamp_unix_nanos = start;
    query.end_timestamp_unix_nanos = request.end_timestamp_unix_nanos;
    let query = add_fields(
        add_fields(add_terms(query, &request.terms), LABEL_PREFIX, &request.labels),
        METADATA_PREFIX,
        &request.metadata,
    );
    proof {
        let wanted = scan_query_of(request@, partition, start, next_offset, limit);
        assert(query@.fields =~= wanted.fields);
        assert(query@.terms =~= wanted.terms);
    }
    query
}

/// Rows of records that are not hidden, or the first fault.
pub open spec fn visible_rows(
    tenant: Seq<char>,
    records: Seq<RecordModel>,
    hidden: Seq<SelectionModel>,
) -> Result<Seq<RowModel>, ApiFault>
    decreases records.len(),
{
    if records.len() == 0 {
        Ok(Seq::empty())
    } else {
        match visible_rows(tenant, records.drop_last(), hidden) {
            Err(fault) => Err(fault),
            Ok(front) => match stored_row(tenant, records.last()) {
                Err(fault) => Err(fault),
                Ok((row, entry)) => if is_deleted(hidden, entry) {
                    Ok(front)
                } else {
                    Ok(front.push(row))
                },
            },
        }
    }
}

proof fn lemma_rows_fault(
    tenant: Seq<char>,
    records: Seq<RecordModel>,
    hidden: Seq<SelectionModel>,
    n: int,
)
    requires
        0 <= n <= records.len(),
        visible_rows(tenant, records.subrange(0, n), hidden) is Err,
    ensures
        visible_rows(tenant, records, hidden) == visible_rows(
            tenant,
            records.subrange(0, n),
            hidden,
        ),
    decreases records.len(),
{
    if n < records.len() {
        assert(records.drop_last().subrange(0, n) =~= records.subrange(0, n));
        lemma_rows_fault(tenant, records.drop_last(), hidden, n);
    } else {
        assert(records.subrange(0, n) =~= records);
    }
}

fn collect_rows(tenant: &str, records: &Vec<DurableLogRecord>, filter: &LogicalDeleteFilter) -> (result:
    Result<Vec<AnalyticsLogRow>, LokiApiError>)
    requires
        filter.well_formed(),
    ensures
        match (result, visible_rows(tenant@, records_view(records@), filter@)) {
            (Ok(rows), Ok(models)) => rows_view(rows@) == models && rows@.len() <= records@.len(),
            (Err(error), Err(fault)) => error@ == fault,
            _ => false,
        },
{
    let ghost models = records_view(records@);
    let mut rows: Vec<AnalyticsLogRow> = Vec::new();
    let mut index: usize = 0;
    proof {
        assert(models.subrange(0, 0) =~= Seq::<RecordModel>::empty());
        assert(rows_view(rows@) =~= Seq::<RowModel>::empty());
    }
    while index < records.len()
        invariant
            filter.well_formed(),
            index <= records@.len(),
            rows@.len() <= index,
            models == records_view(records@),
            visible_rows(tenant@, models.subrange(0, index as int), filter@) == Ok::<_, ApiFault>(
                rows_view(rows@),
            ),
        decreases records@.len() - index,
    {
        proof {
            let part = models.subrange(0, index + 1);
            assert(part.drop_last() =~= models.subrange(0, index as int));
            assert(part.last() == records@[index as int]@);
        }
        match analytics_row_and_entry(tenant, &records[index]) {
            Ok((row, entry)) => {
                if !filter.matches(&entry) {
                    proof {
                        assert(rows_view(rows@.push(row)) =~= rows_view(rows@).push(row@));
                    }
                    rows.push(row);
                }
            },
            Err(error) => {
                proof {
                    lemma_rows_fault(tenant@, models, filter@, index + 1);
                }
                return Err(error);
            },
        }
        index = index + 1;
    }
    proof {
        assert(models.subrange(0, index as int) =~= models);
    }
    Ok(rows)
}

/// Batches given by a scan, their number of rows, and the fault that ended it, if any.
#[verifier::ext_equal]
pub struct ScanOutcomeModel {
    /// Batches.
    pub batches: Seq<Seq<RowModel>>,
    /// Number of rows.
    pub emitted: nat,
    /// Fault that ended the scan.
    pub fault: Option<ApiFault>,
}

/// An outcome with the outcome of what follows.
pub open spec fn continued(before: ScanOutcomeModel, rest: ScanOutcomeModel) -> ScanOutcomeModel {
    ScanOutcomeModel { batches: before.batches + rest.batches, ..rest }
}

/// Rows of a page, given how many rows there may be.
pub open spec fn scan_page_limit(limit: nat, emitted: nat) -> usize {
    if limit <= emitted {
        0
    } else if limit - emitted < SCAN_BATCH_ROWS {
        (limit - emitted) as usize
    } else {
        SCAN_BATCH_ROWS
    }
}

/// How many offsets are left.
pub open spec fn offset_room(next_offset: Option<u64>) -> nat {
    match next_offset {
        None => (u64::MAX + 1) as nat,
        Some(offset) => (u64::MAX - offset) as nat,
    }
}

/// Scan of a partition from an offset on, page by page, after `emitted` rows.
pub open spec fn partition_scan(
    stripes: Seq<LogStripe>,
    request: ScanModel,
    partition: TopicPartition,
    start: Option<u64>,
    hidden: Seq<SelectionModel>,
    emitted: nat,
    next_offset: Option<u64>,
) -> ScanOutcomeModel
    decreases offset_room(next_offset),
{
    let limit = scan_limit(request);
    let most = scan_page_limit(limit, emitted);
    let found = db_page(stripes, scan_query_of(request, partition, start, next_offset, most));
    let nothing = ScanOutcomeModel { batches: Seq::empty(), emitted, fault: None };
    if most == 0 || found.len() == 0 {
        nothing
    } else {
        match visible_rows(request.tenant, found, hidden) {
            Err(fault) => ScanOutcomeModel { fault: Some(fault), ..nothing },
            Ok(rows) => {
                let done = ScanOutcomeModel {
                    batches: if rows.len() > 0 {
                        seq![rows]
                    } else {
                        Seq::empty()
                    },
                    emitted: emitted + rows.len(),
                    fault: None,
                };
                let last = found.last().reference.offset.0;
                if done.emitted == limit || found.len() < most || last == u64::MAX
                    || offset_room(Some((last + 1) as u64)) >= offset_room(next_offset) {
                    done
                } else {
                    continued(
                        done,
                        partition_scan(
                            stripes,
                            request,
                            partition,
                            start,
                            hidden,
                            done.emitted,
                            Some((last + 1) as u64),
                        ),
                    )
                }
            },
        }
    }
}

/// Scan of the first `count` partitions, until a fault.
pub open spec fn partitions_scan(
    stripes: Seq<LogStripe>,
    request: ScanModel,
    partitions: Seq<TopicPartition>,
    start: Option<u64>,
    hidden: Seq<SelectionModel>,
    count: int,
) -> ScanOutcomeModel
    decreases count,
{
    if count <= 0 {
        ScanOutcomeModel { batches: Seq::empty(), emitted: 0, fault: None }
    } else {
        let front = partitions_scan(stripes, request, partitions, start, hidden, count - 1);
        if front.fault is Some {
            front
        } else {
            continued(
                front,
                partition_scan(
                    stripes,
                    request,
                    partitions[count - 1],
                    start,
                    hidden,
                    front.emitted,
                    None,
                ),
            )
        }
    }
}

proof fn lemma_scan_fault(
    stripes: Seq<LogStripe>,
    request: ScanModel,
    partitions: Seq<TopicPartition>,
    start: Option<u64>,
    hidden: Seq<SelectionModel>,
    n: int,
    count: int,
)
    requires
        0 <= n <= count,
        partitions_scan(stripes, request, partitions, start, hidden, n).fault is Some,
    ensures
        partitions_scan(stripes, request, partitions, start, hidden, count) == partitions_scan(
            stripes,
            request,
            partitions,
            start,
            hidden,
            n,
        ),
    decreases count - n,
{
    if n < count {
        lemma_scan_fault(stripes, request, partitions, start, hidden, n, count - 1);
    }
}

/// Batches given by a scan, and the failure that ended it, if any.
#[derive(Debug)]
pub struct ScanOutcome {
    /// Batches.
    pub batches: Vec<Vec<AnalyticsLogRow>>,
    /// Failure that ended the scan.
    pub error: Option<LokiApiError>,
}

/// Fault of a failure.
pub open spec fn fault_of(error: Option<LokiApiError>) -> Option<ApiFault> {
    match error {
        Some(error) => Some(error@),
        None => None,
    }
}

/// Scans a partition; adds its batches, and gives the number of rows or the failure.
fn scan_partition(
    db: &ShardLogDb,
    request: &AnalyticsScanRequest,
    partition: TopicPartition,
    start: Option<u64>,
    filter: &LogicalDeleteFilter,
    batches: &mut Vec<Vec<AnalyticsLogRow>>,
    emitted: usize,
) -> (result: Result<usize, LokiApiError>)
    requires
        db.well_formed(),
        filter.well_formed(),
        emitted <= scan_limit(request@),
    ensures
        ({
            let outcome = partition_scan(
                db.stripes@,
                request@,
                partition,
                start,
                filter@,
                emitted as nat,
                None,
            );
            &&& batches_view(final(batches)@) == batches_view(old(batches)@) + outcome.batches
            &&& match (result, outcome.fault) {
                (Ok(rows), None) => rows == outcome.emitted && rows <= scan_limit(request@),
                (Err(error), Some(fault)) => error@ == fault,
                _ => false,
            }
        }),
{
    let limit: usize = match request.limit {
        Some(limit) => limit,
        None => usize::MAX,
    };
    let ghost outcome = partition_scan(
        db.stripes@,
        request@,
        partition,
        start,
        filter@,
        emitted as nat,
        None,
    );
    let ghost base = batches_view(batches@);
    let ghost mut done: Seq<Seq<RowModel>> = Seq::empty();
    let mut rows_given: usize = emitted;
    let mut next_offset: Option<u64> = None;
    proof {
        assert(base + done =~= base);
        assert(done + outcome.batches =~= outcome.batches);
    }
    loop
        invariant
            db.well_formed(),
            filter.well_formed(),
            limit == scan_limit(request@),
            rows_given <= limit,
            batches_view(batches@) == base + done,
            base == batches_view(old(batches)@),
            outcome == partition_scan(
                db.stripes@,
                request@,
                partition,
                start,
                filter@,
                emitted as nat,
                None,
            ),
            ({
                let rest = partition_scan(
                    db.stripes@,
                    request@,
                    partition,
                    start,
                    filter@,
                    rows_given as nat,
                    next_offset,
                );
                &&& outcome.batches == done + rest.batches
                &&& outcome.emitted == rest.emitted
                &&& outcome.fault == rest.fault
            }),
        decreases offset_room(next_offset),
    {
        let ghost rest = partition_scan(
            db.stripes@,
            request@,
            partition,
            start,
            filter@,
            rows_given as nat,
            next_offset,
        );
        let left: usize = limit - rows_given;
        let page_limit: usize = if left < SCAN_BATCH_ROWS {
            left
        } else {
            SCAN_BATCH_ROWS
        };
        if page_limit == 0 {
            proof {
                assert(done + rest.batches =~= done);
            }
            return Ok(rows_given);
        }
        let query = scan_query(request, partition, start, next_offset, page_limit);
        let found = fetch_page(db, &query);
        let ghost records = records_view(found@);
        proof {
            assert(records.len() == found@.len());
        }
        if found.len() == 0 {
            proof {
                assert(done + rest.batches =~= done);
            }
            return Ok(rows_given);
        }
        let final_offset: u64 = found[found.len() - 1].record_ref.offset.0;
        proof {
            assert(fits_query(query@, found@[found@.len() - 1]@));
            assert(records.last() == found@[found@.len() - 1]@);
            lemma_page_bound(stripe_answers(db.stripes@, query@), query@);
        }
        match collect_rows(&request.tenant, &found, filter) {
            Err(error) => {
                proof {
                    assert(done + rest.batches =~= done);
                }
                return Err(error);
            },
            Ok(rows) => {
                let count: usize = rows.len();
                let ghost models = rows_view(rows@);
                let ghost before = batches@;
                let ghost batch = if models.len() > 0 {
                    seq![models]
                } else {
                    Seq::<Seq<RowModel>>::empty()
                };
                proof {
                    assert(models.len() == count);
                    if count > 0 {
                        assert(batches_view(before.push(rows)) =~= (base + done).push(models));
                        assert((base + done).push(models) =~= base + (done + batch));
                    } else {
                        assert(base + done =~= base + (done + batch));
                    }
                }
                if count > 0 {
                    batches.push(rows);
                }
                rows_given = rows_given + count;
                if rows_given == limit || found.len() < page_limit || final_offset == u64::MAX {
                    proof {
                        assert(rest.batches == batch);
                    }
                    return Ok(rows_given);
                }
                proof {
                    let later = partition_scan(
                        db.stripes@,
                        request@,
                        partition,
                        start,
                        filter@,
                        rows_given as nat,
                        Some((final_offset + 1) as u64),
                    );
                    assert(rest.batches == batch + later.batches);
                    assert(done + (batch + later.batches) =~= (done + batch) + later.batches);
                    done = done + batch;
                }
                next_offset = Some(final_offset + 1);
            },
        }
    }
}

proof fn lemma_page_bound(records: Seq<RecordModel>, query: LogQueryModel)
    requires
        query.limit is Some,
    ensures
        merged(records, query).len() <= query.limit->0,
{
}

/// The outcome of a scan of a tenant's partitions.
pub open spec fn scan_outcome_of(
    stripes: Seq<LogStripe>,
    partitions: Seq<TopicPartition>,
    request: ScanModel,
    deletes: Seq<DeleteModel>,
    cutoff: Option<u64>,
) -> ScanOutcomeModel {
    let nothing = ScanOutcomeModel { batches: Seq::empty(), emitted: 0, fault: None };
    match scan_fault(request) {
        Some(fault) => ScanOutcomeModel { fault: Some(fault), ..nothing },
        None => if request.limit == Some(0usize) {
            nothing
        } else {
            match deleted_selections(deletes) {
                Err(fault) => ScanOutcomeModel { fault: Some(fault), ..nothing },
                Ok(hidden) => partitions_scan(
                    stripes,
                    request,
                    partitions,
                    retained_start(request.start, cutoff),
                    hidden,
                    partitions.len() as int,
                ),
            }
        },
    }
}

/// Scans a tenant's partitions, given its deletion requests and the retention cutoff.
pub fn scan_analytics(
    db: &ShardLogDb,
    routing: &TenantRouting,
    request: &AnalyticsScanRequest,
    deletes: &Vec<DeleteRequest>,
    cutoff: Option<u64>,
) -> (outcome: ScanOutcome)
    requires
        db.well_formed(),
        routing.well_formed(),
    ensures
        ({
            let wanted = scan_outcome_of(
                db.stripes@,
                routing.partitions(request@.tenant),
                request@,
                deletes_view(deletes@),
                cutoff,
            );
            &&& batches_view(outcome.batches@) == wanted.batches
            &&& fault_of(outcome.error) == wanted.fault
        }),
{
    let mut batches: Vec<Vec<AnalyticsLogRow>> = Vec::new();
    proof {
        assert(batches_view(batches@) =~= Seq::<Seq<RowModel>>::empty());
    }
    match request.validate() {
        Ok(_) => {},
        Err(error) => return ScanOutcome { batches, error: Some(error) },
    }
    match request.limit {
        Some(limit) => {
            if limit == 0 {
                return ScanOutcome { batches, error: None };
            }
        },
        None => {},
    }
    let filter = match LogicalDeleteFilter::compile(deletes) {
        Ok(filter) => filter,
        Err(error) => return ScanOutcome { batches, error: Some(error) },
    };
    let start = retained_query_start(request.start_timestamp_unix_nanos, cutoff);
    let partitions = routing.tenant_partitions(&request.tenant);
    let mut emitted: usize = 0;
    let mut index: usize = 0;
    while index < partitions.len()
        invariant
            db.well_formed(),
            filter.well_formed(),
            index <= partitions@.len(),
            emitted <= scan_limit(request@),
            scan_fault(request@) is None,
            request@.limit != Some(0usize),
            deleted_selections(deletes_view(deletes@)) == Ok::<_, ApiFault>(filter@),
            start == retained_start(request@.start, cutoff),
            partitions@ == routing.partitions(request@.tenant),
            partitions_scan(
                db.stripes@,
                request@,
                partitions@,
                start,
                filter@,
                index as int,
            ) == (ScanOutcomeModel {
                batches: batches_view(batches@),
                emitted: emitted as nat,
                fault: None,
            }),
        decreases partitions@.len() - index,
    {
        match scan_partition(
            db,
            request,
            partitions[index],
            start,
            &filter,
            &mut batches,
            emitted,
        ) {
            Ok(rows) => {
                emitted = rows;
            },
            Err(error) => {
                proof {
                    lemma_scan_fault(
                        db.stripes@,
                        request@,
                        partitions@,
                        start,
                        filter@,
                        index + 1,
                        partitions@.len() as int,
                    );
                }
                return ScanOutcome { batches, error: Some(error) };
            },
        }
        index = index + 1;
    }
    ScanOutcome { batches, error: None }
}

} // verus!
