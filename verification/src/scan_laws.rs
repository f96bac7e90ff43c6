//! Laws of reading all entries of a tenant and of analytical scans.
use vstd::prelude::*;

use crate::analytics::{
    holds_fields, scan_fault, scan_limit, scan_rows, scan_selects, selected_rows, RowModel,
    ScanModel,
};
use crate::durable_query::{
    db_page, offset_room, partition_scan, partitions_scan, scan_outcome_of, scan_page_limit,
    scan_query_of, visible_rows,
};
use crate::durable_store::{retained_start, stored_entry, stored_labels, stored_metadata};
use crate::frame_laws::{all_covered, visible, Document};
use crate::labels::{lookup, Pairs};
use crate::log_query::{LogQueryModel, RecordModel};
use crate::log_stripe::LogStripe;
use crate::loki_delete::{deleted_selections, is_deleted, DeleteModel};
use crate::loki_stats::SelectionModel;
use crate::native_fill_laws::lives_in;
use crate::native_query_laws::{
    deletions_cover_what_they_ask_for, is_erased, lemma_stock_of_part,
};
use crate::record::{EntryModel, TopicPartition};
use crate::store_laws::{
    answers_are_asked_for, asked_records_are_answered, asks_for, comes_before_in,
    documents_keep_their_partition, gives, stock_of_all,
};
use crate::text::{normal_term, normal_terms};

verus! {

broadcast use vstd::seq_lib::group_seq_properties;

/// Whether a scan of stored records asks for a document: a record of its tenant with each of
/// its labels and metadata, whose message has each of its terms in search form, in its
/// half-open time range and not older than the retention cutoff.
pub open spec fn scan_wants(request: ScanModel, cutoff: Option<u64>, document: Document) -> bool {
    let record = document.0;
    &&& record.fields.contains(("resource.loki.tenant"@, request.tenant))
    &&& forall|name: Seq<char>, value: Seq<char>| #[trigger]
        request.labels.contains((name, value)) ==> record.fields.contains(
            ("resource.loki.label."@ + name, value),
        )
    &&& forall|name: Seq<char>, value: Seq<char>| #[trigger]
        request.metadata.contains((name, value)) ==> record.fields.contains(
            ("attr.loki.metadata."@ + name, value),
        )
    &&& forall|term: Seq<char>| #[trigger]
        request.terms.contains(term) ==> document.1.contains(normal_term(term))
    &&& (request.start matches Some(start) ==> start <= record.timestamp)
    &&& (request.end matches Some(end) ==> record.timestamp < end)
    &&& (cutoff matches Some(cutoff) ==> cutoff <= record.timestamp)
}

/// Whether a row shows a record of a tenant.
pub open spec fn shows(row: RowModel, tenant: Seq<char>, record: RecordModel) -> bool {
    &&& row.tenant == tenant
    &&& row.timestamp == record.timestamp
    &&& row.partition == record.reference.topic_partition.partition_id.0
    &&& row.offset == record.reference.offset.0
    &&& row.message == record.message
    &&& row.labels == stored_labels(record.fields)
    &&& row.metadata == stored_metadata(record.fields)
}

proof fn lemma_scan_asks(
    request: ScanModel,
    cutoff: Option<u64>,
    partition: TopicPartition,
    next_offset: Option<u64>,
    limit: usize,
    document: Document,
)
    ensures
        asks_for(
            scan_query_of(
                request,
                partition,
                retained_start(request.start, cutoff),
                next_offset,
                limit,
            ),
            document,
        ) == (document.0.reference.topic_partition == partition && scan_wants(
            request,
            cutoff,
            document,
        ) && (next_offset matches Some(next) ==> next <= document.0.reference.offset.0)),
{
    let query = scan_query_of(
        request,
        partition,
        retained_start(request.start, cutoff),
        next_offset,
        limit,
    );
    let record = document.0;
    let labels = request.labels.len() as int;
    if asks_for(query, document) {
        assert(query.fields[0] == ("resource.loki.tenant"@, request.tenant));
        assert(query.fields.contains(query.fields[0]));
        assert forall|name: Seq<char>, value: Seq<char>| #[trigger]
            request.labels.contains((name, value)) implies record.fields.contains(
            ("resource.loki.label."@ + name, value),
        ) by {
            let i = choose|i: int| 0 <= i < request.labels.len() && request.labels[i] == (name, value);
            assert(query.fields[i + 1] == ("resource.loki.label."@ + name, value));
            assert(query.fields.contains(query.fields[i + 1]));
        }
        assert forall|name: Seq<char>, value: Seq<char>| #[trigger]
            request.metadata.contains((name, value)) implies record.fields.contains(
            ("attr.loki.metadata."@ + name, value),
        ) by {
            let i = choose|i: int|
                0 <= i < request.metadata.len() && request.metadata[i] == (name, value);
            assert(query.fields[i + 1 + labels] == ("attr.loki.metadata."@ + name, value));
            assert(query.fields.contains(query.fields[i + 1 + labels]));
        }
        assert forall|term: Seq<char>| #[trigger]
            request.terms.contains(term) implies document.1.contains(normal_term(term)) by {
            let i = choose|i: int| 0 <= i < request.terms.len() && request.terms[i] == term;
            assert(query.terms[i] == normal_term(term));
            assert(query.terms.contains(query.terms[i]));
        }
    }
    if record.reference.topic_partition == partition && scan_wants(request, cutoff, document) && (
    next_offset matches Some(next) ==> next <= record.reference.offset.0) {
        assert forall|term: Seq<char>| #[trigger] query.terms.contains(term) implies document.1.contains(
            term,
        ) by {
            let i = choose|i: int| 0 <= i < query.terms.len() && query.terms[i] == term;
            assert(request.terms.contains(request.terms[i]));
        }
        assert forall|field: (Seq<char>, Seq<char>)| #[trigger]
            query.fields.contains(field) implies record.fields.contains(field) by {
            let i = choose|i: int| 0 <= i < query.fields.len() && query.fields[i] == field;
            if 0 < i <= labels {
                let label = request.labels[i - 1];
                assert(request.labels.contains((label.0, label.1)));
                assert(field == ("resource.loki.label."@ + label.0, label.1));
            } else if i > labels {
                let pair = request.metadata[i - 1 - labels];
                assert(request.metadata.contains((pair.0, pair.1)));
                assert(field == ("attr.loki.metadata."@ + pair.0, pair.1));
            }
        }
    }
}

/// Whether a row is that of a document of a partition that a scan asks for and that is not
/// hidden.
pub open spec fn is_row_from(
    stripes: Seq<LogStripe>,
    partition: TopicPartition,
    request: ScanModel,
    cutoff: Option<u64>,
    hidden: Seq<SelectionModel>,
    row: RowModel,
) -> bool {
    exists|s: int, k: int|
        #![trigger visible(stripes[s], partition)[k]]
        0 <= s < stripes.len() && 0 <= k < visible(stripes[s], partition).len() && scan_wants(
            request,
            cutoff,
            visible(stripes[s], partition)[k],
        ) && shows(row, request.tenant, visible(stripes[s], partition)[k].0) && (stored_entry(
            visible(stripes[s], partition)[k].0,
        ) matches Ok(entry) && !is_deleted(hidden, entry))
}

proof fn lemma_rows_source(
    tenant: Seq<char>,
    records: Seq<RecordModel>,
    hidden: Seq<SelectionModel>,
)
    ensures
        visible_rows(tenant, records, hidden) matches Ok(rows) ==> {
            &&& rows.len() <= records.len()
            &&& forall|r: int|
                0 <= r < rows.len() ==> exists|i: int|
                    0 <= i < records.len() && shows(
                        #[trigger] rows[r],
                        tenant,
                        #[trigger] records[i],
                    ) && (stored_entry(records[i]) matches Ok(entry) && !is_deleted(hidden, entry))
            &&& forall|i: int|
                0 <= i < records.len() ==> (stored_entry(#[trigger] records[i]) matches Ok(entry)
                    && (!is_deleted(hidden, entry) ==> exists|r: int|
                    0 <= r < rows.len() && shows(#[trigger] rows[r], tenant, records[i])))
        },
    decreases records.len(),
{
    if records.len() > 0 {
        let early = records.drop_last();
        let last = records.last();
        lemma_rows_source(tenant, early, hidden);
        assert(records[records.len() - 1] == last);
        if visible_rows(tenant, records, hidden) is Ok {
            let rows = visible_rows(tenant, records, hidden)->Ok_0;
            let front = visible_rows(tenant, early, hidden)->Ok_0;
            assert forall|r: int| 0 <= r < rows.len() implies exists|i: int|
                0 <= i < records.len() && shows(
                    #[trigger] rows[r],
                    tenant,
                    #[trigger] records[i],
                ) && (stored_entry(records[i]) matches Ok(entry) && !is_deleted(hidden, entry)) by {
                if r < front.len() {
                    assert(rows[r] == front[r]);
                    let i = choose|i: int|
                        0 <= i < early.len() && shows(
                            #[trigger] front[r],
                            tenant,
                            #[trigger] early[i],
                        ) && (stored_entry(early[i]) matches Ok(entry) && !is_deleted(
                            hidden,
                            entry,
                        ));
                    assert(records[i] == early[i]);
                } else {
                    assert(shows(rows[r], tenant, records[records.len() - 1]));
                }
            }
            assert forall|i: int| 0 <= i < records.len() implies (stored_entry(
                #[trigger] records[i],
            ) matches Ok(entry) && (!is_deleted(hidden, entry) ==> exists|r: int|
                0 <= r < rows.len() && shows(#[trigger] rows[r], tenant, records[i]))) by {
                if i < early.len() {
                    assert(early[i] == records[i]);
                    let entry = stored_entry(early[i])->Ok_0;
                    if !is_deleted(hidden, entry) {
                        let r = choose|r: int|
                            0 <= r < front.len() && shows(#[trigger] front[r], tenant, early[i]);
                        assert(rows[r] == front[r]);
                    }
                } else {
                    let entry = stored_entry(last)->Ok_0;
                    if !is_deleted(hidden, entry) {
                        assert(shows(rows[rows.len() - 1], tenant, records[i]));
                    }
                }
            }
        }
    }
}

/// Number of rows in batches.
pub open spec fn row_total(batches: Seq<Seq<RowModel>>) -> nat
    decreases batches.len(),
{
    if batches.len() == 0 {
        0
    } else {
        row_total(batches.drop_last()) + batches.last().len()
    }
}

proof fn lemma_row_total(left: Seq<Seq<RowModel>>, right: Seq<Seq<RowModel>>)
    ensures
        row_total(left + right) == row_total(left) + row_total(right),
    decreases right.len(),
{
    if right.len() == 0 {
        assert(left + right =~= left);
    } else {
        lemma_row_total(left, right.drop_last());
        assert((left + right).drop_last() =~= left + right.drop_last());
        assert((left + right).last() == right.last());
    }
}

proof fn lemma_found_source(
    stripes: Seq<LogStripe>,
    request: ScanModel,
    partition: TopicPartition,
    cutoff: Option<u64>,
    next_offset: Option<u64>,
    most: usize,
    i: int,
) -> (at: (int, int))
    requires
        forall|s: int| 0 <= s < stripes.len() ==> (#[trigger] stripes[s]).well_formed(),
        stock_of_all(stripes, seq![partition]) <= usize::MAX,
        ({
            let query = scan_query_of(
                request,
                partition,
                retained_start(request.start, cutoff),
                next_offset,
                most,
            );
            0 <= i < db_page(stripes, query).len()
        }),
    ensures
        ({
            let query = scan_query_of(
                request,
                partition,
                retained_start(request.start, cutoff),
                next_offset,
                most,
            );
            let record = db_page(stripes, query)[i];
            &&& 0 <= at.0 < stripes.len()
            &&& 0 <= at.1 < visible(stripes[at.0], partition).len()
            &&& visible(stripes[at.0], partition)[at.1].0 == record
            &&& scan_wants(request, cutoff, visible(stripes[at.0], partition)[at.1])
            &&& (next_offset matches Some(next) ==> next <= record.reference.offset.0)
            &&& db_page(stripes, query).len() <= most
        }),
{
    let query = scan_query_of(
        request,
        partition,
        retained_start(request.start, cutoff),
        next_offset,
        most,
    );
    let found = db_page(stripes, query);
    answers_are_asked_for(stripes, query);
    let s = choose|s: int| 0 <= s < stripes.len() && gives(#[trigger] stripes[s], query, found[i]);
    let documents = visible(stripes[s], partition);
    let k = choose|k: int|
        0 <= k < documents.len() && (#[trigger] documents[k]).0 == found[i] && asks_for(
            query,
            documents[k],
        );
    lemma_scan_asks(request, cutoff, partition, next_offset, most, documents[k]);
    (s, k)
}

/// Whether all rows of batches come from a partition.
spec fn rows_come_from(
    stripes: Seq<LogStripe>,
    partition: TopicPartition,
    request: ScanModel,
    cutoff: Option<u64>,
    hidden: Seq<SelectionModel>,
    batches: Seq<Seq<RowModel>>,
) -> bool {
    forall|b: int, r: int|
        0 <= b < batches.len() && 0 <= r < batches[b].len() ==> is_row_from(
            stripes,
            partition,
            request,
            cutoff,
            hidden,
            #[trigger] batches[b][r],
        )
}

proof fn lemma_partition_scan_source(
    stripes: Seq<LogStripe>,
    request: ScanModel,
    partition: TopicPartition,
    cutoff: Option<u64>,
    hidden: Seq<SelectionModel>,
    emitted: nat,
    next_offset: Option<u64>,
)
    requires
        forall|s: int| 0 <= s < stripes.len() ==> (#[trigger] stripes[s]).well_formed(),
        stock_of_all(stripes, seq![partition]) <= usize::MAX,
        emitted <= scan_limit(request),
    ensures
        ({
            let outcome = partition_scan(
                stripes,
                request,
                partition,
                retained_start(request.start, cutoff),
                hidden,
                emitted,
                next_offset,
            );
            &&& outcome.emitted == emitted + row_total(outcome.batches)
            &&& outcome.emitted <= scan_limit(request)
            &&& rows_come_from(stripes, partition, request, cutoff, hidden, outcome.batches)
        }),
    decreases offset_room(next_offset),
{
    let start = retained_start(request.start, cutoff);
    let limit = scan_limit(request);
    let most = scan_page_limit(limit, emitted);
    let found = db_page(stripes, scan_query_of(request, partition, start, next_offset, most));
    let outcome = partition_scan(
        stripes,
        request,
        partition,
        start,
        hidden,
        emitted,
        next_offset,
    );
    if most > 0 && found.len() > 0 {
        lemma_rows_source(request.tenant, found, hidden);
        let first = lemma_found_source(stripes, request, partition, cutoff, next_offset, most, 0);
        if visible_rows(request.tenant, found, hidden) is Ok {
            let rows = visible_rows(request.tenant, found, hidden)->Ok_0;
            assert forall|r: int| 0 <= r < rows.len() implies is_row_from(
                stripes,
                partition,
                request,
                cutoff,
                hidden,
                #[trigger] rows[r],
            ) by {
                let i = choose|i: int|
                    0 <= i < found.len() && shows(
                        rows[r],
                        request.tenant,
                        #[trigger] found[i],
                    ) && (stored_entry(found[i]) matches Ok(entry) && !is_deleted(hidden, entry));
                let at = lemma_found_source(
                    stripes,
                    request,
                    partition,
                    cutoff,
                    next_offset,
                    most,
                    i,
                );
                assert(visible(stripes[at.0], partition)[at.1].0 == found[i]);
            }
            let batches = if rows.len() > 0 {
                seq![rows]
            } else {
                Seq::<Seq<RowModel>>::empty()
            };
            assert(row_total(batches) == rows.len()) by {
                if rows.len() > 0 {
                    assert(batches.drop_last() =~= Seq::<Seq<RowModel>>::empty());
                    assert(row_total(batches.drop_last()) == 0);
                }
            }
            assert(rows_come_from(stripes, partition, request, cutoff, hidden, batches));
            let last = found.last().reference.offset.0;
            if !(emitted + rows.len() == limit || found.len() < most || last == u64::MAX
                || offset_room(Some((last + 1) as u64)) >= offset_room(next_offset)) {
                let next = Some((last + 1) as u64);
                lemma_partition_scan_source(
                    stripes,
                    request,
                    partition,
                    cutoff,
                    hidden,
                    emitted + rows.len(),
                    next,
                );
                let rest = partition_scan(
                    stripes,
                    request,
                    partition,
                    start,
                    hidden,
                    emitted + rows.len(),
                    next,
                );
                lemma_row_total(batches, rest.batches);
                assert(outcome.batches == batches + rest.batches);
                assert forall|b: int, r: int|
                    0 <= b < outcome.batches.len() && 0 <= r
                        < outcome.batches[b].len() implies is_row_from(
                    stripes,
                    partition,
                    request,
                    cutoff,
                    hidden,
                    #[trigger] outcome.batches[b][r],
                ) by {
                    if b < batches.len() {
                        assert(outcome.batches[b] == batches[b]);
                        assert(is_row_from(
                            stripes,
                            partition,
                            request,
                            cutoff,
                            hidden,
                            batches[b][r],
                        ));
                    } else {
                        assert(outcome.batches[b] == rest.batches[b - batches.len()]);
                        assert(is_row_from(
                            stripes,
                            partition,
                            request,
                            cutoff,
                            hidden,
                            rest.batches[b - batches.len()][r],
                        ));
                    }
                }
            }
        }
    }
}

proof fn lemma_scan_source(
    stripes: Seq<LogStripe>,
    request: ScanModel,
    partitions: Seq<TopicPartition>,
    cutoff: Option<u64>,
    hidden: Seq<SelectionModel>,
    count: int,
)
    requires
        forall|s: int| 0 <= s < stripes.len() ==> (#[trigger] stripes[s]).well_formed(),
        stock_of_all(stripes, partitions) <= usize::MAX,
        0 <= count <= partitions.len(),
    ensures
        ({
            let outcome = partitions_scan(
                stripes,
                request,
                partitions,
                retained_start(request.start, cutoff),
                hidden,
                count,
            );
            &&& outcome.emitted == row_total(outcome.batches)
            &&& outcome.emitted <= scan_limit(request)
            &&& forall|b: int, r: int|
                0 <= b < outcome.batches.len() && 0 <= r < outcome.batches[b].len() ==> exists|
                    p: int,
                |
                    0 <= p < partitions.len() && is_row_from(
                        stripes,
                        #[trigger] partitions[p],
                        request,
                        cutoff,
                        hidden,
                        #[trigger] outcome.batches[b][r],
                    )
        }),
    decreases count,
{
    if count > 0 {
        let start = retained_start(request.start, cutoff);
        let p = count - 1;
        lemma_scan_source(stripes, request, partitions, cutoff, hidden, p);
        let front = partitions_scan(stripes, request, partitions, start, hidden, p);
        if front.fault is None {
            lemma_stock_of_part(stripes, partitions, p);
            lemma_partition_scan_source(
                stripes,
                request,
                partitions[p],
                cutoff,
                hidden,
                front.emitted,
                None,
            );
            let rest = partition_scan(
                stripes,
                request,
                partitions[p],
                start,
                hidden,
                front.emitted,
                None,
            );
            lemma_row_total(front.batches, rest.batches);
            let all = front.batches + rest.batches;
            assert forall|b: int, r: int|
                0 <= b < all.len() && 0 <= r < all[b].len() implies exists|at: int|
                0 <= at < partitions.len() && is_row_from(
                    stripes,
                    #[trigger] partitions[at],
                    request,
                    cutoff,
                    hidden,
                    #[trigger] all[b][r],
                ) by {
                if b < front.batches.len() {
                    assert(all[b] == front.batches[b]);
                    let at = choose|at: int|
                        0 <= at < partitions.len() && is_row_from(
                            stripes,
                            #[trigger] partitions[at],
                            request,
                            cutoff,
                            hidden,
                            #[trigger] front.batches[b][r],
                        );
                    assert(is_row_from(
                        stripes,
                        partitions[at],
                        request,
                        cutoff,
                        hidden,
                        all[b][r],
                    ));
                } else {
                    assert(all[b] == rest.batches[b - front.batches.len()]);
                    assert(is_row_from(
                        stripes,
                        partitions[p],
                        request,
                        cutoff,
                        hidden,
                        rest.batches[b - front.batches.len()][r],
                    ));
                    assert(is_row_from(stripes, partitions[p], request, cutoff, hidden, all[b][r]));
                }
            }
        }
    }
}

/// Every row of a scan of stored records is that of a record of the tenant with the labels,
/// metadata and terms of the request, in its time range and behind the retention cutoff,
/// that no received deletion covers; there are no more rows than its limit.
pub proof fn scanned_rows_are_wanted(
    stripes: Seq<LogStripe>,
    partitions: Seq<TopicPartition>,
    request: ScanModel,
    deletes: Seq<DeleteModel>,
    cutoff: Option<u64>,
)
    requires
        forall|s: int| 0 <= s < stripes.len() ==> (#[trigger] stripes[s]).well_formed(),
        stock_of_all(stripes, partitions) <= usize::MAX,
    ensures
        ({
            let outcome = scan_outcome_of(stripes, partitions, request, deletes, cutoff);
            &&& outcome.emitted == row_total(outcome.batches)
            &&& (request.limit matches Some(limit) ==> outcome.emitted <= limit)
            &&& forall|b: int, r: int|
                0 <= b < outcome.batches.len() && 0 <= r < outcome.batches[b].len() ==> is_wanted_row(
                    stripes,
                    partitions,
                    request,
                    deletes,
                    cutoff,
                    #[trigger] outcome.batches[b][r],
                )
        }),
{
    let outcome = scan_outcome_of(stripes, partitions, request, deletes, cutoff);
    if scan_fault(request) is None && request.limit != Some(0usize) && deleted_selections(
        deletes,
    ) is Ok {
        let hidden = deleted_selections(deletes)->Ok_0;
        lemma_scan_source(
            stripes,
            request,
            partitions,
            cutoff,
            hidden,
            partitions.len() as int,
        );
        deletions_cover_what_they_ask_for(deletes);
        assert forall|b: int, r: int|
            0 <= b < outcome.batches.len() && 0 <= r
                < outcome.batches[b].len() implies is_wanted_row(
            stripes,
            partitions,
            request,
            deletes,
            cutoff,
            #[trigger] outcome.batches[b][r],
        ) by {
            let row = outcome.batches[b][r];
            let p = choose|p: int|
                0 <= p < partitions.len() && is_row_from(
                    stripes,
                    #[trigger] partitions[p],
                    request,
                    cutoff,
                    hidden,
                    outcome.batches[b][r],
                );
            let (s, k) = choose|s: int, k: int|
                #![trigger visible(stripes[s], partitions[p])[k]]
                0 <= s < stripes.len() && 0 <= k < visible(stripes[s], partitions[p]).len()
                    && scan_wants(request, cutoff, visible(stripes[s], partitions[p])[k])
                    && shows(row, request.tenant, visible(stripes[s], partitions[p])[k].0) && (
                stored_entry(visible(stripes[s], partitions[p])[k].0) matches Ok(entry)
                    && !is_deleted(hidden, entry));
            let document = visible(stripes[s], partitions[p])[k];
            let entry = stored_entry(document.0)->Ok_0;
            assert(is_deleted(hidden, entry) == is_erased(deletes, entry));
            assert(is_to_scan(request, deletes, cutoff, document));
        }
    }
}

/// Whether a document is to be scanned: the request asks for it and no received deletion
/// covers its entry.
pub open spec fn is_to_scan(
    request: ScanModel,
    deletes: Seq<DeleteModel>,
    cutoff: Option<u64>,
    document: Document,
) -> bool {
    scan_wants(request, cutoff, document) && (stored_entry(document.0) matches Ok(entry)
        && !is_erased(deletes, entry))
}

/// Whether a row is that of a document that is to be scanned.
pub open spec fn is_wanted_row(
    stripes: Seq<LogStripe>,
    partitions: Seq<TopicPartition>,
    request: ScanModel,
    deletes: Seq<DeleteModel>,
    cutoff: Option<u64>,
    row: RowModel,
) -> bool {
    exists|s: int, p: int, k: int|
        #![trigger visible(stripes[s], partitions[p])[k]]
        0 <= s < stripes.len() && 0 <= p < partitions.len() && 0 <= k < visible(
            stripes[s],
            partitions[p],
        ).len() && is_to_scan(request, deletes, cutoff, visible(stripes[s], partitions[p])[k])
            && shows(row, request.tenant, visible(stripes[s], partitions[p])[k].0)
}

/// Whether some row shows a record.
pub open spec fn is_listed(
    batches: Seq<Seq<RowModel>>,
    tenant: Seq<char>,
    record: RecordModel,
) -> bool {
    exists|b: int, r: int|
        0 <= b < batches.len() && 0 <= r < batches[b].len() && shows(
            #[trigger] batches[b][r],
            tenant,
            record,
        )
}

proof fn lemma_listed_in_part(
    left: Seq<Seq<RowModel>>,
    right: Seq<Seq<RowModel>>,
    tenant: Seq<char>,
    record: RecordModel,
)
    ensures
        is_listed(left, tenant, record) || is_listed(right, tenant, record) ==> is_listed(
            left + right,
            tenant,
            record,
        ),
{
    let all = left + right;
    if is_listed(left, tenant, record) {
        let (b, r) = choose|b: int, r: int|
            0 <= b < left.len() && 0 <= r < left[b].len() && shows(
                #[trigger] left[b][r],
                tenant,
                record,
            );
        assert(all[b] == left[b]);
        assert(shows(all[b][r], tenant, record));
    }
    if is_listed(right, tenant, record) {
        let (b, r) = choose|b: int, r: int|
            0 <= b < right.len() && 0 <= r < right[b].len() && shows(
                #[trigger] right[b][r],
                tenant,
                record,
            );
        assert(all[left.len() + b] == right[b]);
        assert(shows(all[left.len() + b][r], tenant, record));
    }
}

/// A page of a scan holds the wanted records up to its last offset.
proof fn lemma_page_holds(
    stripes: Seq<LogStripe>,
    request: ScanModel,
    partition: TopicPartition,
    cutoff: Option<u64>,
    next_offset: Option<u64>,
    most: usize,
    j: int,
    k: int,
)
    requires
        forall|s: int| 0 <= s < stripes.len() ==> (#[trigger] stripes[s]).well_formed(),
        forall|s: int| 0 <= s < stripes.len() ==> all_covered((#[trigger] stripes[s]).appends@),
        stock_of_all(stripes, seq![partition]) <= usize::MAX,
        lives_in(stripes, partition, j),
        most > 0,
        0 <= k < visible(stripes[j], partition).len(),
        scan_wants(request, cutoff, visible(stripes[j], partition)[k]),
        next_offset matches Some(next) ==> next <= visible(
            stripes[j],
            partition,
        )[k].0.reference.offset.0,
    ensures
        ({
            let query = scan_query_of(
                request,
                partition,
                retained_start(request.start, cutoff),
                next_offset,
                most,
            );
            let found = db_page(stripes, query);
            let record = visible(stripes[j], partition)[k].0;
            found.contains(record) || found.len() == most && found.last().reference.offset.0
                < record.reference.offset.0
        }),
{
    let query = scan_query_of(
        request,
        partition,
        retained_start(request.start, cutoff),
        next_offset,
        most,
    );
    let found = db_page(stripes, query);
    let documents = visible(stripes[j], partition);
    let record = documents[k].0;
    documents_keep_their_partition(stripes[j], partition, k);
    lemma_scan_asks(request, cutoff, partition, next_offset, most, documents[k]);
    asked_records_are_answered(stripes, query);
    assert(gives(stripes[j], query, record)) by {
        assert(visible(stripes[j], query.partition)[k].0 == record);
    }
    if !found.contains(record) {
        assert(query.limit == Some(found.len() as usize));
        lemma_found_count(stripes, query);
        assert(found.len() == most);
        let at = lemma_found_source(
            stripes,
            request,
            partition,
            cutoff,
            next_offset,
            most,
            found.len() - 1,
        );
        let last = found[found.len() - 1];
        assert(!comes_before_in(query, record, last));
        if last.reference.offset.0 == record.reference.offset.0 {
            if at.0 != j {
                assert(visible(stripes[at.0], partition).len() == 0);
            }
            if at.1 < k {
                assert(documents[at.1].0.reference.offset != documents[k].0.reference.offset);
            } else if k < at.1 {
                assert(documents[k].0.reference.offset != documents[at.1].0.reference.offset);
            }
            assert(found[found.len() - 1] == record);
        }
    }
}

proof fn lemma_found_count(stripes: Seq<LogStripe>, query: LogQueryModel)
    requires
        forall|s: int| 0 <= s < stripes.len() ==> (#[trigger] stripes[s]).well_formed(),
        stock_of_all(stripes, seq![query.partition]) <= usize::MAX,
        query.limit is Some,
    ensures
        db_page(stripes, query).len() <= usize::MAX,
{
    answers_are_asked_for(stripes, query);
}

proof fn lemma_partition_scan_fills(
    stripes: Seq<LogStripe>,
    request: ScanModel,
    partition: TopicPartition,
    cutoff: Option<u64>,
    hidden: Seq<SelectionModel>,
    emitted: nat,
    next_offset: Option<u64>,
    j: int,
    k: int,
)
    requires
        forall|s: int| 0 <= s < stripes.len() ==> (#[trigger] stripes[s]).well_formed(),
        forall|s: int| 0 <= s < stripes.len() ==> all_covered((#[trigger] stripes[s]).appends@),
        stock_of_all(stripes, seq![partition]) <= usize::MAX,
        lives_in(stripes, partition, j),
        0 <= k < visible(stripes[j], partition).len(),
        scan_wants(request, cutoff, visible(stripes[j], partition)[k]),
        stored_entry(visible(stripes[j], partition)[k].0) matches Ok(entry) && !is_deleted(
            hidden,
            entry,
        ),
        next_offset matches Some(next) ==> next <= visible(
            stripes[j],
            partition,
        )[k].0.reference.offset.0,
    ensures
        ({
            let outcome = partition_scan(
                stripes,
                request,
                partition,
                retained_start(request.start, cutoff),
                hidden,
                emitted,
                next_offset,
            );
            outcome.fault is None && outcome.emitted < scan_limit(request) ==> is_listed(
                outcome.batches,
                request.tenant,
                visible(stripes[j], partition)[k].0,
            )
        }),
    decreases offset_room(next_offset),
{
    let start = retained_start(request.start, cutoff);
    let limit = scan_limit(request);
    let most = scan_page_limit(limit, emitted);
    let found = db_page(stripes, scan_query_of(request, partition, start, next_offset, most));
    let record = visible(stripes[j], partition)[k].0;
    let outcome = partition_scan(
        stripes,
        request,
        partition,
        start,
        hidden,
        emitted,
        next_offset,
    );
    if outcome.fault is None && outcome.emitted < limit {
        if most > 0 {
            lemma_page_holds(stripes, request, partition, cutoff, next_offset, most, j, k);
            assert(found.len() > 0);
            lemma_rows_source(request.tenant, found, hidden);
            let rows = visible_rows(request.tenant, found, hidden)->Ok_0;
            let batches = if rows.len() > 0 {
                seq![rows]
            } else {
                Seq::<Seq<RowModel>>::empty()
            };
            if found.contains(record) {
                let i = choose|i: int| 0 <= i < found.len() && found[i] == record;
                let r = choose|r: int|
                    0 <= r < rows.len() && shows(#[trigger] rows[r], request.tenant, found[i]);
                assert(batches[0][r] == rows[r]);
                assert(is_listed(batches, request.tenant, record));
            }
            let last = found.last().reference.offset.0;
            let first = lemma_found_source(
                stripes,
                request,
                partition,
                cutoff,
                next_offset,
                most,
                found.len() - 1,
            );
            if emitted + rows.len() == limit || found.len() < most || last == u64::MAX
                || offset_room(Some((last + 1) as u64)) >= offset_room(next_offset) {
                assert(outcome.batches == batches);
            } else {
                let next = Some((last + 1) as u64);
                let rest = partition_scan(
                    stripes,
                    request,
                    partition,
                    start,
                    hidden,
                    emitted + rows.len(),
                    next,
                );
                if !found.contains(record) {
                    lemma_partition_scan_fills(
                        stripes,
                        request,
                        partition,
                        cutoff,
                        hidden,
                        emitted + rows.len(),
                        next,
                        j,
                        k,
                    );
                }
                assert(outcome.batches == batches + rest.batches);
                lemma_listed_in_part(batches, rest.batches, request.tenant, record);
            }
        }
    }
}

proof fn lemma_scan_fills(
    stripes: Seq<LogStripe>,
    request: ScanModel,
    partitions: Seq<TopicPartition>,
    cutoff: Option<u64>,
    hidden: Seq<SelectionModel>,
    count: int,
    p: int,
    j: int,
    k: int,
)
    requires
        forall|s: int| 0 <= s < stripes.len() ==> (#[trigger] stripes[s]).well_formed(),
        forall|s: int| 0 <= s < stripes.len() ==> all_covered((#[trigger] stripes[s]).appends@),
        stock_of_all(stripes, partitions) <= usize::MAX,
        0 <= p < count <= partitions.len(),
        lives_in(stripes, partitions[p], j),
        0 <= k < visible(stripes[j], partitions[p]).len(),
        scan_wants(request, cutoff, visible(stripes[j], partitions[p])[k]),
        stored_entry(visible(stripes[j], partitions[p])[k].0) matches Ok(entry) && !is_deleted(
            hidden,
            entry,
        ),
    ensures
        ({
            let outcome = partitions_scan(
                stripes,
                request,
                partitions,
                retained_start(request.start, cutoff),
                hidden,
                count,
            );
            outcome.fault is None && outcome.emitted < scan_limit(request) ==> is_listed(
                outcome.batches,
                request.tenant,
                visible(stripes[j], partitions[p])[k].0,
            )
        }),
    decreases count,
{
    let start = retained_start(request.start, cutoff);
    let at = count - 1;
    let record = visible(stripes[j], partitions[p])[k].0;
    let front = partitions_scan(stripes, request, partitions, start, hidden, at);
    lemma_scan_source(stripes, request, partitions, cutoff, hidden, at);
    lemma_stock_of_part(stripes, partitions, at);
    if front.fault is None {
        let rest = partition_scan(
            stripes,
            request,
            partitions[at],
            start,
            hidden,
            front.emitted,
            None,
        );
        lemma_partition_scan_source(
            stripes,
            request,
            partitions[at],
            cutoff,
            hidden,
            front.emitted,
            None,
        );
        if p == at {
            lemma_partition_scan_fills(
                stripes,
                request,
                partitions[at],
                cutoff,
                hidden,
                front.emitted,
                None,
                j,
                k,
            );
        } else {
            lemma_scan_fills(stripes, request, partitions, cutoff, hidden, at, p, j, k);
        }
        lemma_listed_in_part(front.batches, rest.batches, request.tenant, record);
    }
}

/// A scan of stored records that neither fails nor reaches its limit lists every record
/// that is to be scanned, where each partition lives in one stripe and the frames are
/// indexed in full.
pub proof fn wanted_rows_are_scanned(
    stripes: Seq<LogStripe>,
    partitions: Seq<TopicPartition>,
    request: ScanModel,
    deletes: Seq<DeleteModel>,
    cutoff: Option<u64>,
    p: int,
    j: int,
    k: int,
)
    requires
        forall|s: int| 0 <= s < stripes.len() ==> (#[trigger] stripes[s]).well_formed(),
        forall|s: int| 0 <= s < stripes.len() ==> all_covered((#[trigger] stripes[s]).appends@),
        stock_of_all(stripes, partitions) <= usize::MAX,
        0 <= p < partitions.len(),
        lives_in(stripes, partitions[p], j),
        0 <= k < visible(stripes[j], partitions[p]).len(),
        is_to_scan(request, deletes, cutoff, visible(stripes[j], partitions[p])[k]),
    ensures
        ({
            let outcome = scan_outcome_of(stripes, partitions, request, deletes, cutoff);
            outcome.fault is None && (request.limit matches Some(limit) ==> outcome.emitted < limit)
                && outcome.emitted < usize::MAX ==> is_listed(
                outcome.batches,
                request.tenant,
                visible(stripes[j], partitions[p])[k].0,
            )
        }),
{
    if scan_fault(request) is None && request.limit != Some(0usize) && deleted_selections(
        deletes,
    ) is Ok {
        let hidden = deleted_selections(deletes)->Ok_0;
        let entry = stored_entry(visible(stripes[j], partitions[p])[k].0)->Ok_0;
        deletions_cover_what_they_ask_for(deletes);
        assert(is_deleted(hidden, entry) == is_erased(deletes, entry));
        lemma_scan_fills(
            stripes,
            request,
            partitions,
            cutoff,
            hidden,
            partitions.len() as int,
            p,
            j,
            k,
        );
    }
}

/// What a scan of entries asks of an entry with terms: the inclusive start and the exclusive
/// end of its time range, each of its labels and metadata, and each of its terms whatever
/// their case.
pub open spec fn entry_is_scanned(
    request: ScanModel,
    entry: EntryModel,
    terms: Seq<Seq<char>>,
) -> bool {
    &&& (request.start matches Some(start) ==> start <= entry.timestamp)
    &&& (request.end matches Some(end) ==> 0 <= entry.timestamp < end)
    &&& forall|name: Seq<char>, value: Seq<char>| #[trigger]
        request.labels.contains((name, value)) ==> lookup(entry.labels, name) == Some(value)
    &&& forall|name: Seq<char>, value: Seq<char>| #[trigger]
        request.metadata.contains((name, value)) ==> lookup(entry.metadata, name) == Some(value)
    &&& forall|term: Seq<char>| #[trigger]
        request.terms.contains(term) ==> exists|i: int|
            0 <= i < terms.len() && normal_term(#[trigger] terms[i]) == normal_term(term)
}

/// Places of the first `count` entries that are scanned.
pub open spec fn scanned_places(
    request: ScanModel,
    entries: Seq<EntryModel>,
    terms: Seq<Seq<Seq<char>>>,
    count: int,
) -> Seq<int>
    decreases count,
{
    if count <= 0 {
        Seq::empty()
    } else if entry_is_scanned(request, entries[count - 1], terms[count - 1]) {
        scanned_places(request, entries, terms, count - 1).push(count - 1)
    } else {
        scanned_places(request, entries, terms, count - 1)
    }
}

proof fn lemma_entry_is_scanned(request: ScanModel, entry: EntryModel, terms: Seq<Seq<char>>)
    ensures
        scan_selects(request, entry, terms) == entry_is_scanned(request, entry, terms),
{
    lemma_fields_held(entry.labels, request.labels);
    lemma_fields_held(entry.metadata, request.metadata);
    let normal = normal_terms(terms);
    if scan_selects(request, entry, terms) {
        assert forall|term: Seq<char>| #[trigger] request.terms.contains(term) implies exists|i: int|
            0 <= i < terms.len() && normal_term(#[trigger] terms[i]) == normal_term(term) by {
            let k = choose|k: int| 0 <= k < request.terms.len() && request.terms[k] == term;
            assert(normal.contains(normal_term(request.terms[k])));
            let i = choose|i: int| 0 <= i < normal.len() && normal[i] == normal_term(term);
            assert(normal_term(terms[i]) == normal_term(term));
        }
    }
    if entry_is_scanned(request, entry, terms) {
        assert forall|k: int| 0 <= k < request.terms.len() implies normal.contains(
            normal_term(#[trigger] request.terms[k]),
        ) by {
            assert(request.terms.contains(request.terms[k]));
            let i = choose|i: int|
                0 <= i < terms.len() && normal_term(#[trigger] terms[i]) == normal_term(
                    request.terms[k],
                );
            assert(normal[i] == normal_term(request.terms[k]));
        }
    }
}

proof fn lemma_fields_held(labels: Pairs, fields: Pairs)
    ensures
        holds_fields(labels, fields) <==> forall|name: Seq<char>, value: Seq<char>| #[trigger]
            fields.contains((name, value)) ==> lookup(labels, name) == Some(value),
{
    if holds_fields(labels, fields) {
        assert forall|name: Seq<char>, value: Seq<char>| #[trigger]
            fields.contains((name, value)) implies lookup(labels, name) == Some(value) by {
            let i = choose|i: int| 0 <= i < fields.len() && fields[i] == (name, value);
            assert(fields[i].0 == name);
        }
    }
    if forall|name: Seq<char>, value: Seq<char>| #[trigger]
        fields.contains((name, value)) ==> lookup(labels, name) == Some(value) {
        assert forall|i: int| 0 <= i < fields.len() implies lookup(
            labels,
            (#[trigger] fields[i]).0,
        ) == Some(fields[i].1) by {
            assert(fields[i] == (fields[i].0, fields[i].1));
            assert(fields.contains((fields[i].0, fields[i].1)));
        }
    }
}

/// A scan of entries gives a row for each entry that it asks for, in their order, up to its
/// limit; a row holds the tenant, the entry and its number.
pub proof fn entries_are_scanned_in_order(
    request: ScanModel,
    entries: Seq<EntryModel>,
    terms: Seq<Seq<Seq<char>>>,
)
    requires
        entries.len() <= u64::MAX,
    ensures
        ({
            let places = scanned_places(request, entries, terms, entries.len() as int);
            let rows = scan_rows(request, entries, terms);
            &&& rows.len() == if request.limit is Some && request.limit->0 < places.len() {
                request.limit->0 as nat
            } else if usize::MAX < places.len() {
                usize::MAX as nat
            } else {
                places.len()
            }
            &&& forall|r: int|
                0 <= r < rows.len() ==> (#[trigger] rows[r]) == (RowModel {
                    tenant: request.tenant,
                    timestamp: entries[places[r]].timestamp,
                    partition: 0,
                    offset: places[r] as u64,
                    message: entries[places[r]].line,
                    labels: entries[places[r]].labels,
                    metadata: entries[places[r]].metadata,
                })
        }),
{
    lemma_scanned(request, entries, terms, entries.len() as int);
}

proof fn lemma_scanned(
    request: ScanModel,
    entries: Seq<EntryModel>,
    terms: Seq<Seq<Seq<char>>>,
    count: int,
)
    requires
        count <= entries.len(),
    ensures
        ({
            let places = scanned_places(request, entries, terms, count);
            let rows = selected_rows(request, entries, terms, count);
            &&& rows.len() == places.len()
            &&& forall|r: int|
                0 <= r < rows.len() ==> (#[trigger] rows[r]) == (RowModel {
                    tenant: request.tenant,
                    timestamp: entries[places[r]].timestamp,
                    partition: 0,
                    offset: places[r] as u64,
                    message: entries[places[r]].line,
                    labels: entries[places[r]].labels,
                    metadata: entries[places[r]].metadata,
                })
        }),
    decreases count,
{
    if count > 0 {
        lemma_scanned(request, entries, terms, count - 1);
        lemma_entry_is_scanned(request, entries[count - 1], terms[count - 1]);
    }
}

} // verus!
