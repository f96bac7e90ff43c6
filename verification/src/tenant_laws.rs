//! Laws of reading all entries of a tenant.
use vstd::multiset::Multiset;
use vstd::prelude::*;

use crate::api_error::ApiFault;
use crate::durable_query::{stored_entries, tenant_query_of, tenant_result, Accepted};
use crate::durable_store::stored_entry;
use crate::fanout_laws::selected_by_all;
use crate::first_laws::lemma_bag_adds;
use crate::frame_laws::{
    all_covered, lemma_selected_len, query_is_exact, selected, visible, Document,
};
use crate::log_query::{LogQueryModel, RecordModel};
use crate::log_service::{
    all_matches, partition_answers, partitions_answer, share_page, stripe_matches,
};
use crate::log_stripe::LogStripe;
use crate::loki_delete::{deleted_selections, kept_entries, DeleteModel};
use crate::loki_read::{by_time, by_time_sorts, time_keys};
use crate::loki_stats::SelectionModel;
use crate::native_fill_laws::{
    asks_alike, lemma_selected_are_shown, lemma_shown_bag, lemma_shown_concat, shown, shown_in,
    shown_in_all,
};
use crate::native_query::{NativeQueryDirection, QueryModel};
use crate::native_query_laws::is_wanted;
use crate::order::{arranged, lemma_order_exists, order_of, sorting_permutes};
use crate::record::TopicPartition;
use crate::store_laws::{asks_for, documents_keep_their_partition, stock, stock_of_all};
use crate::stripe_query::{ranks, shard_keys};

verus! {

broadcast use vstd::seq_lib::group_seq_properties;

/// A request for everything of a tenant.
pub open spec fn everything_of(tenant: Seq<char>) -> QueryModel {
    QueryModel {
        tenant,
        labels: Seq::empty(),
        terms: Seq::empty(),
        start: None,
        end: None,
        limit: 0,
        direction: NativeQueryDirection::OldestFirst,
    }
}

proof fn lemma_tenant_alike(tenant: Seq<char>, partition: TopicPartition, cutoff: Option<u64>)
    ensures
        asks_alike(tenant_query_of(tenant, partition, cutoff), everything_of(tenant), cutoff),
{
    let query = tenant_query_of(tenant, partition, cutoff);
    let request = everything_of(tenant);
    assert forall|document: Document| #[trigger] asks_for(query, document) == (
    document.0.reference.topic_partition == query.partition && is_wanted(
        request,
        cutoff,
        document,
    )) by {
        let record = document.0;
        if asks_for(query, document) {
            assert(query.fields[0] == ("resource.loki.tenant"@, tenant));
            assert(query.fields.contains(query.fields[0]));
        }
        if record.reference.topic_partition == partition && is_wanted(request, cutoff, document) {
            assert forall|field: (Seq<char>, Seq<char>)| #[trigger]
                query.fields.contains(field) implies record.fields.contains(field) by {
                let i = choose|i: int| 0 <= i < query.fields.len() && query.fields[i] == field;
                assert(i == 0);
            }
        }
    }
}

/// The queries for everything of a tenant.
pub open spec fn tenant_queries(
    tenant: Seq<char>,
    partitions: Seq<TopicPartition>,
    cutoff: Option<u64>,
) -> Seq<LogQueryModel> {
    partitions.map_values(
        |partition: TopicPartition| tenant_query_of(tenant, partition, cutoff),
    )
}

proof fn lemma_answers_bag(
    stripe: LogStripe,
    tenant: Seq<char>,
    partitions: Seq<TopicPartition>,
    cutoff: Option<u64>,
)
    requires
        stripe.well_formed(),
        all_covered(stripe.appends@),
        stock(stripe, partitions) <= usize::MAX,
    ensures
        ({
            let queries = tenant_queries(tenant, partitions, cutoff);
            &&& partition_answers(stripe, queries).to_multiset() == selected_by_all(
                stripe,
                queries,
            ).to_multiset()
            &&& partition_answers(stripe, queries).len() <= stock(stripe, partitions)
        }),
    decreases partitions.len(),
{
    if partitions.len() > 0 {
        let early = partitions.drop_last();
        let partition = partitions.last();
        let queries = tenant_queries(tenant, partitions, cutoff);
        let query = tenant_query_of(tenant, partition, cutoff);
        let documents = visible(stripe, partition);
        let found = selected(documents, query);
        assert(queries.drop_last() =~= tenant_queries(tenant, early, cutoff));
        assert(queries.last() == query);
        lemma_answers_bag(stripe, tenant, early, cutoff);
        query_is_exact(stripe, query);
        lemma_selected_len(documents, query);
        sorting_permutes(found, ranks(query, found));
        let answer = crate::frame_query::stripe_answer(stripe, query);
        lemma_bag_adds(partition_answers(stripe, queries.drop_last()), answer);
        lemma_bag_adds(selected_by_all(stripe, queries.drop_last()), found);
    }
}

proof fn lemma_tenant_shows(
    stripe: LogStripe,
    tenant: Seq<char>,
    partitions: Seq<TopicPartition>,
    deletes: Seq<DeleteModel>,
    hidden: Seq<SelectionModel>,
    cutoff: Option<u64>,
)
    requires
        stripe.well_formed(),
        deleted_selections(deletes) == Ok::<_, ApiFault>(hidden),
    ensures
        shown(
            selected_by_all(stripe, tenant_queries(tenant, partitions, cutoff)),
            hidden,
        ).to_multiset() == shown_in(stripe, partitions, everything_of(tenant), deletes, cutoff),
    decreases partitions.len(),
{
    broadcast use vstd::seq_lib::group_to_multiset_ensures;

    let queries = tenant_queries(tenant, partitions, cutoff);
    if partitions.len() == 0 {
        assert(shown(selected_by_all(stripe, queries), hidden) =~= Seq::<Accepted>::empty());
        assert(Seq::<Accepted>::empty().to_multiset() =~= Multiset::<Accepted>::empty());
    } else {
        let early = partitions.drop_last();
        let partition = partitions.last();
        let query = queries.last();
        let documents = visible(stripe, partition);
        assert(query == tenant_query_of(tenant, partition, cutoff));
        assert(queries.drop_last() =~= tenant_queries(tenant, early, cutoff));
        lemma_tenant_shows(stripe, tenant, early, deletes, hidden, cutoff);
        lemma_tenant_alike(tenant, partition, cutoff);
        assert forall|k: int| 0 <= k < documents.len() implies (
        #[trigger] documents[k]).0.reference.topic_partition == query.partition by {
            documents_keep_their_partition(stripe, partition, k);
        }
        lemma_selected_are_shown(
            documents,
            query,
            everything_of(tenant),
            deletes,
            hidden,
            cutoff,
        );
        let front = selected_by_all(stripe, queries.drop_last());
        let more = selected(documents, query);
        lemma_shown_concat(front, more, hidden);
        lemma_bag_adds(shown(front, hidden), shown(more, hidden));
    }
}

proof fn lemma_matches_show(
    stripes: Seq<LogStripe>,
    tenant: Seq<char>,
    partitions: Seq<TopicPartition>,
    deletes: Seq<DeleteModel>,
    hidden: Seq<SelectionModel>,
    cutoff: Option<u64>,
)
    requires
        forall|i: int| 0 <= i < stripes.len() ==> (#[trigger] stripes[i]).well_formed(),
        forall|i: int| 0 <= i < stripes.len() ==> all_covered((#[trigger] stripes[i]).appends@),
        stock_of_all(stripes, partitions) <= usize::MAX,
        deleted_selections(deletes) == Ok::<_, ApiFault>(hidden),
        partitions.len() > 0,
    ensures
        ({
            let records = all_matches(stripes, tenant_queries(tenant, partitions, cutoff));
            &&& shown(records, hidden).to_multiset() == shown_in_all(
                stripes,
                partitions,
                everything_of(tenant),
                deletes,
                cutoff,
            )
            &&& records.len() <= stock_of_all(stripes, partitions)
        }),
    decreases stripes.len(),
{
    broadcast use vstd::seq_lib::group_to_multiset_ensures;

    let queries = tenant_queries(tenant, partitions, cutoff);
    assert(queries[0] == tenant_query_of(tenant, partitions[0], cutoff));
    assert(!share_page(queries));
    if stripes.len() == 0 {
        assert(shown(all_matches(stripes, queries), hidden) =~= Seq::<Accepted>::empty());
        assert(Seq::<Accepted>::empty().to_multiset() =~= Multiset::<Accepted>::empty());
    } else {
        let early = stripes.drop_last();
        let last = stripes.last();
        assert(stripes[stripes.len() - 1] == last);
        assert forall|i: int| 0 <= i < early.len() implies (#[trigger] early[i]).well_formed()
            && all_covered(early[i].appends@) by {
            assert(early[i] == stripes[i]);
        }
        lemma_matches_show(early, tenant, partitions, deletes, hidden, cutoff);
        lemma_answers_bag(last, tenant, partitions, cutoff);
        lemma_tenant_shows(last, tenant, partitions, deletes, hidden, cutoff);
        let front = all_matches(early, queries);
        let more = partition_answers(last, queries);
        assert(stripe_matches(last, queries) == more);
        lemma_shown_bag(more, selected_by_all(last, queries), hidden);
        lemma_shown_concat(front, more, hidden);
        lemma_bag_adds(shown(front, hidden), shown(more, hidden));
    }
}

proof fn lemma_kept(records: Seq<RecordModel>, hidden: Seq<SelectionModel>)
    requires
        stored_entries(records) is Ok,
    ensures
        kept_entries(stored_entries(records)->Ok_0, hidden) == shown(records, hidden).map_values(
            |item: Accepted| item.0,
        ),
    decreases records.len(),
{
    let first = |item: Accepted| item.0;
    if records.len() == 0 {
        assert(kept_entries(stored_entries(records)->Ok_0, hidden) =~= shown(
            records,
            hidden,
        ).map_values(first));
    } else {
        let early = records.drop_last();
        let entries = stored_entries(records)->Ok_0;
        let front = stored_entries(early)->Ok_0;
        lemma_kept(early, hidden);
        assert(entries.drop_last() =~= front);
        assert(entries.last() == stored_entry(records.last())->Ok_0);
        assert(kept_entries(entries, hidden) =~= shown(records, hidden).map_values(first));
    }
}

/// Reading a tenant gives the entries of all its stored records that are not older than the
/// retention cutoff, but for those that a received deletion covers, each once and in time
/// order.
pub proof fn tenant_reads_are_complete(
    stripes: Seq<LogStripe>,
    partitions: Seq<TopicPartition>,
    tenant: Seq<char>,
    deletes: Seq<DeleteModel>,
    cutoff: Option<u64>,
)
    requires
        forall|i: int| 0 <= i < stripes.len() ==> (#[trigger] stripes[i]).well_formed(),
        forall|i: int| 0 <= i < stripes.len() ==> all_covered((#[trigger] stripes[i]).appends@),
        stock_of_all(stripes, partitions) <= usize::MAX,
        partitions.len() > 0,
    ensures
        tenant_result(stripes, partitions, tenant, deletes, cutoff) matches Ok(entries) ==> {
            &&& exists|items: Seq<Accepted>|
                #![trigger items.to_multiset()]
                items.to_multiset() == shown_in_all(
                    stripes,
                    partitions,
                    everything_of(tenant),
                    deletes,
                    cutoff,
                ) && entries == items.map_values(|item: Accepted| item.0)
            &&& forall|i: int, j: int|
                0 <= i < j < entries.len() ==> (#[trigger] entries[i]).timestamp <= (
                #[trigger] entries[j]).timestamp
        },
{
    let result = tenant_result(stripes, partitions, tenant, deletes, cutoff);
    let queries = tenant_queries(tenant, partitions, cutoff);
    if result is Ok {
        let hidden = deleted_selections(deletes)->Ok_0;
        let all = all_matches(stripes, queries);
        let records = partitions_answer(stripes, queries);
        let first = |item: Accepted| item.0;
        lemma_matches_show(stripes, tenant, partitions, deletes, hidden, cutoff);
        assert(queries[0] == tenant_query_of(tenant, partitions[0], cutoff));
        sorting_permutes(all, shard_keys(all));
        let listed = arranged(all, order_of(shard_keys(all)));
        sorting_permutes(listed, ranks(queries[0], listed));
        assert(queries =~= partitions.map_values(
            |partition: TopicPartition| tenant_query_of(tenant, partition, cutoff),
        ));
        lemma_shown_bag(records, all, hidden);
        lemma_kept(records, hidden);
        let items = shown(records, hidden);
        let kept = kept_entries(stored_entries(records)->Ok_0, hidden);
        let keys = time_keys(kept);
        let order = order_of(keys);
        crate::native_fill_laws::lemma_shown_source(records, hidden);
        by_time_sorts(kept);
        lemma_order_exists(keys);
        sorting_permutes(items, keys);
        let sorted = arranged(items, order);
        assert(sorted.map_values(first) =~= by_time(kept));
        assert(sorted.to_multiset() == shown_in_all(
            stripes,
            partitions,
            everything_of(tenant),
            deletes,
            cutoff,
        ));
    }
}

} // verus!
