//! Laws of the catalog of deletion requests and of what deletions leave.
use vstd::prelude::*;

use crate::api_error::ApiFault;
use crate::loki_delete::{
    delete_plan_of, deleted_selections, is_deleted, kept_entries, of_tenant, other_requests,
    overlapping_requests, request_id_of, request_place, tenant_requests, visible_entries,
    with_request, without_request, CatalogModel, DeleteModel, DeleteParamsModel,
    TenantDeleteModel,
};
use crate::loki_query::parse_query_text;
use crate::loki_stats::SelectionModel;
use crate::loki_time::{delete_timestamp_of, TimeModel};
use crate::native_query_laws::{deletions_cover_what_they_ask_for, is_erased};
use crate::push_laws::{integers_are_read_as_written, writes};
use crate::record::EntryModel;

verus! {

broadcast use vstd::seq_lib::group_seq_properties;

/// A list of requests of a tenant holds what one list holds and then what the other does.
pub proof fn tenant_lists_join(
    left: Seq<TenantDeleteModel>,
    right: Seq<TenantDeleteModel>,
    tenant: Seq<char>,
)
    ensures
        tenant_requests(left + right, tenant) == tenant_requests(left, tenant) + tenant_requests(
            right,
            tenant,
        ),
    decreases right.len(),
{
    if right.len() == 0 {
        assert(left + right =~= left);
        assert(tenant_requests(left, tenant) + tenant_requests(right, tenant) =~= tenant_requests(
            left,
            tenant,
        ));
    } else {
        tenant_lists_join(left, right.drop_last(), tenant);
        assert((left + right).drop_last() =~= left + right.drop_last());
        assert((left + right).last() == right.last());
        assert(tenant_requests(left + right, tenant) =~= tenant_requests(left, tenant)
            + tenant_requests(right, tenant));
    }
}

/// A new request stands behind those of its tenant as received, and no other tenant sees it.
pub proof fn created_requests_are_listed(
    catalog: CatalogModel,
    tenant: Seq<char>,
    start: i64,
    end: i64,
    query: Seq<char>,
    created_at: i64,
    other: Seq<char>,
)
    ensures
        ({
            let after = with_request(catalog, tenant, start, end, query, created_at);
            tenant_requests(after.requests, other) == if other == tenant {
                tenant_requests(catalog.requests, tenant).push(
                    DeleteModel {
                        id: request_id_of(catalog.next_number),
                        start,
                        end,
                        query,
                        status: "received"@,
                        created_at,
                    },
                )
            } else {
                tenant_requests(catalog.requests, other)
            }
        }),
        catalog.next_number < u64::MAX ==> with_request(
            catalog,
            tenant,
            start,
            end,
            query,
            created_at,
        ).next_number == catalog.next_number + 1,
{
    let after = with_request(catalog, tenant, start, end, query, created_at);
    assert(after.requests.drop_last() =~= catalog.requests);
}

proof fn lemma_request_place(
    requests: Seq<TenantDeleteModel>,
    tenant: Seq<char>,
    id: Seq<char>,
    from: int,
)
    requires
        0 <= from <= requests.len(),
    ensures
        from <= request_place(requests, tenant, id, from) <= requests.len(),
        request_place(requests, tenant, id, from) < requests.len() ==> requests[request_place(
            requests,
            tenant,
            id,
            from,
        )].tenant == tenant && requests[request_place(requests, tenant, id, from)].request.id == id,
        forall|i: int|
            from <= i < request_place(requests, tenant, id, from) ==> (
            #[trigger] requests[i]).tenant != tenant || requests[i].request.id != id,
    decreases requests.len() - from,
{
    if from < requests.len() && !(requests[from].tenant == tenant && requests[from].request.id
        == id) {
        lemma_request_place(requests, tenant, id, from + 1);
    }
}

/// Cancelling takes out the first request of the tenant with the identifier, and nothing of
/// another tenant; without such a request nothing changes.
pub proof fn cancelling_removes_one_request(
    catalog: CatalogModel,
    tenant: Seq<char>,
    id: Seq<char>,
    other: Seq<char>,
)
    ensures
        ({
            let after = without_request(catalog, tenant, id);
            let before = tenant_requests(catalog.requests, other);
            let left = tenant_requests(after.requests, other);
            &&& other != tenant ==> left == before
            &&& (forall|i: int|
                0 <= i < catalog.requests.len() ==> (#[trigger] catalog.requests[i]).tenant
                    != tenant || catalog.requests[i].request.id != id) ==> after == catalog
            &&& (exists|i: int|
                0 <= i < catalog.requests.len() && (#[trigger] catalog.requests[i]).tenant
                    == tenant && catalog.requests[i].request.id == id) && other == tenant
                ==> exists|k: int|
                0 <= k < before.len() && (#[trigger] before[k]).id == id && left == before.remove(
                    k,
                ) && forall|i: int| 0 <= i < k ==> (#[trigger] before[i]).id != id
        }),
{
    let requests = catalog.requests;
    let at = request_place(requests, tenant, id, 0);
    lemma_request_place(requests, tenant, id, 0);
    if at < requests.len() {
        let early = requests.subrange(0, at);
        let late = requests.subrange(at + 1, requests.len() as int);
        let one = seq![requests[at]];
        assert(requests =~= early + (one + late));
        assert(requests.remove(at) =~= early + late);
        tenant_lists_join(early, one + late, other);
        tenant_lists_join(one, late, other);
        tenant_lists_join(early, late, other);
        assert(one.drop_last() =~= Seq::<TenantDeleteModel>::empty());
        assert(one.last() == requests[at]);
        assert(tenant_requests(one.drop_last(), other) =~= Seq::<DeleteModel>::empty());
        let first = tenant_requests(early, other);
        let rest = tenant_requests(late, other);
        let before = tenant_requests(requests, other);
        let after = without_request(catalog, tenant, id);
        if other == tenant {
            assert(tenant_requests(one, other) =~= seq![requests[at].request]);
            let k = first.len() as int;
            assert(before[k] == requests[at].request);
            assert(before.remove(k) =~= first + rest);
            lemma_listed_from(early, tenant, id);
            assert forall|i: int| 0 <= i < k implies (#[trigger] before[i]).id != id by {
                assert(before[i] == first[i]);
            }
        } else {
            assert(tenant_requests(one, other) =~= Seq::<DeleteModel>::empty());
            assert(before =~= first + rest);
        }
    }
}

proof fn lemma_listed_from(requests: Seq<TenantDeleteModel>, tenant: Seq<char>, id: Seq<char>)
    requires
        forall|i: int|
            0 <= i < requests.len() ==> (#[trigger] requests[i]).tenant != tenant
                || requests[i].request.id != id,
    ensures
        forall|k: int|
            0 <= k < tenant_requests(requests, tenant).len() ==> (#[trigger] tenant_requests(
                requests,
                tenant,
            )[k]).id != id,
    decreases requests.len(),
{
    if requests.len() > 0 {
        let early = requests.drop_last();
        assert forall|i: int| 0 <= i < early.len() implies (#[trigger] early[i]).tenant != tenant
            || early[i].request.id != id by {
            assert(early[i] == requests[i]);
        }
        lemma_listed_from(early, tenant, id);
        assert(requests[requests.len() - 1] == requests.last());
        let all = tenant_requests(requests, tenant);
        let front = tenant_requests(early, tenant);
        assert forall|k: int| 0 <= k < all.len() implies (#[trigger] all[k]).id != id by {
            if k < front.len() {
                assert(all[k] == front[k]);
            }
        }
    }
}

/// Replacing the requests of a tenant leaves it those, and every other tenant its own.
pub proof fn replacing_changes_one_tenant(
    requests: Seq<TenantDeleteModel>,
    tenant: Seq<char>,
    given: Seq<DeleteModel>,
    other: Seq<char>,
)
    ensures
        tenant_requests(other_requests(requests, tenant) + of_tenant(given, tenant), other) == if other
            == tenant {
            given
        } else {
            tenant_requests(requests, other)
        },
{
    let kept = other_requests(requests, tenant);
    let new = of_tenant(given, tenant);
    tenant_lists_join(kept, new, other);
    lemma_kept_requests(requests, tenant, other);
    lemma_given_requests(given, tenant, other);
    if other == tenant {
        assert(Seq::<DeleteModel>::empty() + given =~= given);
    } else {
        assert(tenant_requests(requests, other) + Seq::<DeleteModel>::empty() =~= tenant_requests(
            requests,
            other,
        ));
    }
}

proof fn lemma_kept_requests(
    requests: Seq<TenantDeleteModel>,
    tenant: Seq<char>,
    other: Seq<char>,
)
    ensures
        tenant_requests(other_requests(requests, tenant), other) == if other == tenant {
            Seq::empty()
        } else {
            tenant_requests(requests, other)
        },
    decreases requests.len(),
{
    if requests.len() > 0 {
        let early = requests.drop_last();
        lemma_kept_requests(early, tenant, other);
        if requests.last().tenant != tenant {
            let kept = other_requests(requests, tenant);
            assert(kept.drop_last() =~= other_requests(early, tenant));
        }
    }
}

proof fn lemma_given_requests(given: Seq<DeleteModel>, tenant: Seq<char>, other: Seq<char>)
    ensures
        tenant_requests(of_tenant(given, tenant), other) == if other == tenant {
            given
        } else {
            Seq::empty()
        },
    decreases given.len(),
{
    let all = of_tenant(given, tenant);
    if given.len() == 0 {
        assert(tenant_requests(all, other) =~= Seq::<DeleteModel>::empty());
        assert(given =~= Seq::<DeleteModel>::empty());
    } else {
        lemma_given_requests(given.drop_last(), tenant, other);
        assert(all.drop_last() =~= of_tenant(given.drop_last(), tenant));
        assert(all.last().request == given.last());
        if other == tenant {
            assert(given =~= given.drop_last().push(given.last()));
        }
    }
}

/// A list over a span holds, in their order, the requests that neither end before it nor
/// start behind it; without a span it holds all.
pub proof fn lists_hold_overlapping_requests(
    requests: Seq<DeleteModel>,
    range: Option<(i64, i64)>,
)
    ensures
        overlapping_requests(requests, range) == requests.filter(
            |request: DeleteModel|
                range matches Some((start, end)) ==> !(request.end < start || end < request.start),
        ),
    decreases requests.len(),
{
    reveal(Seq::filter);
    if requests.len() > 0 {
        lists_hold_overlapping_requests(requests.drop_last(), range);
    }
}

/// Deletions leave, in their order, the entries that no received request covers, and nothing
/// else.
pub proof fn deletions_leave_the_rest(entries: Seq<EntryModel>, deletes: Seq<DeleteModel>)
    ensures
        visible_entries(entries, deletes) matches Ok(left) ==> left == entries.filter(
            |entry: EntryModel| !is_erased(deletes, entry),
        ),
        visible_entries(entries, deletes) is Ok <==> forall|i: int|
            0 <= i < deletes.len() && (#[trigger] deletes[i]).status == "received"@
                ==> parse_query_text(deletes[i].query) is Ok,
{
    deletions_cover_what_they_ask_for(deletes);
    if deleted_selections(deletes) is Ok {
        lemma_left(entries, deletes, deleted_selections(deletes)->Ok_0);
    }
}

proof fn lemma_left(
    entries: Seq<EntryModel>,
    deletes: Seq<DeleteModel>,
    hidden: Seq<SelectionModel>,
)
    requires
        forall|entry: EntryModel| #[trigger]
            is_deleted(hidden, entry) == is_erased(deletes, entry),
    ensures
        kept_entries(entries, hidden) == entries.filter(
            |entry: EntryModel| !is_erased(deletes, entry),
        ),
    decreases entries.len(),
{
    reveal(Seq::filter);
    if entries.len() > 0 {
        lemma_left(entries.drop_last(), deletes, hidden);
        assert(is_deleted(hidden, entries.last()) == is_erased(deletes, entries.last()));
    }
}

/// A deletion needs a query that parses and a start; it ends now where no end is given.
pub proof fn deletions_are_planned_from_their_parameters(params: DeleteParamsModel, now: i64)
    ensures
        delete_plan_of(params, now) matches Ok((query, start, end)) ==> {
            &&& params.query == Some(query)
            &&& parse_query_text(query) is Ok
            &&& params.start matches Some(first) && delete_timestamp_of(first) == Ok::<
                _,
                ApiFault,
            >(start)
            &&& params.end is None ==> end == now
            &&& params.end matches Some(last) ==> delete_timestamp_of(last) == Ok::<_, ApiFault>(
                end,
            )
        },
        params.query is None || params.start is None ==> delete_plan_of(params, now) is Err,
        params.query matches Some(query) ==> (params.start matches Some(start) ==> (
        parse_query_text(query) is Ok && delete_timestamp_of(start) is Ok && (params.end matches Some(
            end,
        ) ==> delete_timestamp_of(end) is Ok) ==> delete_plan_of(params, now) is Ok)),
{
}

/// A whole number in a deletion is a number of seconds.
pub proof fn deletion_times_are_seconds(time: TimeModel, seconds: int)
    requires
        writes(time.text, seconds),
        i64::MIN <= seconds <= i64::MAX,
    ensures
        if i64::MIN <= seconds * 1_000_000_000 <= i64::MAX {
            delete_timestamp_of(time) == Ok::<_, ApiFault>((seconds * 1_000_000_000) as i64)
        } else {
            delete_timestamp_of(time) is Err
        },
{
    integers_are_read_as_written(time.text, i64::MIN as int, i64::MAX as int, seconds);
}

} // verus!
