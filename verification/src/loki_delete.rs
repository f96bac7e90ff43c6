//! Logical deletion, and the in-memory store of entries by tenant.
use vstd::prelude::*;

use crate::api_error::{bad, same_outcome, ApiFault, ApiStatus, LokiApiError};
use crate::codec::{push_char, same_text};
use crate::loki_query::{parse_log_query, parse_query_text};
use crate::loki_read::{by_time, by_time_sorts, optional_text, query_missing, sort_by_time};
use crate::loki_stats::{selection_holds, Selection, SelectionModel};
use crate::loki_time::{
    delete_timestamp_of, parse_delete_timestamp, time_option, TimeModel, TimeText,
};
use crate::otlp::{hex_char, hex_digit};
use crate::record::{entries_view, EntryModel, LokiEntry};

verus! {

broadcast use vstd::seq_lib::group_seq_properties;

/// Value of a deletion request.
#[verifier::ext_equal]
pub struct DeleteModel {
    /// Identifier.
    pub id: Seq<char>,
    /// First timestamp.
    pub start: i64,
    /// Last timestamp.
    pub end: i64,
    /// LogQL query.
    pub query: Seq<char>,
    /// State; entries are hidden while it is received.
    pub status: Seq<char>,
    /// Time of the request.
    pub created_at: i64,
}

/// Request to hide the entries that a query selects.
#[derive(Debug, PartialEq, Eq)]
pub struct DeleteRequest {
    /// Identifier.
    pub request_id: String,
    /// First timestamp.
    pub start_time: i64,
    /// Last timestamp.
    pub end_time: i64,
    /// LogQL query.
    pub query: String,
    /// State; entries are hidden while it is received.
    pub status: String,
    /// Time of the request.
    pub created_at: i64,
}

impl View for DeleteRequest {
    type V = DeleteModel;

    open spec fn view(&self) -> DeleteModel {
        DeleteModel {
            id: self.request_id@,
            start: self.start_time,
            end: self.end_time,
            query: self.query@,
            status: self.status@,
            created_at: self.created_at,
        }
    }
}

impl Clone for DeleteRequest {
    fn clone(&self) -> (copy: Self)
        ensures
            copy@ == self@,
    {
        DeleteRequest {
            request_id: self.request_id.clone(),
            start_time: self.start_time,
            end_time: self.end_time,
            query: self.query.clone(),
            status: self.status.clone(),
            created_at: self.created_at,
        }
    }
}

/// Values of deletion requests.
pub open spec fn deletes_view(requests: Seq<DeleteRequest>) -> Seq<DeleteModel> {
    requests.map_values(|request: DeleteRequest| request@)
}

/// Selections of the deletion requests that are received.
pub open spec fn deleted_selections(requests: Seq<DeleteModel>) -> Result<
    Seq<SelectionModel>,
    ApiFault,
>
    decreases requests.len(),
{
    if requests.len() == 0 {
        Ok(Seq::empty())
    } else {
        match deleted_selections(requests.drop_last()) {
            Err(fault) => Err(fault),
            Ok(front) => {
                let last = requests.last();
                if last.status != "received"@ {
                    Ok(front)
                } else {
                    match parse_query_text(last.query) {
                        Err(fault) => Err(fault),
                        Ok(selector) => Ok(
                            front.push(
                                SelectionModel { selector, start: last.start, end: last.end },
                            ),
                        ),
                    }
                }
            },
        }
    }
}

proof fn lemma_deleted_fault(requests: Seq<DeleteModel>, n: int)
    requires
        0 <= n <= requests.len(),
        deleted_selections(requests.subrange(0, n)) is Err,
    ensures
        deleted_selections(requests) == deleted_selections(requests.subrange(0, n)),
    decreases requests.len(),
{
    if n < requests.len() {
        assert(requests.drop_last().subrange(0, n) =~= requests.subrange(0, n));
        lemma_deleted_fault(requests.drop_last(), n);
    } else {
        assert(requests.subrange(0, n) =~= requests);
    }
}

/// Values of selections.
pub open spec fn selections_view(selections: Seq<Selection>) -> Seq<SelectionModel> {
    selections.map_values(|selection: Selection| selection@)
}

/// Whether one of several selections holds an entry.
pub open spec fn is_deleted(selections: Seq<SelectionModel>, entry: EntryModel) -> bool {
    exists|i: int| 0 <= i < selections.len() && selection_holds(#[trigger] selections[i], entry)
}

/// Compiled deletion requests.
#[derive(Debug)]
pub struct LogicalDeleteFilter {
    /// What they select.
    pub compiled: Vec<Selection>,
}

impl View for LogicalDeleteFilter {
    type V = Seq<SelectionModel>;

    open spec fn view(&self) -> Seq<SelectionModel> {
        selections_view(self.compiled@)
    }
}

impl LogicalDeleteFilter {
    /// All compiled patterns are those of their values.
    pub open spec fn well_formed(self) -> bool {
        forall|i: int|
            0 <= i < self.compiled@.len() ==> (#[trigger] self.compiled@[i]).selector.well_formed()
    }

    /// Compiles the deletion requests that are received.
    pub fn compile(requests: &Vec<DeleteRequest>) -> (result: Result<Self, LokiApiError>)
        ensures
            same_outcome(result, deleted_selections(deletes_view(requests@))),
            result matches Ok(filter) ==> filter.well_formed(),
    {
        let ghost models = deletes_view(requests@);
        let mut compiled: Vec<Selection> = Vec::new();
        let mut index: usize = 0;
        proof {
            assert(models.subrange(0, 0) =~= Seq::<DeleteModel>::empty());
            assert(selections_view(compiled@) =~= Seq::<SelectionModel>::empty());
        }
        while index < requests.len()
            invariant
                index <= requests@.len(),
                models == deletes_view(requests@),
                forall|i: int|
                    0 <= i < compiled@.len() ==> (#[trigger] compiled@[i]).selector.well_formed(),
                deleted_selections(models.subrange(0, index as int)) == Ok::<_, ApiFault>(
                    selections_view(compiled@),
                ),
            decreases requests@.len() - index,
        {
            let request = &requests[index];
            proof {
                let part = models.subrange(0, index + 1);
                assert(part.drop_last() =~= models.subrange(0, index as int));
                assert(part.last() == request@);
            }
            if same_text(&request.status, "received") {
                match parse_log_query(&request.query) {
                    Ok(selector) => {
                        let selection = Selection {
                            selector,
                            start: request.start_time,
                            end: request.end_time,
                        };
                        proof {
                            assert(selections_view(compiled@.push(selection))
                                =~= selections_view(compiled@).push(selection@));
                        }
                        compiled.push(selection);
                    },
                    Err(error) => {
                        proof {
                            lemma_deleted_fault(models, index + 1);
                        }
                        return Err(error);
                    },
                }
            }
            index = index + 1;
        }
        proof {
            assert(models.subrange(0, index as int) =~= models);
        }
        Ok(LogicalDeleteFilter { compiled })
    }

    /// Whether nothing is hidden.
    pub fn is_empty(&self) -> (empty: bool)
        ensures
            empty == (self@.len() == 0),
    {
        self.compiled.len() == 0
    }

    /// Whether an entry is hidden.
    pub fn matches(&self, entry: &LokiEntry) -> (hidden: bool)
        requires
            self.well_formed(),
        ensures
            hidden == is_deleted(self@, entry@),
    {
        let mut index: usize = 0;
        while index < self.compiled.len()
            invariant
                self.well_formed(),
                index <= self.compiled@.len(),
                forall|i: int|
                    0 <= i < index ==> !selection_holds(#[trigger] self@[i], entry@),
            decreases self.compiled@.len() - index,
        {
            proof {
                assert(self@[index as int] == self.compiled@[index as int]@);
            }
            if self.compiled[index].holds(entry) {
                return true;
            }
            index = index + 1;
        }
        false
    }
}

/// Entries that no selection hides, in their order.
pub open spec fn kept_entries(entries: Seq<EntryModel>, selections: Seq<SelectionModel>) -> Seq<
    EntryModel,
>
    decreases entries.len(),
{
    if entries.len() == 0 {
        Seq::empty()
    } else {
        let front = kept_entries(entries.drop_last(), selections);
        if is_deleted(selections, entries.last()) {
            front
        } else {
            front.push(entries.last())
        }
    }
}

/// Entries that deletion requests leave visible.
pub open spec fn visible_entries(entries: Seq<EntryModel>, requests: Seq<DeleteModel>) -> Result<
    Seq<EntryModel>,
    ApiFault,
> {
    match deleted_selections(requests) {
        Err(fault) => Err(fault),
        Ok(selections) => Ok(kept_entries(entries, selections)),
    }
}

/// Entries that a filter leaves visible.
pub fn keep_visible(entries: &Vec<LokiEntry>, filter: &LogicalDeleteFilter) -> (kept: Vec<LokiEntry>)
    requires
        filter.well_formed(),
    ensures
        entries_view(kept@) == kept_entries(entries_view(entries@), filter@),
{
    let ghost models = entries_view(entries@);
    let mut kept: Vec<LokiEntry> = Vec::new();
    let mut index: usize = 0;
    proof {
        assert(entries_view(kept@) =~= kept_entries(models.subrange(0, 0), filter@));
    }
    while index < entries.len()
        invariant
            filter.well_formed(),
            index <= entries@.len(),
            models == entries_view(entries@),
            entries_view(kept@) == kept_entries(models.subrange(0, index as int), filter@),
        decreases entries@.len() - index,
    {
        proof {
            let part = models.subrange(0, index + 1);
            assert(part.drop_last() =~= models.subrange(0, index as int));
            assert(part.last() == entries@[index as int]@);
        }
        if !filter.matches(&entries[index]) {
            let copy = entries[index].clone();
            proof {
                assert(entries_view(kept@.push(copy)) =~= entries_view(kept@).push(copy@));
            }
            kept.push(copy);
        }
        index = index + 1;
    }
    proof {
        assert(models.subrange(0, index as int) =~= models);
    }
    kept
}

/// Hides the entries that deletion requests select.
pub fn apply_logical_deletes(entries: &Vec<LokiEntry>, requests: &Vec<DeleteRequest>) -> (result:
    Result<Vec<LokiEntry>, LokiApiError>)
    ensures
        match (result, visible_entries(entries_view(entries@), deletes_view(requests@))) {
            (Ok(kept), Ok(models)) => entries_view(kept@) == models,
            (Err(error), Err(fault)) => error@ == fault,
            _ => false,
        },
{
    match LogicalDeleteFilter::compile(requests) {
        Ok(filter) => Ok(keep_visible(entries, &filter)),
        Err(error) => Err(error),
    }
}

/// An entry is visible exactly if it is stored and no deletion request selects it.
pub proof fn deletes_hide_exactly_matches(
    entries: Seq<EntryModel>,
    selections: Seq<SelectionModel>,
    entry: EntryModel,
)
    ensures
        kept_entries(entries, selections).contains(entry) <==> entries.contains(entry)
            && !is_deleted(selections, entry),
    decreases entries.len(),
{
    if entries.len() > 0 {
        let front = entries.drop_last();
        let last = entries.last();
        let kept = kept_entries(front, selections);
        deletes_hide_exactly_matches(front, selections, entry);
        assert(entries =~= front.push(last));
        assert(entries.contains(entry) <==> front.contains(entry) || entry == last) by {
            if front.contains(entry) {
                let k = choose|k: int| 0 <= k < front.len() && front[k] == entry;
                assert(entries[k] == entry);
            }
            if entry == last {
                assert(entries[entries.len() - 1] == entry);
            }
        }
        assert(kept.push(last).contains(entry) <==> kept.contains(entry) || entry == last) by {
            let all = kept.push(last);
            if kept.contains(entry) {
                let k = choose|k: int| 0 <= k < kept.len() && kept[k] == entry;
                assert(all[k] == entry);
            }
            assert(all[kept.len() as int] == last);
        }
    }
}

/// Value of a deletion request with its tenant.
#[verifier::ext_equal]
pub struct TenantDeleteModel {
    /// Tenant.
    pub tenant: Seq<char>,
    /// Request.
    pub request: DeleteModel,
}

/// Deletion request with its tenant.
#[derive(Debug, PartialEq, Eq)]
pub struct TenantDelete {
    /// Tenant.
    pub tenant: String,
    /// Request.
    pub request: DeleteRequest,
}

impl View for TenantDelete {
    type V = TenantDeleteModel;

    open spec fn view(&self) -> TenantDeleteModel {
        TenantDeleteModel { tenant: self.tenant@, request: self.request@ }
    }
}

/// Active deletion requests of all tenants, in the order of their creation.
#[derive(Debug)]
pub struct DeleteCatalog {
    /// Requests.
    pub requests: Vec<TenantDelete>,
    /// Number of the next request.
    pub next_number: u64,
}

/// Value of a catalog.
#[verifier::ext_equal]
pub struct CatalogModel {
    /// Requests.
    pub requests: Seq<TenantDeleteModel>,
    /// Number of the next request.
    pub next_number: u64,
}

impl View for DeleteCatalog {
    type V = CatalogModel;

    open spec fn view(&self) -> CatalogModel {
        CatalogModel {
            requests: self.requests@.map_values(|item: TenantDelete| item@),
            next_number: self.next_number,
        }
    }
}

/// Requests of a tenant.
pub open spec fn tenant_requests(requests: Seq<TenantDeleteModel>, tenant: Seq<char>) -> Seq<
    DeleteModel,
>
    decreases requests.len(),
{
    if requests.len() == 0 {
        Seq::empty()
    } else {
        let front = tenant_requests(requests.drop_last(), tenant);
        if requests.last().tenant == tenant {
            front.push(requests.last().request)
        } else {
            front
        }
    }
}

/// The last hexadecimal digits of a number.
pub open spec fn hex_number(number: nat, digits: nat) -> Seq<char>
    decreases digits,
{
    if digits == 0 {
        Seq::empty()
    } else {
        hex_number(number / 16, (digits - 1) as nat).push(hex_digit((number % 16) as int))
    }
}

/// Identifier of a request: its number in sixteen hexadecimal digits.
pub open spec fn request_id_of(number: u64) -> Seq<char> {
    hex_number(number as nat, 16)
}

fn write_hex(number: u64, digits: usize) -> (text: String)
    ensures
        text@ == hex_number(number as nat, digits as nat),
    decreases digits,
{
    if digits == 0 {
        let text = String::new();
        proof {
            assert(text@ =~= Seq::<char>::empty());
        }
        text
    } else {
        let mut text = write_hex(number / 16, digits - 1);
        push_char(&mut text, hex_char((number % 16) as u8));
        text
    }
}

/// First request of a tenant with an identifier, from `from` on.
pub open spec fn request_place(
    requests: Seq<TenantDeleteModel>,
    tenant: Seq<char>,
    id: Seq<char>,
    from: int,
) -> int
    decreases requests.len() - from,
{
    if from >= requests.len() {
        requests.len() as int
    } else if requests[from].tenant == tenant && requests[from].request.id == id {
        from
    } else {
        request_place(requests, tenant, id, from + 1)
    }
}

/// A catalog with one more request.
pub open spec fn with_request(
    catalog: CatalogModel,
    tenant: Seq<char>,
    start: i64,
    end: i64,
    query: Seq<char>,
    created_at: i64,
) -> CatalogModel {
    CatalogModel {
        requests: catalog.requests.push(
            TenantDeleteModel {
                tenant,
                request: DeleteModel {
                    id: request_id_of(catalog.next_number),
                    start,
                    end,
                    query,
                    status: "received"@,
                    created_at,
                },
            },
        ),
        next_number: (catalog.next_number + 1) as u64,
    }
}

/// A catalog without a request of a tenant.
pub open spec fn without_request(
    catalog: CatalogModel,
    tenant: Seq<char>,
    id: Seq<char>,
) -> CatalogModel {
    let at = request_place(catalog.requests, tenant, id, 0);
    if at < catalog.requests.len() {
        CatalogModel { requests: catalog.requests.remove(at), ..catalog }
    } else {
        catalog
    }
}

/// Requests of all tenants but one.
pub open spec fn other_requests(requests: Seq<TenantDeleteModel>, tenant: Seq<char>) -> Seq<
    TenantDeleteModel,
>
    decreases requests.len(),
{
    if requests.len() == 0 {
        Seq::empty()
    } else {
        let front = other_requests(requests.drop_last(), tenant);
        if requests.last().tenant == tenant {
            front
        } else {
            front.push(requests.last())
        }
    }
}

/// Requests as those of a tenant.
pub open spec fn of_tenant(requests: Seq<DeleteModel>, tenant: Seq<char>) -> Seq<
    TenantDeleteModel,
> {
    requests.map_values(|request: DeleteModel| TenantDeleteModel { tenant, request })
}

spec fn tenant_deletes_view(items: Seq<TenantDelete>) -> Seq<TenantDeleteModel> {
    items.map_values(|item: TenantDelete| item@)
}

impl DeleteCatalog {
    /// A catalog without requests.
    pub fn new() -> (catalog: Self)
        ensures
            catalog@ == (CatalogModel { requests: Seq::empty(), next_number: 1 }),
    {
        let catalog = DeleteCatalog { requests: Vec::new(), next_number: 1 };
        proof {
            assert(catalog@.requests =~= Seq::<TenantDeleteModel>::empty());
        }
        catalog
    }

    /// Records a request and returns its identifier.
    pub fn create(
        &mut self,
        tenant: &str,
        start_time: i64,
        end_time: i64,
        query: String,
        created_at: i64,
    ) -> (result: Result<String, LokiApiError>)
        ensures
            match result {
                Ok(id) => {
                    &&& old(self)@.next_number < u64::MAX
                    &&& id@ == request_id_of(old(self)@.next_number)
                    &&& final(self)@ == with_request(
                        old(self)@,
                        tenant@,
                        start_time,
                        end_time,
                        query@,
                        created_at,
                    )
                },
                Err(error) => {
                    &&& old(self)@.next_number == u64::MAX
                    &&& error@ == (ApiFault {
                        status: ApiStatus::Internal,
                        message: "delete request numbers are exhausted"@,
                    })
                    &&& final(self)@ == old(self)@
                },
            },
    {
        let ghost before = self@.requests;
        if self.next_number == u64::MAX {
            return Err(LokiApiError::internal("delete request numbers are exhausted"));
        }
        let id = write_hex(self.next_number, 16);
        let item = TenantDelete {
            tenant: tenant.to_owned(),
            request: DeleteRequest {
                request_id: id.clone(),
                start_time,
                end_time,
                query,
                status: "received".to_owned(),
                created_at,
            },
        };
        proof {
            assert(tenant_deletes_view(self.requests@.push(item)) =~= before.push(item@));
        }
        self.requests.push(item);
        self.next_number = self.next_number + 1;
        Ok(id)
    }

    /// Active requests of a tenant.
    pub fn list(&self, tenant: &str) -> (requests: Vec<DeleteRequest>)
        ensures
            deletes_view(requests@) == tenant_requests(self@.requests, tenant@),
    {
        let ghost models = self@.requests;
        let mut requests: Vec<DeleteRequest> = Vec::new();
        let mut index: usize = 0;
        proof {
            assert(deletes_view(requests@) =~= tenant_requests(models.subrange(0, 0), tenant@));
        }
        while index < self.requests.len()
            invariant
                index <= self.requests@.len(),
                models == self@.requests,
                deletes_view(requests@) == tenant_requests(
                    models.subrange(0, index as int),
                    tenant@,
                ),
            decreases self.requests@.len() - index,
        {
            proof {
                let part = models.subrange(0, index + 1);
                assert(part.drop_last() =~= models.subrange(0, index as int));
                assert(part.last() == self.requests@[index as int]@);
            }
            if same_text(&self.requests[index].tenant, tenant) {
                let copy = self.requests[index].request.clone();
                proof {
                    assert(deletes_view(requests@.push(copy)) =~= deletes_view(requests@).push(
                        copy@,
                    ));
                }
                requests.push(copy);
            }
            index = index + 1;
        }
        proof {
            assert(models.subrange(0, index as int) =~= models);
        }
        requests
    }

    /// Removes a request of a tenant; false if there is none with the identifier.
    pub fn cancel(&mut self, tenant: &str, request_id: &str) -> (cancelled: bool)
        ensures
            cancelled == (request_place(old(self)@.requests, tenant@, request_id@, 0)
                < old(self)@.requests.len()),
            final(self)@ == without_request(old(self)@, tenant@, request_id@),
    {
        let ghost models = self@.requests;
        let mut at: usize = 0;
        while at < self.requests.len()
            invariant
                at <= self.requests@.len(),
                models == self@.requests,
                self@ == old(self)@,
                request_place(models, tenant@, request_id@, 0) == request_place(
                    models,
                    tenant@,
                    request_id@,
                    at as int,
                ),
            decreases self.requests@.len() - at,
        {
            proof {
                assert(models[at as int] == self.requests@[at as int]@);
            }
            if same_text(&self.requests[at].tenant, tenant) && same_text(
                &self.requests[at].request.request_id,
                request_id,
            ) {
                let ghost raw = self.requests@;
                let _ = self.requests.remove(at);
                proof {
                    assert(tenant_deletes_view(raw.remove(at as int)) =~= models.remove(at as int));
                }
                return true;
            }
            at = at + 1;
        }
        false
    }

    /// Replaces all requests of a tenant.
    pub fn replace_tenant(&mut self, tenant: &str, requests: Vec<DeleteRequest>)
        ensures
            final(self)@ == (CatalogModel {
                requests: other_requests(old(self)@.requests, tenant@) + of_tenant(
                    deletes_view(requests@),
                    tenant@,
                ),
                next_number: old(self)@.next_number,
            }),
    {
        let ghost models = self@.requests;
        let ghost added = deletes_view(requests@);
        let mut kept: Vec<TenantDelete> = Vec::new();
        let mut index: usize = 0;
        proof {
            assert(tenant_deletes_view(kept@) =~= other_requests(
                models.subrange(0, 0),
                tenant@,
            ));
        }
        while index < self.requests.len()
            invariant
                index <= self.requests@.len(),
                self@ == old(self)@,
                models == self@.requests,
                tenant_deletes_view(kept@) == other_requests(
                    models.subrange(0, index as int),
                    tenant@,
                ),
            decreases self.requests@.len() - index,
        {
            proof {
                let part = models.subrange(0, index + 1);
                assert(part.drop_last() =~= models.subrange(0, index as int));
                assert(part.last() == self.requests@[index as int]@);
            }
            if !same_text(&self.requests[index].tenant, tenant) {
                let copy = TenantDelete {
                    tenant: self.requests[index].tenant.clone(),
                    request: self.requests[index].request.clone(),
                };
                proof {
                    assert(tenant_deletes_view(kept@.push(copy)) =~= tenant_deletes_view(
                        kept@,
                    ).push(copy@));
                }
                kept.push(copy);
            }
            index = index + 1;
        }
        proof {
            assert(models.subrange(0, index as int) =~= models);
        }
        let ghost front = tenant_deletes_view(kept@);
        let mut place: usize = 0;
        proof {
            assert(front + of_tenant(added.subrange(0, 0), tenant@) =~= front);
        }
        while place < requests.len()
            invariant
                place <= requests@.len(),
                self@ == old(self)@,
                added == deletes_view(requests@),
                tenant_deletes_view(kept@) == front + of_tenant(
                    added.subrange(0, place as int),
                    tenant@,
                ),
            decreases requests@.len() - place,
        {
            let copy = TenantDelete {
                tenant: tenant.to_owned(),
                request: requests[place].clone(),
            };
            proof {
                let before = added.subrange(0, place as int);
                let part = added.subrange(0, place + 1);
                assert(part =~= before.push(requests@[place as int]@));
                assert(of_tenant(part, tenant@) =~= of_tenant(before, tenant@).push(copy@));
                assert(tenant_deletes_view(kept@.push(copy)) =~= tenant_deletes_view(kept@).push(
                    copy@,
                ));
                assert(front + of_tenant(part, tenant@) =~= (front + of_tenant(
                    before,
                    tenant@,
                )).push(copy@));
            }
            kept.push(copy);
            place = place + 1;
        }
        proof {
            assert(added.subrange(0, place as int) =~= added);
        }
        self.requests = kept;
    }
}

proof fn lemma_place_absent(
    requests: Seq<TenantDeleteModel>,
    tenant: Seq<char>,
    id: Seq<char>,
    last: TenantDeleteModel,
    from: int,
)
    requires
        0 <= from <= requests.len(),
        forall|i: int|
            0 <= i < requests.len() ==> (#[trigger] requests[i]).tenant != tenant
                || requests[i].request.id != id,
        last.tenant == tenant,
        last.request.id == id,
    ensures
        request_place(requests.push(last), tenant, id, from) == requests.len(),
    decreases requests.len() - from,
{
    let all = requests.push(last);
    if from < requests.len() {
        assert(all[from] == requests[from]);
        lemma_place_absent(requests, tenant, id, last, from + 1);
    } else {
        assert(all[from] == last);
    }
}

/// Cancelling a request that was just created gives back the requests there were, where
/// no other request of the tenant has its identifier.
pub proof fn cancelling_undoes_creating(
    catalog: CatalogModel,
    tenant: Seq<char>,
    start: i64,
    end: i64,
    query: Seq<char>,
    created_at: i64,
)
    requires
        catalog.next_number < u64::MAX,
        forall|i: int|
            0 <= i < catalog.requests.len() ==> (#[trigger] catalog.requests[i]).tenant != tenant
                || catalog.requests[i].request.id != request_id_of(catalog.next_number),
    ensures
        without_request(
            with_request(catalog, tenant, start, end, query, created_at),
            tenant,
            request_id_of(catalog.next_number),
        ).requests == catalog.requests,
{
    let created = with_request(catalog, tenant, start, end, query, created_at);
    lemma_place_absent(
        catalog.requests,
        tenant,
        request_id_of(catalog.next_number),
        created.requests.last(),
        0,
    );
    assert(created.requests =~= catalog.requests.push(created.requests.last()));
    assert(created.requests.remove(catalog.requests.len() as int) =~= catalog.requests);
}

/// Value of the entries of a tenant.
#[verifier::ext_equal]
pub struct TenantModel {
    /// Tenant.
    pub tenant: Seq<char>,
    /// Entries in ascending time order.
    pub entries: Seq<EntryModel>,
}

/// Entries of a tenant.
#[derive(Debug)]
pub struct TenantStore {
    /// Tenant.
    pub tenant: String,
    /// Entries in ascending time order.
    pub entries: Vec<LokiEntry>,
}

impl View for TenantStore {
    type V = TenantModel;

    open spec fn view(&self) -> TenantModel {
        TenantModel { tenant: self.tenant@, entries: entries_view(self.entries@) }
    }
}

/// Values of the entries of tenants.
pub open spec fn tenants_view(tenants: Seq<TenantStore>) -> Seq<TenantModel> {
    tenants.map_values(|store: TenantStore| store@)
}

/// First place of a tenant from `from` on.
pub open spec fn tenant_place(tenants: Seq<TenantModel>, tenant: Seq<char>, from: int) -> int
    decreases tenants.len() - from,
{
    if from >= tenants.len() {
        tenants.len() as int
    } else if tenants[from].tenant == tenant {
        from
    } else {
        tenant_place(tenants, tenant, from + 1)
    }
}

/// Entries of a tenant; none where nothing was pushed.
pub open spec fn tenant_entries(tenants: Seq<TenantModel>, tenant: Seq<char>) -> Seq<EntryModel> {
    let at = tenant_place(tenants, tenant, 0);
    if at < tenants.len() {
        tenants[at].entries
    } else {
        Seq::empty()
    }
}

proof fn lemma_tenant_place(tenants: Seq<TenantModel>, tenant: Seq<char>, from: int)
    requires
        0 <= from <= tenants.len(),
    ensures
        from <= tenant_place(tenants, tenant, from) <= tenants.len(),
        tenant_place(tenants, tenant, from) < tenants.len() ==> tenants[tenant_place(
            tenants,
            tenant,
            from,
        )].tenant == tenant,
        forall|i: int|
            from <= i < tenant_place(tenants, tenant, from) ==> (#[trigger] tenants[i]).tenant
                != tenant,
    decreases tenants.len() - from,
{
    if from < tenants.len() && tenants[from].tenant != tenant {
        lemma_tenant_place(tenants, tenant, from + 1);
    }
}

proof fn lemma_place_is(tenants: Seq<TenantModel>, tenant: Seq<char>, from: int, at: int)
    requires
        0 <= from <= at <= tenants.len(),
        at < tenants.len() ==> tenants[at].tenant == tenant,
        forall|i: int| from <= i < at ==> (#[trigger] tenants[i]).tenant != tenant,
    ensures
        tenant_place(tenants, tenant, from) == at,
    decreases at - from,
{
    if from < at {
        lemma_place_is(tenants, tenant, from + 1, at);
    }
}

/// In-memory reference store.
#[derive(Debug)]
pub struct LokiApiStore {
    /// Entries by tenant.
    pub tenants: Vec<TenantStore>,
    /// Deletion requests.
    pub deletes: DeleteCatalog,
}

impl Default for LokiApiStore {
    fn default() -> (store: Self)
        ensures
            store.tenants@.len() == 0,
            store.deletes@ == (CatalogModel { requests: Seq::empty(), next_number: 1 }),
    {
        LokiApiStore { tenants: Vec::new(), deletes: DeleteCatalog::new() }
    }
}

impl LokiApiStore {
    /// Entries of a tenant that were pushed.
    pub open spec fn stored(self, tenant: Seq<char>) -> Seq<EntryModel> {
        tenant_entries(tenants_view(self.tenants@), tenant)
    }

    fn place(&self, tenant: &str) -> (at: usize)
        ensures
            at == tenant_place(tenants_view(self.tenants@), tenant@, 0),
            at <= self.tenants@.len(),
    {
        let ghost models = tenants_view(self.tenants@);
        let mut at: usize = 0;
        while at < self.tenants.len()
            invariant
                at <= self.tenants@.len(),
                models == tenants_view(self.tenants@),
                tenant_place(models, tenant@, 0) == tenant_place(models, tenant@, at as int),
            decreases self.tenants@.len() - at,
        {
            proof {
                assert(models[at as int] == self.tenants@[at as int]@);
            }
            if same_text(&self.tenants[at].tenant, tenant) {
                return at;
            }
            at = at + 1;
        }
        at
    }

    /// Adds entries to a tenant and sorts its entries by time.
    pub fn push(&mut self, tenant: &str, entries: Vec<LokiEntry>)
        ensures
            final(self).stored(tenant@) == by_time(
                old(self).stored(tenant@) + entries_view(entries@),
            ),
            forall|other: Seq<char>|
                other != tenant@ ==> #[trigger] final(self).stored(other) == old(self).stored(
                    other,
                ),
            final(self).deletes == old(self).deletes,
            final(self).stored(tenant@).to_multiset() == (old(self).stored(tenant@) + entries_view(
                entries@,
            )).to_multiset(),
            forall|i: int, j: int|
                0 <= i < j < final(self).stored(tenant@).len() ==> (#[trigger] final(self).stored(
                    tenant@,
                )[i]).timestamp <= (#[trigger] final(self).stored(tenant@)[j]).timestamp,
    {
        let ghost before = tenants_view(self.tenants@);
        let ghost added = entries_view(entries@);
        let at: usize = self.place(tenant);
        if at < self.tenants.len() {
            let mut all: Vec<LokiEntry> = Vec::new();
            let mut index: usize = 0;
            let ghost stored = before[at as int].entries;
            proof {
                assert(before[at as int] == self.tenants@[at as int]@);
                assert(entries_view(all@) =~= stored.subrange(0, 0));
            }
            while index < self.tenants[at].entries.len()
                invariant
                    at < self.tenants@.len(),
                    self.tenants@ == old(self).tenants@,
                    self.deletes == old(self).deletes,
                    stored == entries_view(self.tenants@[at as int].entries@),
                    index <= stored.len(),
                    entries_view(all@) == stored.subrange(0, index as int),
                decreases stored.len() - index,
            {
                let copy = self.tenants[at].entries[index].clone();
                proof {
                    assert(entries_view(all@.push(copy)) =~= entries_view(all@).push(copy@));
                    assert(stored.subrange(0, index + 1) =~= stored.subrange(
                        0,
                        index as int,
                    ).push(stored[index as int]));
                }
                all.push(copy);
                index = index + 1;
            }
            let mut more = entries;
            let ghost middle = all@;
            let ghost extra = more@;
            all.append(&mut more);
            proof {
                assert(stored.subrange(0, stored.len() as int) =~= stored);
                assert(entries_view(all@) =~= entries_view(middle) + entries_view(extra));
            }
            let sorted = sort_by_time(&all);
            proof {
                assert(all.len() == entries_view(all@).len());
                by_time_sorts(entries_view(all@));
            }
            let store = TenantStore { tenant: tenant.to_owned(), entries: sorted };
            let ghost raw = self.tenants@;
            self.tenants.set(at, store);
            proof {
                let after = tenants_view(self.tenants@);
                assert(after =~= before.update(at as int, store@));
                lemma_tenant_place(before, tenant@, 0);
                lemma_place_is(after, tenant@, 0, at as int);
                assert forall|other: Seq<char>| other != tenant@ implies #[trigger] self.stored(
                    other,
                ) == old(self).stored(other) by {
                    let place = tenant_place(before, other, 0);
                    lemma_tenant_place(before, other, 0);
                    assert(place != at);
                    lemma_place_is(after, other, 0, place);
                }
            }
        } else {
            let sorted = sort_by_time(&entries);
            proof {
                assert(entries.len() == added.len());
                by_time_sorts(added);
            }
            let store = TenantStore { tenant: tenant.to_owned(), entries: sorted };
            self.tenants.push(store);
            proof {
                let after = tenants_view(self.tenants@);
                assert(after =~= before.push(store@));
                assert(Seq::<EntryModel>::empty() + added =~= added);
                lemma_tenant_place(before, tenant@, 0);
                lemma_place_is(after, tenant@, 0, at as int);
                assert forall|other: Seq<char>| other != tenant@ implies #[trigger] self.stored(
                    other,
                ) == old(self).stored(other) by {
                    let place = tenant_place(before, other, 0);
                    lemma_tenant_place(before, other, 0);
                    if place < before.len() {
                        lemma_place_is(after, other, 0, place);
                    } else {
                        lemma_place_is(after, other, 0, after.len() as int);
                    }
                }
            }
        }
    }

    /// Visible entries of a tenant.
    pub fn entries(&self, tenant: &str) -> (result: Result<Vec<LokiEntry>, LokiApiError>)
        ensures
            match (
                result,
                visible_entries(
                    self.stored(tenant@),
                    tenant_requests(self.deletes@.requests, tenant@),
                ),
            ) {
                (Ok(entries), Ok(models)) => entries_view(entries@) == models,
                (Err(error), Err(fault)) => error@ == fault,
                _ => false,
            },
    {
        let requests = self.deletes.list(tenant);
        let at: usize = self.place(tenant);
        if at < self.tenants.len() {
            proof {
                assert(tenants_view(self.tenants@)[at as int] == self.tenants@[at as int]@);
            }
            apply_logical_deletes(&self.tenants[at].entries, &requests)
        } else {
            let none: Vec<LokiEntry> = Vec::new();
            proof {
                assert(entries_view(none@) =~= Seq::<EntryModel>::empty());
            }
            apply_logical_deletes(&none, &requests)
        }
    }
}

/// Value of the parameters of a deletion.
#[verifier::ext_equal]
pub struct DeleteParamsModel {
    /// LogQL query.
    pub query: Option<Seq<char>>,
    /// First timestamp.
    pub start: Option<TimeModel>,
    /// Last timestamp.
    pub end: Option<TimeModel>,
}

/// Parameters of a deletion.
#[derive(Debug, PartialEq, Eq)]
pub struct DeleteParams {
    /// LogQL query.
    pub query: Option<String>,
    /// First timestamp.
    pub start: Option<TimeText>,
    /// Last timestamp.
    pub end: Option<TimeText>,
}

impl View for DeleteParams {
    type V = DeleteParamsModel;

    open spec fn view(&self) -> DeleteParamsModel {
        DeleteParamsModel {
            query: optional_text(self.query),
            start: time_option(self.start),
            end: time_option(self.end),
        }
    }
}

/// Query and span of a new deletion request.
pub open spec fn delete_plan_of(params: DeleteParamsModel, now: i64) -> Result<
    (Seq<char>, i64, i64),
    ApiFault,
> {
    match params.query {
        None => Err(query_missing()),
        Some(query) => match parse_query_text(query) {
            Err(fault) => Err(fault),
            Ok(_) => match params.start {
                None => Err(bad("start parameter is required"@)),
                Some(start) => match delete_timestamp_of(start) {
                    Err(fault) => Err(fault),
                    Ok(start) => match params.end {
                        None => Ok((query, start, now)),
                        Some(end) => match delete_timestamp_of(end) {
                            Err(fault) => Err(fault),
                            Ok(end) => Ok((query, start, end)),
                        },
                    },
                },
            },
        },
    }
}

/// Plans a new deletion request.
pub fn plan_delete(params: &DeleteParams, now: i64) -> (result: Result<
    (String, i64, i64),
    LokiApiError,
>)
    ensures
        match (result, delete_plan_of(params@, now)) {
            (Ok((query, start, end)), Ok((model, first, last))) => query@ == model && start
                == first && end == last,
            (Err(error), Err(fault)) => error@ == fault,
            _ => false,
        },
{
    let query = match &params.query {
        Some(query) => query,
        None => return Err(LokiApiError::bad_request("query parameter is required")),
    };
    match parse_log_query(query) {
        Ok(_) => {},
        Err(error) => return Err(error),
    }
    let start: i64 = match &params.start {
        Some(start) => match parse_delete_timestamp(start) {
            Ok(start) => start,
            Err(error) => return Err(error),
        },
        None => return Err(LokiApiError::bad_request("start parameter is required")),
    };
    let end: i64 = match &params.end {
        Some(end) => match parse_delete_timestamp(end) {
            Ok(end) => end,
            Err(error) => return Err(error),
        },
        None => now,
    };
    Ok((query.clone(), start, end))
}

/// Span of a list of deletion requests: none, or both ends.
pub open spec fn delete_range_of(start: Option<TimeModel>, end: Option<TimeModel>) -> Result<
    Option<(i64, i64)>,
    ApiFault,
> {
    match (start, end) {
        (None, None) => Ok(None),
        (Some(start), Some(end)) => match delete_timestamp_of(start) {
            Err(fault) => Err(fault),
            Ok(first) => match delete_timestamp_of(end) {
                Err(fault) => Err(fault),
                Ok(last) => Ok(Some((first, last))),
            },
        },
        _ => Err(bad("delete list start and end must be provided together"@)),
    }
}

/// Reads the span of a list of deletion requests.
pub fn plan_delete_list(params: &DeleteParams) -> (result: Result<
    Option<(i64, i64)>,
    LokiApiError,
>)
    ensures
        crate::api_error::plain_outcome(result, delete_range_of(params@.start, params@.end)),
{
    match (&params.start, &params.end) {
        (None, None) => Ok(None),
        (Some(start), Some(end)) => match parse_delete_timestamp(start) {
            Ok(first) => match parse_delete_timestamp(end) {
                Ok(last) => Ok(Some((first, last))),
                Err(error) => Err(error),
            },
            Err(error) => Err(error),
        },
        _ => Err(
            LokiApiError::bad_request("delete list start and end must be provided together"),
        ),
    }
}

/// Whether a request overlaps a span.
pub open spec fn delete_overlaps(request: DeleteModel, range: Option<(i64, i64)>) -> bool {
    range matches Some((start, end)) ==> request.start <= end && request.end >= start
}

/// Requests that overlap a span.
pub open spec fn overlapping_requests(
    requests: Seq<DeleteModel>,
    range: Option<(i64, i64)>,
) -> Seq<DeleteModel>
    decreases requests.len(),
{
    if requests.len() == 0 {
        Seq::empty()
    } else {
        let front = overlapping_requests(requests.drop_last(), range);
        if delete_overlaps(requests.last(), range) {
            front.push(requests.last())
        } else {
            front
        }
    }
}

/// Requests that overlap a span.
pub fn list_deletes(requests: &Vec<DeleteRequest>, range: Option<(i64, i64)>) -> (listed: Vec<
    DeleteRequest,
>)
    ensures
        deletes_view(listed@) == overlapping_requests(deletes_view(requests@), range),
{
    let ghost models = deletes_view(requests@);
    let mut listed: Vec<DeleteRequest> = Vec::new();
    let mut index: usize = 0;
    proof {
        assert(deletes_view(listed@) =~= overlapping_requests(models.subrange(0, 0), range));
    }
    while index < requests.len()
        invariant
            index <= requests@.len(),
            models == deletes_view(requests@),
            deletes_view(listed@) == overlapping_requests(
                models.subrange(0, index as int),
                range,
            ),
        decreases requests@.len() - index,
    {
        proof {
            let part = models.subrange(0, index + 1);
            assert(part.drop_last() =~= models.subrange(0, index as int));
            assert(part.last() == requests@[index as int]@);
        }
        let inside = match range {
            Some((start, end)) => requests[index].start_time <= end && requests[index].end_time
                >= start,
            None => true,
        };
        if inside {
            let copy = requests[index].clone();
            proof {
                assert(deletes_view(listed@.push(copy)) =~= deletes_view(listed@).push(copy@));
            }
            listed.push(copy);
        }
        index = index + 1;
    }
    proof {
        assert(models.subrange(0, index as int) =~= models);
    }
    listed
}

} // verus!
