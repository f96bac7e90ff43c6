//! Laws of the dictionary cache and of remote writes.
use vstd::prelude::*;

use crate::dictionary_cache::{cached_bytes, cached_from, leaving, without, Cached};
use crate::prometheus::{
    negotiated, version_agrees, write_admission, write_payload_of, RemoteWriteVersion, WriteStatus,
};
use crate::production::ProductionRuntime;
use crate::{CompressionPlacementId, DictionaryId};
use crate::stripe_dictionaries::{
    assigned_to, cache_with, published_in, resolved, Assigned, DictionariesModel,
};
use crate::text::ascii_lowered;

verus! {

broadcast use vstd::seq_lib::group_seq_properties;

/// Whether a cache holds the bytes of a dictionary.
pub open spec fn caches(cached: Cached, id: DictionaryId, payload: Seq<u8>) -> bool {
    cached.contains((id, payload))
}

/// Whether no dictionary occurs twice.
pub open spec fn is_set(cached: Cached) -> bool {
    forall|i: int, j: int|
        0 <= i < j < cached.len() ==> (#[trigger] cached[i]).0 != (#[trigger] cached[j]).0
}

proof fn lemma_cached_from(cached: Cached, id: DictionaryId, from: int)
    requires
        0 <= from <= cached.len(),
    ensures
        from <= cached_from(cached, id, from) <= cached.len(),
        cached_from(cached, id, from) < cached.len() ==> cached[cached_from(cached, id, from)].0
            == id,
        forall|i: int| from <= i < cached_from(cached, id, from) ==> (#[trigger] cached[i]).0 != id,
    decreases cached.len() - from,
{
    if from < cached.len() && cached[from].0 != id {
        lemma_cached_from(cached, id, from + 1);
    }
}

proof fn lemma_bytes_first(cached: Cached)
    requires
        cached.len() > 0,
    ensures
        cached_bytes(cached) == cached[0].1.len() + cached_bytes(cached.drop_first()),
    decreases cached.len(),
{
    let rest = cached.drop_first();
    if cached.len() == 1 {
        assert(cached.drop_last().len() == 0);
        assert(cached_bytes(cached.drop_last()) == 0);
        assert(cached_bytes(rest) == 0);
    } else {
        lemma_bytes_first(cached.drop_last());
        assert(cached.drop_last().drop_first() =~= rest.drop_last());
        assert(rest.last() == cached.last());
        assert(cached.drop_last()[0] == cached[0]);
    }
}

proof fn lemma_leaving(cached: Cached, bytes: nat, capacity: nat)
    requires
        bytes <= capacity,
    ensures
        ({
            let count = leaving(cached, bytes, capacity);
            &&& count <= cached.len()
            &&& cached_bytes(cached.subrange(count as int, cached.len() as int)) + bytes <= capacity
            &&& count > 0 ==> cached_bytes(
                cached.subrange(count - 1, cached.len() as int),
            ) + bytes > capacity
        }),
    decreases cached.len(),
{
    assert(cached.subrange(0, cached.len() as int) =~= cached);
    if !(cached.len() == 0 || cached_bytes(cached) + bytes <= capacity) {
        let rest = cached.drop_first();
        let count = leaving(rest, bytes, capacity);
        lemma_leaving(rest, bytes, capacity);
        assert(rest.subrange(count as int, rest.len() as int) =~= cached.subrange(
            count as int + 1,
            cached.len() as int,
        ));
        if count > 0 {
            assert(rest.subrange(count - 1, rest.len() as int) =~= cached.subrange(
                count as int,
                cached.len() as int,
            ));
        }
    }
}

/// An inserted dictionary is the most recently used one; of the others the most recently
/// used stay, with their bytes and in their order, as many as fit beside it and no fewer. A
/// dictionary that is larger than the cache is refused.
pub proof fn insertion_keeps_the_most_recently_used(
    cached: Cached,
    capacity: nat,
    id: DictionaryId,
    payload: Seq<u8>,
)
    requires
        is_set(cached),
    ensures
        cache_with(cached, capacity, id, payload) is Ok <==> payload.len() <= capacity,
        cache_with(cached, capacity, id, payload) matches Ok(after) ==> {
            let others = cached.filter(|entry: (DictionaryId, Seq<u8>)| entry.0 != id);
            let kept = after.drop_last();
            &&& after.len() > 0 && after.last() == (id, payload)
            &&& kept.len() <= others.len()
            &&& kept == others.subrange(others.len() - kept.len(), others.len() as int)
            &&& cached_bytes(kept) + payload.len() <= capacity
            &&& kept.len() < others.len() ==> cached_bytes(
                others.subrange(others.len() - kept.len() - 1, others.len() as int),
            ) + payload.len() > capacity
        },
{
    let others = cached.filter(|entry: (DictionaryId, Seq<u8>)| entry.0 != id);
    lemma_without(cached, id);
    if payload.len() <= capacity {
        let rest = without(cached, id);
        let count = leaving(rest, payload.len(), capacity);
        let after = cache_with(cached, capacity, id, payload)->Ok_0;
        lemma_leaving(rest, payload.len(), capacity);
        assert(after.drop_last() =~= rest.subrange(count as int, rest.len() as int));
    }
}

proof fn lemma_filter_all(cached: Cached, id: DictionaryId)
    requires
        forall|i: int| 0 <= i < cached.len() ==> (#[trigger] cached[i]).0 != id,
    ensures
        cached.filter(|entry: (DictionaryId, Seq<u8>)| entry.0 != id) == cached,
    decreases cached.len(),
{
    reveal(Seq::filter);
    if cached.len() > 0 {
        let early = cached.drop_last();
        assert forall|i: int| 0 <= i < early.len() implies (#[trigger] early[i]).0 != id by {
            assert(early[i] == cached[i]);
        }
        lemma_filter_all(early, id);
        assert(cached[cached.len() - 1] == cached.last());
        assert(early.push(cached.last()) =~= cached);
    }
}

proof fn lemma_without(cached: Cached, id: DictionaryId)
    requires
        is_set(cached),
    ensures
        without(cached, id) == cached.filter(|entry: (DictionaryId, Seq<u8>)| entry.0 != id),
{
    let wanted = |entry: (DictionaryId, Seq<u8>)| entry.0 != id;
    let at = cached_from(cached, id, 0);
    lemma_cached_from(cached, id, 0);
    if at < cached.len() {
        let early = cached.subrange(0, at);
        let late = cached.subrange(at + 1, cached.len() as int);
        let one = seq![cached[at]];
        assert(cached =~= early + (one + late));
        Seq::filter_distributes_over_add(early, one + late, wanted);
        Seq::filter_distributes_over_add(one, late, wanted);
        assert forall|i: int| 0 <= i < late.len() implies (#[trigger] late[i]).0 != id by {
            assert(late[i] == cached[at + 1 + i]);
            assert(cached[at].0 != cached[at + 1 + i].0);
        }
        assert forall|i: int| 0 <= i < early.len() implies (#[trigger] early[i]).0 != id by {
            assert(early[i] == cached[i]);
        }
        lemma_filter_all(early, id);
        lemma_filter_all(late, id);
        assert(one.filter(wanted) =~= Seq::<(DictionaryId, Seq<u8>)>::empty()) by {
            reveal(Seq::filter);
            assert(one.drop_last() =~= Seq::<(DictionaryId, Seq<u8>)>::empty());
            assert(one.last() == cached[at]);
            assert(!wanted(one.last()));
            assert(one.drop_last().filter(wanted).len() == 0);
        }
        assert(cached.remove(at) =~= early + late);
        assert(Seq::<(DictionaryId, Seq<u8>)>::empty() + late =~= late);
    } else {
        lemma_filter_all(cached, id);
    }
}

/// The dictionary of a placement is the one that was assigned to it last.
pub proof fn the_last_assignment_counts(
    assigned: Assigned,
    placement: CompressionPlacementId,
    k: int,
)
    requires
        0 <= k < assigned.len(),
        assigned[k].0 == placement,
        forall|i: int| k < i < assigned.len() ==> (#[trigger] assigned[i]).0 != placement,
    ensures
        assigned_to(assigned, placement) == Some(assigned[k].1),
    decreases assigned.len(),
{
    assert(assigned[assigned.len() - 1] == assigned.last());
    if k < assigned.len() - 1 {
        let early = assigned.drop_last();
        assert forall|i: int| k < i < early.len() implies (#[trigger] early[i]).0 != placement by {
            assert(early[i] == assigned[i]);
        }
        the_last_assignment_counts(early, placement, k);
    }
}

/// A placement without a dictionary is compressed without one; one with a dictionary gets
/// that dictionary with the bytes that are cached, or else published, for it, and is refused
/// where there are none or they do not fit.
pub proof fn placements_get_their_dictionary(
    state: DictionariesModel,
    placement: CompressionPlacementId,
)
    requires
        is_set(state.cached),
    ensures
        ({
            let (after, outcome) = resolved(state, placement);
            let assigned = assigned_to(state.assigned, placement);
            &&& assigned is None ==> after == state && (outcome matches Ok(selection)
                && selection.dictionary_id is None && selection.payload is None)
            &&& assigned matches Some(id) ==> (outcome matches Ok(selection) ==> {
                &&& selection.dictionary_id == Some(id)
                &&& selection.payload matches Some(payload) && (caches(state.cached, id, payload)
                    || (published_in(state.published, id) == Some(payload) && forall|
                    held: Seq<u8>,
                | !#[trigger] caches(state.cached, id, held)))
                &&& after.cached.len() > 0 && after.cached.last() == (id, selection.payload->0)
            })
            &&& assigned matches Some(id) ==> (forall|payload: Seq<u8>| #[trigger]
                caches(state.cached, id, payload) ==> outcome is Ok)
            &&& outcome is Err ==> after == state
        }),
{
    if let Some(id) = assigned_to(state.assigned, placement) {
        let at = cached_from(state.cached, id, 0);
        lemma_cached_from(state.cached, id, 0);
        if at < state.cached.len() {
            assert(state.cached[at] == (id, state.cached[at].1));
            assert(caches(state.cached, id, state.cached[at].1));
        } else {
            assert forall|held: Seq<u8>| !#[trigger] caches(state.cached, id, held) by {
                if caches(state.cached, id, held) {
                    let i = choose|i: int|
                        0 <= i < state.cached.len() && state.cached[i] == (id, held);
                    assert(state.cached[i].0 == id);
                }
            }
        }
    }
}

/// A remote write is refused, in this order, where it is too large, not compressed with
/// Snappy whatever the case of the name, of no known schema, or of a version that its header
/// does not name; else its schema is that of its content type.
pub proof fn writes_are_negotiated(
    largest: usize,
    body_bytes: usize,
    encoding: Option<Seq<char>>,
    schema: Option<Result<RemoteWriteVersion, Seq<char>>>,
    version: Option<Seq<char>>,
)
    ensures
        ({
            let result = negotiated(largest, body_bytes, encoding, schema, version);
            let snappy = encoding matches Some(name) && ascii_lowered(name) == "snappy"@;
            &&& result matches Ok(chosen) ==> schema == Some(
                Ok::<RemoteWriteVersion, Seq<char>>(chosen),
            )
            &&& result is Ok <==> body_bytes <= largest && snappy && (schema matches Some(Ok(chosen))
                && (version matches Some(text) && version_agrees(text, chosen)))
            &&& body_bytes > largest ==> (result matches Err(fault) && fault.status
                == WriteStatus::PayloadTooLarge)
            &&& body_bytes <= largest && !snappy ==> (result matches Err(fault) && fault.status
                == WriteStatus::UnsupportedMediaType)
            &&& body_bytes <= largest && snappy && !(schema matches Some(Ok(_))) ==> (
            result matches Err(fault) && fault.status == WriteStatus::UnsupportedMediaType)
            &&& (body_bytes <= largest && snappy && version is None && schema matches Some(Ok(_)))
                ==> (result matches Err(fault) && fault.status == WriteStatus::BadRequest)
        }),
{
}

/// A version header names the first schema as `0.1.0` or as any `1.`, the second one as any
/// `2.`.
pub proof fn versions_name_their_schema(rest: Seq<char>)
    ensures
        version_agrees("0.1.0"@, RemoteWriteVersion::V1),
        version_agrees("1."@ + rest, RemoteWriteVersion::V1),
        !version_agrees("1."@ + rest, RemoteWriteVersion::V2),
        version_agrees("2."@ + rest, RemoteWriteVersion::V2),
        !version_agrees("2."@ + rest, RemoteWriteVersion::V1),
{
    reveal_strlit("1.");
    reveal_strlit("2.");
    reveal_strlit("0.1.0");
    let one = "1."@ + rest;
    let two = "2."@ + rest;
    assert(one.subrange(0, 2) =~= "1."@);
    assert(two.subrange(0, 2) =~= "2."@);
    assert(one[0] == '1');
    assert(two[0] == '2');
    assert("0.1.0"@[0] == '0');
    if version_agrees(one, RemoteWriteVersion::V2) {
        assert(one.subrange(0, 2)[0] == "2."@[0]);
    }
    if version_agrees(two, RemoteWriteVersion::V1) {
        if two != "0.1.0"@ {
            assert(two.subrange(0, 2)[0] == "1."@[0]);
        }
    }
}

/// A write is admitted with the token of the configuration and while there is room.
pub proof fn writes_need_token_and_room(runtime: ProductionRuntime, bearer: Option<Seq<char>>)
    ensures
        ({
            let (fault, after) = write_admission(runtime, bearer);
            let known = bearer matches Some(token) && runtime.config.accepts_token(token);
            let room = runtime.http.in_flight < runtime.config.max_http_in_flight;
            &&& fault is None <==> known && room
            &&& !known ==> (fault matches Some(fault) && fault.status == WriteStatus::Unauthorized)
            &&& known && !room ==> (fault matches Some(fault) && fault.status
                == WriteStatus::TooManyRequests)
            &&& fault is Some ==> after.http == runtime.http
        }),
{
}

/// A payload is handed on as it was decompressed where its announced length is allowed.
pub proof fn payloads_are_bounded(
    largest: usize,
    length: Result<usize, Seq<char>>,
    bytes: Result<Seq<u8>, Seq<char>>,
)
    ensures
        ({
            let result = write_payload_of(largest, length, bytes);
            &&& result matches Ok(payload) ==> bytes == Ok::<_, Seq<char>>(payload)
            &&& result is Ok <==> (length matches Ok(announced) && announced <= largest)
                && bytes is Ok
            &&& (length matches Ok(announced) && announced > largest) ==> (result matches Err(fault)
                && fault.status == WriteStatus::PayloadTooLarge)
        }),
{
}

} // verus!
