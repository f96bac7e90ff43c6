//! Which compression dictionary the blocks of a placement use.
use vstd::prelude::*;

use crate::codec::copy_range;
use crate::dictionary_cache::{
    cached_from, leaving, without, Cached, DictionaryCache, DictionaryId, DictionaryInsert,
};
use crate::error::LogDbError;

verus! {

broadcast use vstd::seq_lib::group_seq_properties;

/// Group of similar records that are compressed together.
#[derive(Debug, Clone, Copy, PartialEq, Eq, PartialOrd, Ord, Hash, Structural)]
pub struct CompressionPlacementId(pub u64);

/// Dictionaries of placements; a later entry of a placement takes the place of an earlier
/// one.
pub type Assigned = Seq<(CompressionPlacementId, DictionaryId)>;

/// The dictionary of a placement, if it has one.
pub open spec fn assigned_to(assigned: Assigned, placement: CompressionPlacementId) -> Option<
    DictionaryId,
>
    decreases assigned.len(),
{
    if assigned.len() == 0 {
        None
    } else if assigned.last().0 == placement {
        Some(assigned.last().1)
    } else {
        assigned_to(assigned.drop_last(), placement)
    }
}

/// The bytes of a dictionary in a snapshot, if it has the dictionary.
pub open spec fn published_in(published: Cached, id: DictionaryId) -> Option<Seq<u8>>
    decreases published.len(),
{
    if published.len() == 0 {
        None
    } else if published.last().0 == id {
        Some(published.last().1)
    } else {
        published_in(published.drop_last(), id)
    }
}

/// Value of the dictionaries of a stripe.
#[verifier::ext_equal]
pub struct DictionariesModel {
    /// Dictionaries of placements.
    pub assigned: Assigned,
    /// Cached dictionaries, least recently used first.
    pub cached: Cached,
    /// Most bytes of the cache.
    pub capacity: nat,
    /// Dictionaries of the snapshot that was adopted last.
    pub published: Cached,
    /// Generation of that snapshot.
    pub generation: u64,
}

/// Dictionary that a block uses, and its bytes.
#[verifier::ext_equal]
pub struct SelectionModel {
    /// The dictionary, if there is one.
    pub dictionary_id: Option<DictionaryId>,
    /// Its bytes.
    pub payload: Option<Seq<u8>>,
}

/// The cache after an insertion, or why there is none.
pub open spec fn cache_with(cached: Cached, capacity: nat, id: DictionaryId, payload: Seq<u8>) -> Result<
    Cached,
    LogDbError,
> {
    let rest = without(cached, id);
    let count = leaving(rest, payload.len(), capacity) as int;
    if payload.len() > capacity {
        Err(
            LogDbError::DictionaryTooLarge {
                dictionary_bytes: payload.len() as usize,
                cache_bytes: capacity as usize,
            },
        )
    } else {
        Ok(rest.subrange(count, rest.len() as int).push((id, payload)))
    }
}

/// The dictionaries of a stripe after one was looked up for a placement, and the outcome.
pub open spec fn resolved(state: DictionariesModel, placement: CompressionPlacementId) -> (
    DictionariesModel,
    Result<SelectionModel, LogDbError>,
) {
    match assigned_to(state.assigned, placement) {
        None => (state, Ok(SelectionModel { dictionary_id: None, payload: None })),
        Some(id) => {
            let at = cached_from(state.cached, id, 0);
            if at < state.cached.len() {
                let payload = state.cached[at].1;
                (
                    DictionariesModel {
                        cached: without(state.cached, id).push((id, payload)),
                        ..state
                    },
                    Ok(SelectionModel { dictionary_id: Some(id), payload: Some(payload) }),
                )
            } else {
                match published_in(state.published, id) {
                    None => (state, Err(LogDbError::MissingDictionary(id.0))),
                    Some(payload) => match cache_with(state.cached, state.capacity, id, payload) {
                        Err(error) => (state, Err(error)),
                        Ok(cached) => (
                            DictionariesModel { cached, ..state },
                            Ok(SelectionModel { dictionary_id: Some(id), payload: Some(payload) }),
                        ),
                    },
                }
            }
        },
    }
}

/// Immutable dictionaries that were published together.
#[derive(Debug)]
pub struct DictionarySnapshot {
    /// Number of the publication.
    pub generation: u64,
    /// Dictionaries of placements.
    pub assignments: Vec<(CompressionPlacementId, DictionaryId)>,
    /// The dictionaries.
    pub dictionaries: Vec<(DictionaryId, Vec<u8>)>,
}

/// Values of dictionaries.
pub open spec fn dictionaries_view(list: Seq<(DictionaryId, Vec<u8>)>) -> Cached {
    list.map_values(|entry: (DictionaryId, Vec<u8>)| (entry.0, entry.1@))
}

/// Dictionary that a block uses.
#[derive(Debug, PartialEq, Eq)]
pub struct DictionarySelection {
    /// The dictionary, if there is one.
    pub dictionary_id: Option<DictionaryId>,
    /// Its bytes.
    pub payload: Option<Vec<u8>>,
}

/// Bytes that may be there.
pub open spec fn payload_view(payload: Option<Vec<u8>>) -> Option<Seq<u8>> {
    match payload {
        Some(bytes) => Some(bytes@),
        None => None,
    }
}

impl View for DictionarySelection {
    type V = SelectionModel;

    open spec fn view(&self) -> SelectionModel {
        SelectionModel { dictionary_id: self.dictionary_id, payload: payload_view(self.payload) }
    }
}

/// Dictionaries of one stripe.
#[derive(Debug)]
pub struct StripeDictionaries {
    /// Dictionaries of placements.
    pub assignments: Vec<(CompressionPlacementId, DictionaryId)>,
    /// Cache of the stripe.
    pub cache: DictionaryCache,
    /// Dictionaries of the snapshot that was adopted last.
    pub published: Vec<(DictionaryId, Vec<u8>)>,
    /// Generation of that snapshot.
    pub generation: u64,
}

impl View for StripeDictionaries {
    type V = DictionariesModel;

    open spec fn view(&self) -> DictionariesModel {
        DictionariesModel {
            assigned: self.assignments@,
            cached: self.cache@,
            capacity: self.cache.capacity_bytes as nat,
            published: dictionaries_view(self.published@),
            generation: self.generation,
        }
    }
}

/// The dictionaries of a stripe after a snapshot was adopted.
pub open spec fn adopted(state: DictionariesModel, snapshot: DictionarySnapshot) -> DictionariesModel {
    if snapshot.generation == state.generation {
        state
    } else {
        DictionariesModel {
            assigned: snapshot.assignments@,
            published: dictionaries_view(snapshot.dictionaries@),
            generation: snapshot.generation,
            ..state
        }
    }
}

impl StripeDictionaries {
    /// The cache is well formed.
    pub open spec fn well_formed(self) -> bool {
        self.cache.well_formed()
    }

    /// No dictionaries.
    pub fn new(cache_bytes: usize) -> (result: Result<Self, LogDbError>)
        ensures
            match result {
                Ok(dictionaries) => cache_bytes > 0 && dictionaries.well_formed() && dictionaries@
                    == (DictionariesModel {
                    assigned: Seq::empty(),
                    cached: Seq::empty(),
                    capacity: cache_bytes as nat,
                    published: Seq::empty(),
                    generation: 0,
                }),
                Err(error) => cache_bytes == 0 && error == LogDbError::InvalidConfig(
                    crate::error::ConfigFault::DictionaryCacheBytes,
                ),
            },
    {
        match DictionaryCache::new(cache_bytes) {
            Ok(cache) => {
                let dictionaries = StripeDictionaries {
                    assignments: Vec::new(),
                    cache,
                    published: Vec::new(),
                    generation: 0,
                };
                proof {
                    assert(dictionaries@.assigned =~= Seq::empty());
                    assert(dictionaries@.published =~= Seq::empty());
                }
                Ok(dictionaries)
            },
            Err(error) => Err(error),
        }
    }

    fn assigned(&self, placement: CompressionPlacementId) -> (id: Option<DictionaryId>)
        ensures
            id == assigned_to(self.assignments@, placement),
    {
        let mut left: usize = self.assignments.len();
        proof {
            assert(self.assignments@.subrange(0, left as int) =~= self.assignments@);
        }
        while left > 0
            invariant
                left <= self.assignments@.len(),
                assigned_to(self.assignments@, placement) == assigned_to(
                    self.assignments@.subrange(0, left as int),
                    placement,
                ),
            decreases left,
        {
            let entry = self.assignments[left - 1];
            proof {
                let now = self.assignments@.subrange(0, left as int);
                assert(now.last() == entry);
                assert(now.drop_last() =~= self.assignments@.subrange(0, left - 1));
            }
            if entry.0 == placement {
                return Some(entry.1);
            }
            left = left - 1;
        }
        None
    }

    fn published_payload(&self, id: DictionaryId) -> (payload: Option<Vec<u8>>)
        ensures
            payload_view(payload) == published_in(dictionaries_view(self.published@), id),
    {
        let ghost all = dictionaries_view(self.published@);
        let mut left: usize = self.published.len();
        proof {
            assert(all.subrange(0, left as int) =~= all);
        }
        while left > 0
            invariant
                left <= self.published@.len(),
                all == dictionaries_view(self.published@),
                published_in(all, id) == published_in(all.subrange(0, left as int), id),
            decreases left,
        {
            let entry = &self.published[left - 1];
            proof {
                let now = all.subrange(0, left as int);
                assert(now.last() == (entry.0, entry.1@));
                assert(now.drop_last() =~= all.subrange(0, left - 1));
            }
            if entry.0 == id {
                let bytes = copy_range(&entry.1, 0, entry.1.len());
                proof {
                    assert(entry.1@.subrange(0, entry.1@.len() as int) =~= entry.1@);
                }
                return Some(bytes);
            }
            left = left - 1;
        }
        None
    }

    /// Finds the dictionary of a placement: in the cache, else in the adopted snapshot,
    /// from where it enters the cache.
    pub fn resolve_dictionary(&mut self, placement: CompressionPlacementId) -> (result: Result<
        DictionarySelection,
        LogDbError,
    >)
        requires
            old(self).well_formed(),
        ensures
            final(self).well_formed(),
            ({
                let (after, outcome) = resolved(old(self)@, placement);
                &&& final(self)@ == after
                &&& match (result, outcome) {
                    (Ok(selection), Ok(wanted)) => selection@ == wanted,
                    (Err(error), Err(fault)) => error == fault,
                    _ => false,
                }
            }),
    {
        let id = match self.assigned(placement) {
            Some(id) => id,
            None => {
                return Ok(DictionarySelection { dictionary_id: None, payload: None });
            },
        };
        match self.cache.get(id) {
            Some(payload) => {
                return Ok(DictionarySelection { dictionary_id: Some(id), payload: Some(payload) });
            },
            None => {},
        }
        let payload = match self.published_payload(id) {
            Some(payload) => payload,
            None => {
                return Err(LogDbError::MissingDictionary(id.0));
            },
        };
        let kept = copy_range(&payload, 0, payload.len());
        proof {
            assert(payload@.subrange(0, payload@.len() as int) =~= payload@);
        }
        match self.cache.insert(id, kept) {
            Ok(_) => Ok(DictionarySelection { dictionary_id: Some(id), payload: Some(payload) }),
            Err(error) => Err(error),
        }
    }

    /// Adopts a snapshot, unless it is the one that was adopted last; tells whether it
    /// did.
    pub fn refresh_dictionary_catalog(&mut self, snapshot: DictionarySnapshot) -> (changed: bool)
        requires
            old(self).well_formed(),
        ensures
            final(self).well_formed(),
            changed == (snapshot.generation != old(self).generation),
            final(self)@ == adopted(old(self)@, snapshot),
    {
        if snapshot.generation == self.generation {
            return false;
        }
        self.assignments = snapshot.assignments;
        self.generation = snapshot.generation;
        self.published = snapshot.dictionaries;
        true
    }

    /// Installs a dictionary for future blocks of a placement. The snapshot is the one
    /// that holds it, where dictionaries are published to other stripes too.
    pub fn install_dictionary(
        &mut self,
        placement: CompressionPlacementId,
        id: DictionaryId,
        payload: Vec<u8>,
        snapshot: Option<DictionarySnapshot>,
    ) -> (result: Result<DictionaryInsert, LogDbError>)
        requires
            old(self).well_formed(),
        ensures
            final(self).well_formed(),
            ({
                let known = match snapshot {
                    Some(snapshot) => adopted(old(self)@, snapshot),
                    None => DictionariesModel {
                        assigned: old(self)@.assigned.push((placement, id)),
                        ..old(self)@
                    },
                };
                match cache_with(known.cached, known.capacity, id, payload@) {
                    Ok(cached) => {
                        let rest = without(known.cached, id);
                        &&& final(self)@ == (DictionariesModel { cached, ..known })
                        &&& result matches Ok(insert)
                        &&& insert.evicted@ == Seq::new(
                            leaving(rest, payload@.len(), known.capacity),
                            |i: int| rest[i].0,
                        )
                    },
                    Err(fault) => final(self)@ == known && result == Err::<DictionaryInsert, _>(
                        fault,
                    ),
                }
            }),
    {
        match snapshot {
            Some(snapshot) => {
                self.refresh_dictionary_catalog(snapshot);
            },
            None => {
                self.assignments.push((placement, id));
            },
        }
        self.cache.insert(id, payload)
    }
}

/// What is installed for a placement is what its next block uses, and the next lookup
/// finds it.
pub proof fn installed_dictionary_is_resolved(
    state: DictionariesModel,
    placement: CompressionPlacementId,
    id: DictionaryId,
    payload: Seq<u8>,
)
    requires
        payload.len() <= state.capacity,
        forall|i: int, j: int|
            0 <= i < j < state.cached.len() ==> (#[trigger] state.cached[i]).0 != (
            #[trigger] state.cached[j]).0,
    ensures
        ({
            let after = DictionariesModel {
                assigned: state.assigned.push((placement, id)),
                cached: cache_with(state.cached, state.capacity, id, payload)->Ok_0,
                ..state
            };
            &&& cache_with(state.cached, state.capacity, id, payload) is Ok
            &&& resolved(after, placement).1 == Ok::<_, LogDbError>(
                SelectionModel { dictionary_id: Some(id), payload: Some(payload) },
            )
            &&& resolved(after, placement).0 == after
        }),
{
    let rest = without(state.cached, id);
    let count = leaving(rest, payload.len(), state.capacity) as int;
    crate::dictionary_cache::lemma_without(state.cached, id);
    crate::dictionary_cache::lemma_leaving(rest, payload.len(), state.capacity);
    let kept = rest.subrange(count, rest.len() as int);
    let cached = kept.push((id, payload));
    let assigned = state.assigned.push((placement, id));
    assert(assigned.last() == (placement, id));
    assert forall|i: int| 0 <= i < kept.len() implies (#[trigger] kept[i]).0 != id by {
        assert(kept[i] == rest[count + i]);
    }
    crate::dictionary_cache::lemma_cached_from(cached, id, 0);
    let at = cached_from(cached, id, 0);
    assert(cached[kept.len() as int].0 == id);
    if at < kept.len() {
        assert(cached[at] == kept[at]);
    }
    assert(at == kept.len());
    assert(cached.remove(at) =~= kept);
}

} // verus!
