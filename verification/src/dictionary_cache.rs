//! Stripe-local cache of compression dictionaries.
use vstd::prelude::*;

use crate::error::{ConfigFault, LogDbError};

verus! {

broadcast use vstd::seq_lib::group_seq_properties;

/// Immutable compression dictionary.
#[derive(Debug, Clone, Copy, PartialEq, Eq, PartialOrd, Ord, Hash, Structural)]
pub struct DictionaryId(pub u64);

/// Cached dictionaries, least recently used first.
pub type Cached = Seq<(DictionaryId, Seq<u8>)>;

/// Bytes of cached dictionaries.
pub open spec fn cached_bytes(cached: Cached) -> nat
    decreases cached.len(),
{
    if cached.len() == 0 {
        0
    } else {
        cached_bytes(cached.drop_last()) + cached.last().1.len()
    }
}

/// Place of a dictionary from `from` on, or the number of dictionaries.
pub open spec fn cached_from(cached: Cached, id: DictionaryId, from: int) -> int
    decreases cached.len() - from,
{
    if from >= cached.len() {
        cached.len() as int
    } else if cached[from].0 == id {
        from
    } else {
        cached_from(cached, id, from + 1)
    }
}

/// The cache without a dictionary.
pub open spec fn without(cached: Cached, id: DictionaryId) -> Cached {
    let at = cached_from(cached, id, 0);
    if at < cached.len() {
        cached.remove(at)
    } else {
        cached
    }
}

/// How many of the least recently used dictionaries leave so that `bytes` more fit.
pub open spec fn leaving(cached: Cached, bytes: nat, capacity: nat) -> nat
    decreases cached.len(),
{
    if cached.len() == 0 || cached_bytes(cached) + bytes <= capacity {
        0
    } else {
        1 + leaving(cached.drop_first(), bytes, capacity)
    }
}

/// Outcome of an insertion.
#[derive(Debug, PartialEq, Eq)]
pub struct DictionaryInsert {
    /// Dictionaries that left, least recently used first.
    pub evicted: Vec<DictionaryId>,
}

/// Byte-bounded cache that drops the least recently used dictionaries.
#[derive(Debug)]
pub struct DictionaryCache {
    /// Most bytes of all dictionaries.
    pub capacity_bytes: usize,
    /// Bytes of all dictionaries.
    pub used_bytes: usize,
    /// Dictionaries, least recently used first.
    pub entries: Vec<(DictionaryId, Vec<u8>)>,
}

impl View for DictionaryCache {
    type V = Cached;

    open spec fn view(&self) -> Cached {
        self.entries@.map_values(|entry: (DictionaryId, Vec<u8>)| (entry.0, entry.1@))
    }
}

pub proof fn lemma_cached_from(cached: Cached, id: DictionaryId, from: int)
    requires
        0 <= from <= cached.len(),
    ensures
        from <= cached_from(cached, id, from) <= cached.len(),
        cached_from(cached, id, from) < cached.len() ==> cached[cached_from(cached, id, from)].0
            == id,
        forall|i: int| from <= i < cached_from(cached, id, from) ==> (#[trigger] cached[i]).0 != id,
    decreases cached.len() - from,
{
    if from < cached.len() && cached[from].0 != id {
        lemma_cached_from(cached, id, from + 1);
    }
}

proof fn lemma_bytes_remove(cached: Cached, at: int)
    requires
        0 <= at < cached.len(),
    ensures
        cached_bytes(cached.remove(at)) + cached[at].1.len() == cached_bytes(cached),
    decreases cached.len(),
{
    let rest = cached.remove(at);
    if at == cached.len() - 1 {
        assert(rest =~= cached.drop_last());
    } else {
        assert(rest.drop_last() =~= cached.drop_last().remove(at));
        assert(rest.last() == cached.last());
        lemma_bytes_remove(cached.drop_last(), at);
    }
}

impl DictionaryCache {
    /// The counter agrees with the dictionaries, which occur once each and fit.
    pub open spec fn well_formed(self) -> bool {
        &&& self.used_bytes == cached_bytes(self@)
        &&& self.used_bytes <= self.capacity_bytes
        &&& forall|i: int, j: int|
            0 <= i < j < self@.len() ==> (#[trigger] self@[i]).0 != (#[trigger] self@[j]).0
    }

    /// Opens an empty cache.
    pub fn new(capacity_bytes: usize) -> (result: Result<Self, LogDbError>)
        ensures
            match result {
                Ok(cache) => capacity_bytes > 0 && cache.well_formed() && cache@ == Cached::empty()
                    && cache.capacity_bytes == capacity_bytes,
                Err(error) => capacity_bytes == 0 && error == LogDbError::InvalidConfig(
                    ConfigFault::DictionaryCacheBytes,
                ),
            },
    {
        if capacity_bytes == 0 {
            return Err(LogDbError::InvalidConfig(ConfigFault::DictionaryCacheBytes));
        }
        let cache = DictionaryCache { capacity_bytes, used_bytes: 0, entries: Vec::new() };
        proof {
            assert(cache@ =~= Cached::empty());
        }
        Ok(cache)
    }

    fn place(&self, id: DictionaryId) -> (at: usize)
        ensures
            at == cached_from(self@, id, 0),
            at <= self.entries@.len(),
    {
        let mut at: usize = 0;
        while at < self.entries.len() && self.entries[at].0 != id
            invariant
                at <= self.entries@.len(),
                cached_from(self@, id, 0) == cached_from(self@, id, at as int),
            decreases self.entries@.len() - at,
        {
            proof {
                assert(self@[at as int].0 == self.entries@[at as int].0);
            }
            at = at + 1;
        }
        proof {
            if at < self.entries@.len() {
                assert(self@[at as int].0 == self.entries@[at as int].0);
            }
        }
        at
    }

    /// Whether a dictionary is cached.
    pub fn contains(&self, id: DictionaryId) -> (cached: bool)
        ensures
            cached == (cached_from(self@, id, 0) < self@.len()),
    {
        self.place(id) < self.entries.len()
    }

    /// Reads a dictionary, which then counts as the most recently used one.
    pub fn get(&mut self, id: DictionaryId) -> (payload: Option<Vec<u8>>)
        requires
            old(self).well_formed(),
        ensures
            final(self).well_formed(),
            final(self).capacity_bytes == old(self).capacity_bytes,
            ({
                let at = cached_from(old(self)@, id, 0);
                match payload {
                    Some(bytes) => at < old(self)@.len() && bytes@ == old(self)@[at].1
                        && final(self)@ == without(old(self)@, id).push((id, bytes@)),
                    None => at == old(self)@.len() && final(self)@ == old(self)@,
                }
            }),
    {
        let at: usize = self.place(id);
        if at == self.entries.len() {
            return None;
        }
        let ghost before = self@;
        proof {
            lemma_cached_from(before, id, 0);
            lemma_bytes_remove(before, at as int);
        }
        let entry = self.entries.remove(at);
        let payload = crate::codec::copy_range(&entry.1, 0, entry.1.len());
        proof {
            assert(entry.1@.subrange(0, entry.1@.len() as int) =~= entry.1@);
            assert(before[at as int] == (entry.0, entry.1@));
            assert(self@ =~= before.remove(at as int));
        }
        self.entries.push(entry);
        proof {
            let rest = before.remove(at as int);
            assert(self@ =~= rest.push(before[at as int]));
            assert(self@.drop_last() =~= rest);
            lemma_move_keeps_unique(before, at as int);
        }
        Some(payload)
    }

    /// Drops the least recently used dictionary.
    fn evict(&mut self) -> (id: DictionaryId)
        requires
            old(self).well_formed(),
            old(self)@.len() > 0,
        ensures
            final(self).well_formed(),
            final(self).capacity_bytes == old(self).capacity_bytes,
            id == old(self)@[0].0,
            final(self)@ == old(self)@.drop_first(),
    {
        let ghost before = self@;
        proof {
            lemma_bytes_remove(before, 0);
            assert(before.remove(0) =~= before.drop_first());
        }
        let entry = self.entries.remove(0);
        proof {
            assert(before[0] == (entry.0, entry.1@));
            assert(self@ =~= before.drop_first());
        }
        self.used_bytes = self.used_bytes - entry.1.len();
        proof {
            assert forall|i: int, j: int| 0 <= i < j < self@.len() implies (
            #[trigger] self@[i]).0 != (#[trigger] self@[j]).0 by {
                assert(before[i + 1].0 != before[j + 1].0);
            }
        }
        entry.0
    }

    /// Caches a dictionary as the most recently used one; the least recently used
    /// ones leave until it fits.
    pub fn insert(&mut self, id: DictionaryId, payload: Vec<u8>) -> (result: Result<
        DictionaryInsert,
        LogDbError,
    >)
        requires
            old(self).well_formed(),
        ensures
            final(self).well_formed(),
            final(self).capacity_bytes == old(self).capacity_bytes,
            ({
                let capacity = old(self).capacity_bytes as nat;
                let rest = without(old(self)@, id);
                let count = leaving(rest, payload@.len(), capacity) as int;
                match result {
                    Ok(insert) => {
                        &&& payload@.len() <= capacity
                        &&& final(self)@ == rest.subrange(count, rest.len() as int).push(
                            (id, payload@),
                        )
                        &&& insert.evicted@ == Seq::new(count as nat, |i: int| rest[i].0)
                    },
                    Err(error) => payload@.len() > capacity && final(self)@ == old(self)@ && error
                        == (LogDbError::DictionaryTooLarge {
                        dictionary_bytes: payload@.len() as usize,
                        cache_bytes: old(self).capacity_bytes,
                    }),
                }
            }),
    {
        let size: usize = payload.len();
        if size > self.capacity_bytes {
            return Err(
                LogDbError::DictionaryTooLarge {
                    dictionary_bytes: size,
                    cache_bytes: self.capacity_bytes,
                },
            );
        }
        let ghost before = self@;
        let capacity: usize = self.capacity_bytes;
        let at: usize = self.place(id);
        proof {
            lemma_cached_from(before, id, 0);
        }
        if at < self.entries.len() {
            proof {
                lemma_bytes_remove(before, at as int);
            }
            let entry = self.entries.remove(at);
            self.used_bytes = self.used_bytes - entry.1.len();
            proof {
                assert(before[at as int] == (entry.0, entry.1@));
                assert(self@ =~= before.remove(at as int));
                lemma_remove_keeps_unique(before, at as int);
            }
        }
        let ghost rest = without(before, id);
        let ghost total = leaving(rest, size as nat, capacity as nat);
        let ghost mut gone: int = 0;
        let mut evicted: Vec<DictionaryId> = Vec::new();
        proof {
            lemma_without(before, id);
            assert(self@ =~= rest.subrange(0, rest.len() as int));
        }
        while self.entries.len() > 0 && self.used_bytes > capacity - size
            invariant
                self.well_formed(),
                self.capacity_bytes == capacity,
                size <= capacity,
                0 <= gone <= rest.len(),
                self@ == rest.subrange(gone, rest.len() as int),
                total == gone + leaving(self@, size as nat, capacity as nat),
                evicted@.len() == gone,
                forall|i: int| 0 <= i < gone ==> evicted@[i] == rest[i].0,
            decreases self@.len(),
        {
            let ghost now = self@;
            let dropped = self.evict();
            evicted.push(dropped);
            proof {
                assert(now.drop_first() =~= rest.subrange(gone + 1, rest.len() as int));
                gone = gone + 1;
            }
        }
        proof {
            assert(leaving(self@, size as nat, capacity as nat) == 0);
            assert(evicted@ =~= Seq::new(total, |i: int| rest[i].0));
        }
        let ghost kept = self@;
        self.used_bytes = self.used_bytes + size;
        self.entries.push((id, payload));
        proof {
            assert(self@ =~= kept.push((id, payload@)));
            assert(self@.drop_last() =~= kept);
            assert forall|i: int, j: int| 0 <= i < j < self@.len() implies (
            #[trigger] self@[i]).0 != (#[trigger] self@[j]).0 by {
                if j == kept.len() {
                    assert(kept[i] == rest[gone + i]);
                } else {
                    assert(kept[i].0 != kept[j].0);
                }
            }
        }
        Ok(DictionaryInsert { evicted })
    }
}

proof fn lemma_remove_keeps_unique(cached: Cached, at: int)
    requires
        0 <= at < cached.len(),
        forall|i: int, j: int|
            0 <= i < j < cached.len() ==> (#[trigger] cached[i]).0 != (#[trigger] cached[j]).0,
    ensures
        ({
            let rest = cached.remove(at);
            &&& forall|i: int, j: int|
                0 <= i < j < rest.len() ==> (#[trigger] rest[i]).0 != (#[trigger] rest[j]).0
            &&& forall|i: int| 0 <= i < rest.len() ==> (#[trigger] rest[i]).0 != cached[at].0
        }),
{
    let rest = cached.remove(at);
    assert forall|i: int, j: int| 0 <= i < j < rest.len() implies (#[trigger] rest[i]).0 != (
    #[trigger] rest[j]).0 by {
        let a = if i < at {
            i
        } else {
            i + 1
        };
        let b = if j < at {
            j
        } else {
            j + 1
        };
        assert(rest[i] == cached[a] && rest[j] == cached[b]);
    }
    assert forall|i: int| 0 <= i < rest.len() implies (#[trigger] rest[i]).0 != cached[at].0 by {
        let a = if i < at {
            i
        } else {
            i + 1
        };
        assert(rest[i] == cached[a]);
    }
}

proof fn lemma_move_keeps_unique(cached: Cached, at: int)
    requires
        0 <= at < cached.len(),
        forall|i: int, j: int|
            0 <= i < j < cached.len() ==> (#[trigger] cached[i]).0 != (#[trigger] cached[j]).0,
    ensures
        ({
            let moved = cached.remove(at).push(cached[at]);
            forall|i: int, j: int|
                0 <= i < j < moved.len() ==> (#[trigger] moved[i]).0 != (#[trigger] moved[j]).0
        }),
{
    lemma_remove_keeps_unique(cached, at);
    let rest = cached.remove(at);
    let moved = rest.push(cached[at]);
    assert forall|i: int, j: int| 0 <= i < j < moved.len() implies (#[trigger] moved[i]).0 != (
    #[trigger] moved[j]).0 by {
        assert(moved[i] == rest[i]);
        if j < rest.len() {
            assert(moved[j] == rest[j]);
        }
    }
}

pub proof fn lemma_leaving(cached: Cached, bytes: nat, capacity: nat)
    ensures
        leaving(cached, bytes, capacity) <= cached.len(),
    decreases cached.len(),
{
    if cached.len() > 0 {
        lemma_leaving(cached.drop_first(), bytes, capacity);
    }
}

pub proof fn lemma_without(cached: Cached, id: DictionaryId)
    requires
        forall|i: int, j: int|
            0 <= i < j < cached.len() ==> (#[trigger] cached[i]).0 != (#[trigger] cached[j]).0,
    ensures
        forall|i: int| 0 <= i < without(cached, id).len() ==> (#[trigger] without(cached, id)[i]).0
            != id,
{
    lemma_cached_from(cached, id, 0);
    let at = cached_from(cached, id, 0);
    if at < cached.len() {
        lemma_remove_keeps_unique(cached, at);
    }
}

} // verus!
