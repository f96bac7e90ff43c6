//! Blocks that collect records until they are sealed.
use vstd::prelude::*;

use crate::compress::{
    zstd_compress_with_dictionary, zstd_dictionary_compressed, zstd_has_level, zstd_level,
};
use crate::dictionary_cache::DictionaryId;
use crate::error::{ConfigFault, LogDbError, LogDbFault};
use crate::log_query::{DurableLogRecord, RecordModel};
use crate::order::{arranged, is_order, order_of, stable_order};
use crate::record::LogicalOffset;

verus! {

broadcast use vstd::seq_lib::group_seq_properties;

/// Times a block is redistributed before it is sealed.
pub const MAX_REBALANCE_PASSES: u8 = 3;

/// Resource limits for one shard-aligned log stripe.
#[derive(Debug, Clone, Copy, PartialEq, Eq, Structural)]
pub struct StripeConfig {
    /// Approximate uncompressed byte threshold at which an active block seals.
    pub target_block_bytes: u64,
    /// Byte capacity of the stripe-local compression-dictionary cache.
    pub dictionary_cache_bytes: usize,
    /// Zstandard level of this stripe's encoder.
    pub compression_level: i32,
}

impl Default for StripeConfig {
    fn default() -> (config: Self)
        ensures
            config.target_block_bytes == 8 * 1024 * 1024,
            config.dictionary_cache_bytes == 16 * 1024 * 1024,
            config.compression_level == 1,
    {
        StripeConfig {
            target_block_bytes: 8 * 1024 * 1024,
            dictionary_cache_bytes: 16 * 1024 * 1024,
            compression_level: 1,
        }
    }
}

impl StripeConfig {
    /// What is wrong with the limits.
    pub open spec fn fault(self) -> Option<ConfigFault> {
        if self.target_block_bytes == 0 {
            Some(ConfigFault::TargetBlockBytes)
        } else if self.dictionary_cache_bytes == 0 {
            Some(ConfigFault::DictionaryCacheBytes)
        } else if !zstd_level(self.compression_level) {
            Some(ConfigFault::CompressionLevel)
        } else {
            None
        }
    }

    /// Checks the limits.
    pub fn validate(&self) -> (result: Result<(), LogDbError>)
        ensures
            match result {
                Ok(_) => self.fault() is None,
                Err(error) => self.fault() matches Some(fault) && error
                    == LogDbError::InvalidConfig(fault),
            },
    {
        self.validate_level(zstd_has_level(self.compression_level))
    }

    /// Checks the limits, given whether the compressor has the level.
    pub fn validate_level(&self, has_level: bool) -> (result: Result<(), LogDbError>)
        ensures
            result == if self.target_block_bytes == 0 {
                Err::<(), _>(LogDbError::InvalidConfig(ConfigFault::TargetBlockBytes))
            } else if self.dictionary_cache_bytes == 0 {
                Err(LogDbError::InvalidConfig(ConfigFault::DictionaryCacheBytes))
            } else if !has_level {
                Err(LogDbError::InvalidConfig(ConfigFault::CompressionLevel))
            } else {
                Ok(())
            },
    {
        if self.target_block_bytes == 0 {
            return Err(LogDbError::InvalidConfig(ConfigFault::TargetBlockBytes));
        }
        if self.dictionary_cache_bytes == 0 {
            return Err(LogDbError::InvalidConfig(ConfigFault::DictionaryCacheBytes));
        }
        if !has_level {
            return Err(LogDbError::InvalidConfig(ConfigFault::CompressionLevel));
        }
        Ok(())
    }
}

/// Record that waits for its block to be sealed.
#[derive(Debug)]
pub struct PendingRecord {
    /// The record.
    pub record: DurableLogRecord,
    /// Bytes of the record before compression.
    pub source_bytes: u64,
    /// Hash of the message's shape.
    pub shape_hash: u64,
    /// Signature that places similar messages together.
    pub locality_signature: u64,
}

/// Value of a pending record.
#[verifier::ext_equal]
pub struct PendingModel {
    /// The record.
    pub record: RecordModel,
    /// Bytes of the record before compression.
    pub source_bytes: u64,
    /// Hash of the message's shape.
    pub shape_hash: u64,
    /// Signature that places similar messages together.
    pub locality_signature: u64,
}

impl View for PendingRecord {
    type V = PendingModel;

    open spec fn view(&self) -> PendingModel {
        PendingModel {
            record: self.record@,
            source_bytes: self.source_bytes,
            shape_hash: self.shape_hash,
            locality_signature: self.locality_signature,
        }
    }
}

impl Clone for PendingRecord {
    fn clone(&self) -> (copy: Self)
        ensures
            copy@ == self@,
    {
        PendingRecord {
            record: self.record.clone(),
            source_bytes: self.source_bytes,
            shape_hash: self.shape_hash,
            locality_signature: self.locality_signature,
        }
    }
}

/// Values of pending records.
pub open spec fn pending_view(records: Seq<PendingRecord>) -> Seq<PendingModel> {
    records.map_values(|record: PendingRecord| record@)
}

impl PendingModel {
    /// Offset of the record.
    pub open spec fn offset(self) -> u64 {
        self.record.reference.offset.0
    }
}

/// Bytes of records before compression, at most `u64::MAX`.
pub open spec fn source_total(records: Seq<PendingModel>) -> u64
    decreases records.len(),
{
    if records.len() == 0 {
        0
    } else {
        source_total(records.drop_last()).saturating_add(records.last().source_bytes)
    }
}

/// Block that still collects records.
#[derive(Debug)]
pub struct ActiveBlock {
    /// Lowest offset.
    pub first_offset: LogicalOffset,
    /// Highest offset.
    pub last_offset: LogicalOffset,
    /// Number of records.
    pub record_count: u32,
    /// Bytes of the records before compression.
    pub source_bytes: u64,
    /// Lowest timestamp.
    pub min_timestamp_unix_nanos: u64,
    /// Highest timestamp.
    pub max_timestamp_unix_nanos: u64,
    /// Dictionary of the block.
    pub dictionary_payload: Option<Vec<u8>>,
    /// Times the block was redistributed.
    pub rebalance_passes: u8,
    /// The records.
    pub records: Vec<PendingRecord>,
}

/// The lower of two numbers.
pub open spec fn lower(a: u64, b: u64) -> u64 {
    if a < b {
        a
    } else {
        b
    }
}

/// The higher of two numbers.
pub open spec fn upper(a: u64, b: u64) -> u64 {
    if a < b {
        b
    } else {
        a
    }
}

fn min_of(a: u64, b: u64) -> (value: u64)
    ensures
        value == lower(a, b),
{
    if a < b {
        a
    } else {
        b
    }
}

fn max_of(a: u64, b: u64) -> (value: u64)
    ensures
        value == upper(a, b),
{
    if a < b {
        b
    } else {
        a
    }
}

impl ActiveBlock {
    /// The values of the records.
    pub open spec fn pending(self) -> Seq<PendingModel> {
        pending_view(self.records@)
    }

    /// The summary covers exactly the records.
    pub open spec fn well_formed(self) -> bool {
        let records = self.pending();
        &&& records.len() > 0
        &&& self.record_count == records.len()
        &&& forall|i: int|
            0 <= i < records.len() ==> self.first_offset.0 <= (#[trigger] records[i]).offset()
                <= self.last_offset.0 && self.min_timestamp_unix_nanos <= records[i].record.timestamp
                <= self.max_timestamp_unix_nanos
        &&& exists|i: int|
            0 <= i < records.len() && (#[trigger] records[i]).offset() == self.first_offset.0
        &&& exists|i: int|
            0 <= i < records.len() && (#[trigger] records[i]).offset() == self.last_offset.0
        &&& exists|i: int|
            0 <= i < records.len() && (#[trigger] records[i]).record.timestamp
                == self.min_timestamp_unix_nanos
        &&& exists|i: int|
            0 <= i < records.len() && (#[trigger] records[i]).record.timestamp
                == self.max_timestamp_unix_nanos
    }

    /// A block of one record.
    pub fn new(record: PendingRecord, dictionary_payload: Option<Vec<u8>>) -> (block: Self)
        ensures
            block.well_formed(),
            block.pending() == seq![record@],
            block.source_bytes == source_total(block.pending()),
            block.dictionary_payload == dictionary_payload,
            block.rebalance_passes == 0,
    {
        let offset = record.record.record_ref.offset;
        let timestamp: u64 = record.record.timestamp_unix_nanos;
        let source_bytes: u64 = record.source_bytes;
        let ghost model = record@;
        let mut records: Vec<PendingRecord> = Vec::new();
        records.push(record);
        let block = ActiveBlock {
            first_offset: offset,
            last_offset: offset,
            record_count: 1,
            source_bytes,
            min_timestamp_unix_nanos: timestamp,
            max_timestamp_unix_nanos: timestamp,
            dictionary_payload,
            rebalance_passes: 0,
            records,
        };
        proof {
            let pending = block.pending();
            assert(pending =~= seq![model]);
            assert(pending[0] == model);
            reveal_with_fuel(source_total, 2);
            assert(pending.drop_last() =~= Seq::<PendingModel>::empty());
        }
        block
    }

    /// Adds a record.
    pub fn append(&mut self, record: PendingRecord)
        requires
            old(self).well_formed(),
            old(self).record_count < u32::MAX,
        ensures
            final(self).well_formed(),
            final(self).pending() == old(self).pending().push(record@),
            final(self).source_bytes == old(self).source_bytes.saturating_add(record@.source_bytes),
            final(self).dictionary_payload == old(self).dictionary_payload,
            final(self).rebalance_passes == old(self).rebalance_passes,
    {
        let ghost before = self.pending();
        let ghost start = *self;
        let ghost model = record@;
        let offset: u64 = record.record.record_ref.offset.0;
        let timestamp: u64 = record.record.timestamp_unix_nanos;
        self.first_offset = LogicalOffset(min_of(self.first_offset.0, offset));
        self.last_offset = LogicalOffset(max_of(self.last_offset.0, offset));
        self.record_count = self.record_count + 1;
        self.source_bytes = self.source_bytes.saturating_add(record.source_bytes);
        self.min_timestamp_unix_nanos = min_of(self.min_timestamp_unix_nanos, timestamp);
        self.max_timestamp_unix_nanos = max_of(self.max_timestamp_unix_nanos, timestamp);
        self.records.push(record);
        proof {
            assert(self.pending() =~= before.push(model));
            lemma_summary_joins(start, *self, before, seq![model]);
        }
    }

    /// Adds the records of another block, in offset order where both are.
    pub fn append_block(&mut self, other: ActiveBlock)
        requires
            old(self).well_formed(),
            other.well_formed(),
            old(self).record_count + other.record_count <= u32::MAX,
        ensures
            final(self).well_formed(),
            final(self).pending() == merged_pending(old(self).pending(), other.pending()),
            final(self).source_bytes == old(self).source_bytes.saturating_add(other.source_bytes),
            final(self).dictionary_payload == old(self).dictionary_payload,
            final(self).rebalance_passes == if old(self).rebalance_passes < other.rebalance_passes {
                other.rebalance_passes
            } else {
                old(self).rebalance_passes
            },
    {
        let ghost start = *self;
        let ghost left_all = self.pending();
        let ghost right_all = other.pending();
        self.first_offset = LogicalOffset(min_of(self.first_offset.0, other.first_offset.0));
        self.last_offset = LogicalOffset(max_of(self.last_offset.0, other.last_offset.0));
        self.record_count = self.record_count + other.record_count;
        self.source_bytes = self.source_bytes.saturating_add(other.source_bytes);
        self.min_timestamp_unix_nanos = min_of(
            self.min_timestamp_unix_nanos,
            other.min_timestamp_unix_nanos,
        );
        self.max_timestamp_unix_nanos = max_of(
            self.max_timestamp_unix_nanos,
            other.max_timestamp_unix_nanos,
        );
        if self.rebalance_passes < other.rebalance_passes {
            self.rebalance_passes = other.rebalance_passes;
        }
        let merged = merge_pending(&self.records, &other.records);
        self.records = merged;
        proof {
            lemma_merge_members(left_all, right_all);
            lemma_summary_merges(start, other, *self);
        }
    }

    /// A block of several records, in offset order.
    pub fn from_records(
        records: &Vec<PendingRecord>,
        dictionary_payload: Option<Vec<u8>>,
        rebalance_passes: u8,
    ) -> (block: Self)
        requires
            0 < records@.len() <= u32::MAX,
        ensures
            block.well_formed(),
            block.pending() == by_offset(pending_view(records@)),
            block.source_bytes == source_total(block.pending()),
            block.dictionary_payload == dictionary_payload,
            block.rebalance_passes == rebalance_passes,
    {
        let ghost models = pending_view(records@);
        let mut keys: Vec<u128> = Vec::new();
        let mut index: usize = 0;
        while index < records.len()
            invariant
                index <= records@.len(),
                models == pending_view(records@),
                keys@.len() == index,
                forall|i: int| 0 <= i < index ==> keys@[i] == offset_keys(models)[i],
            decreases records@.len() - index,
        {
            keys.push(records[index].record.record_ref.offset.0 as u128);
            index = index + 1;
        }
        proof {
            assert(keys@ =~= offset_keys(models));
        }
        let order = stable_order(&keys);
        let ghost wanted = arranged(models, order@);
        proof {
            assert(wanted[0] == models[order@[0] as int]);
        }
        let mut block = ActiveBlock::new(records[order[0]].clone(), dictionary_payload);
        block.rebalance_passes = rebalance_passes;
        let mut place: usize = 1;
        proof {
            assert(block.pending() =~= wanted.subrange(0, 1));
        }
        while place < order.len()
            invariant
                1 <= place <= order@.len(),
                is_order(keys@, order@),
                keys@.len() == records@.len() <= u32::MAX,
                models == pending_view(records@),
                wanted == arranged(models, order@),
                block.well_formed(),
                block.pending() == wanted.subrange(0, place as int),
                block.source_bytes == source_total(block.pending()),
                block.dictionary_payload == dictionary_payload,
                block.rebalance_passes == rebalance_passes,
            decreases order@.len() - place,
        {
            let at: usize = order[place];
            let record = records[at].clone();
            proof {
                assert(wanted[place as int] == models[at as int]);
                assert(wanted.subrange(0, place + 1) =~= wanted.subrange(0, place as int).push(
                    wanted[place as int],
                ));
                assert(wanted.subrange(0, place + 1).drop_last() =~= wanted.subrange(
                    0,
                    place as int,
                ));
            }
            block.append(record);
            place = place + 1;
        }
        proof {
            assert(wanted.subrange(0, place as int) =~= wanted);
        }
        block
    }
}

/// Sort keys of pending records.
pub open spec fn offset_keys(records: Seq<PendingModel>) -> Seq<u128> {
    records.map_values(|record: PendingModel| record.offset() as u128)
}

/// Records in offset order.
pub open spec fn by_offset(records: Seq<PendingModel>) -> Seq<PendingModel> {
    arranged(records, order_of(offset_keys(records)))
}

/// Two lists merged: the record with the lower offset comes first, the left one
/// where both are equal.
pub open spec fn merged_pending(left: Seq<PendingModel>, right: Seq<PendingModel>) -> Seq<
    PendingModel,
>
    decreases left.len() + right.len(),
{
    if left.len() == 0 {
        right
    } else if right.len() == 0 {
        left
    } else if left[0].offset() <= right[0].offset() {
        seq![left[0]] + merged_pending(left.drop_first(), right)
    } else {
        seq![right[0]] + merged_pending(left, right.drop_first())
    }
}

/// Merges two lists of pending records.
fn merge_pending(left: &Vec<PendingRecord>, right: &Vec<PendingRecord>) -> (merged: Vec<
    PendingRecord,
>)
    ensures
        pending_view(merged@) == merged_pending(pending_view(left@), pending_view(right@)),
{
    let ghost l = pending_view(left@);
    let ghost r = pending_view(right@);
    let mut merged: Vec<PendingRecord> = Vec::new();
    let mut a: usize = 0;
    let mut b: usize = 0;
    proof {
        assert(l.subrange(0, l.len() as int) =~= l);
        assert(r.subrange(0, r.len() as int) =~= r);
        assert(pending_view(merged@) + merged_pending(l, r) =~= merged_pending(l, r));
    }
    while a < left.len() || b < right.len()
        invariant
            a <= left@.len(),
            b <= right@.len(),
            l == pending_view(left@),
            r == pending_view(right@),
            merged_pending(l, r) == pending_view(merged@) + merged_pending(
                l.subrange(a as int, l.len() as int),
                r.subrange(b as int, r.len() as int),
            ),
        decreases left@.len() - a + right@.len() - b,
    {
        let ghost rest_left = l.subrange(a as int, l.len() as int);
        let ghost rest_right = r.subrange(b as int, r.len() as int);
        let ghost before = pending_view(merged@);
        let take_left = b == right.len() || (a < left.len() && left[a].record.record_ref.offset.0
            <= right[b].record.record_ref.offset.0);
        if take_left {
            let record = left[a].clone();
            proof {
                assert(rest_left[0] == record@);
                assert(rest_left.drop_first() =~= l.subrange(a + 1, l.len() as int));
                if rest_right.len() == 0 {
                    let tail = rest_left.drop_first();
                    assert(merged_pending(tail, rest_right) =~= tail);
                    assert(rest_left =~= seq![rest_left[0]] + tail);
                }
                assert(pending_view(merged@.push(record)) =~= before.push(record@));
                let tail = merged_pending(rest_left.drop_first(), rest_right);
                assert(before + (seq![record@] + tail) =~= before.push(record@) + tail);
            }
            merged.push(record);
            a = a + 1;
        } else {
            let record = right[b].clone();
            proof {
                assert(rest_right[0] == record@);
                assert(rest_right.drop_first() =~= r.subrange(b + 1, r.len() as int));
                if rest_left.len() == 0 {
                    let tail = rest_right.drop_first();
                    assert(merged_pending(rest_left, tail) =~= tail);
                    assert(rest_right =~= seq![rest_right[0]] + tail);
                }
                assert(pending_view(merged@.push(record)) =~= before.push(record@));
                let tail = merged_pending(rest_left, rest_right.drop_first());
                assert(before + (seq![record@] + tail) =~= before.push(record@) + tail);
            }
            merged.push(record);
            b = b + 1;
        }
    }
    proof {
        let none = Seq::<PendingModel>::empty();
        assert(l.subrange(a as int, l.len() as int) =~= none);
        assert(r.subrange(b as int, r.len() as int) =~= none);
        assert(pending_view(merged@) + none =~= pending_view(merged@));
    }
    merged
}

proof fn lemma_merge_members(left: Seq<PendingModel>, right: Seq<PendingModel>)
    ensures
        merged_pending(left, right).len() == left.len() + right.len(),
        forall|i: int|
            0 <= i < left.len() ==> merged_pending(left, right).contains(#[trigger] left[i]),
        forall|i: int|
            0 <= i < right.len() ==> merged_pending(left, right).contains(#[trigger] right[i]),
        forall|i: int|
            0 <= i < merged_pending(left, right).len() ==> {
                let got = #[trigger] merged_pending(left, right)[i];
                left.contains(got) || right.contains(got)
            },
    decreases left.len() + right.len(),
{
    let all = merged_pending(left, right);
    if left.len() > 0 && right.len() > 0 {
        let from_left = left[0].offset() <= right[0].offset();
        let first = if from_left {
            left[0]
        } else {
            right[0]
        };
        let l = if from_left {
            left.drop_first()
        } else {
            left
        };
        let r = if from_left {
            right
        } else {
            right.drop_first()
        };
        let tail = merged_pending(l, r);
        lemma_merge_members(l, r);
        assert(all[0] == first);
        assert forall|i: int| 0 <= i < left.len() implies all.contains(#[trigger] left[i]) by {
            if !(from_left && i == 0) {
                let k = if from_left {
                    i - 1
                } else {
                    i
                };
                assert(l[k] == left[i]);
                assert(tail.contains(l[k]));
                let p = choose|p: int| 0 <= p < tail.len() && tail[p] == l[k];
                assert(all[p + 1] == left[i]);
            }
        }
        assert forall|i: int| 0 <= i < right.len() implies all.contains(#[trigger] right[i]) by {
            if from_left || i > 0 {
                let k = if from_left {
                    i
                } else {
                    i - 1
                };
                assert(r[k] == right[i]);
                assert(tail.contains(r[k]));
                let p = choose|p: int| 0 <= p < tail.len() && tail[p] == r[k];
                assert(all[p + 1] == right[i]);
            }
        }
        assert forall|i: int| 0 <= i < all.len() implies {
            let got = #[trigger] all[i];
            left.contains(got) || right.contains(got)
        } by {
            let got = all[i];
            if i == 0 {
                if from_left {
                    assert(left[0] == got);
                } else {
                    assert(right[0] == got);
                }
            } else {
                assert(tail[i - 1] == got);
                if l.contains(got) {
                    let k = choose|k: int| 0 <= k < l.len() && l[k] == got;
                    let m = if from_left {
                        k + 1
                    } else {
                        k
                    };
                    assert(left[m] == got);
                } else {
                    let k = choose|k: int| 0 <= k < r.len() && r[k] == got;
                    let m = if from_left {
                        k
                    } else {
                        k + 1
                    };
                    assert(right[m] == got);
                }
            }
        }
    } else if left.len() == 0 {
        assert forall|i: int| 0 <= i < right.len() implies all.contains(#[trigger] right[i]) by {
            assert(all[i] == right[i]);
        }
        assert forall|i: int| 0 <= i < all.len() implies {
            let got = #[trigger] all[i];
            left.contains(got) || right.contains(got)
        } by {
            assert(right[i] == all[i]);
        }
    } else {
        assert forall|i: int| 0 <= i < left.len() implies all.contains(#[trigger] left[i]) by {
            assert(all[i] == left[i]);
        }
        assert forall|i: int| 0 <= i < all.len() implies {
            let got = #[trigger] all[i];
            left.contains(got) || right.contains(got)
        } by {
            assert(left[i] == all[i]);
        }
    }
}

/// Records in ascending offset order.
pub open spec fn offsets_ascend(records: Seq<PendingModel>) -> bool {
    forall|i: int, j: int|
        0 <= i < j < records.len() ==> (#[trigger] records[i]).offset() <= (
        #[trigger] records[j]).offset()
}

/// Merging two blocks that are in offset order gives a block in offset order.
pub proof fn merging_keeps_offset_order(left: Seq<PendingModel>, right: Seq<PendingModel>)
    requires
        offsets_ascend(left),
        offsets_ascend(right),
    ensures
        offsets_ascend(merged_pending(left, right)),
    decreases left.len() + right.len(),
{
    if left.len() > 0 && right.len() > 0 {
        let from_left = left[0].offset() <= right[0].offset();
        let l = if from_left {
            left.drop_first()
        } else {
            left
        };
        let r = if from_left {
            right
        } else {
            right.drop_first()
        };
        let first = if from_left {
            left[0]
        } else {
            right[0]
        };
        let tail = merged_pending(l, r);
        let all = merged_pending(left, right);
        assert(offsets_ascend(l)) by {
            assert forall|i: int, j: int| 0 <= i < j < l.len() implies (
            #[trigger] l[i]).offset() <= (#[trigger] l[j]).offset() by {
                if from_left {
                    assert(left[i + 1].offset() <= left[j + 1].offset());
                }
            }
        }
        assert(offsets_ascend(r)) by {
            assert forall|i: int, j: int| 0 <= i < j < r.len() implies (
            #[trigger] r[i]).offset() <= (#[trigger] r[j]).offset() by {
                if !from_left {
                    assert(right[i + 1].offset() <= right[j + 1].offset());
                }
            }
        }
        merging_keeps_offset_order(l, r);
        lemma_merge_members(l, r);
        assert forall|i: int| 0 <= i < tail.len() implies first.offset() <= (
        #[trigger] tail[i]).offset() by {
            let got = tail[i];
            if l.contains(got) {
                let k = choose|k: int| 0 <= k < l.len() && l[k] == got;
                let m = if from_left {
                    k + 1
                } else {
                    k
                };
                assert(left[m] == got);
                if m > 0 {
                    assert(left[0].offset() <= left[m].offset());
                }
            } else {
                let k = choose|k: int| 0 <= k < r.len() && r[k] == got;
                let m = if from_left {
                    k
                } else {
                    k + 1
                };
                assert(right[m] == got);
                if m > 0 {
                    assert(right[0].offset() <= right[m].offset());
                }
            }
        }
        assert forall|i: int, j: int| 0 <= i < j < all.len() implies (
        #[trigger] all[i]).offset() <= (#[trigger] all[j]).offset() by {
            assert(all[j] == tail[j - 1]);
            if i > 0 {
                assert(all[i] == tail[i - 1]);
            }
        }
    }
}

proof fn lemma_summary_joins(
    start: ActiveBlock,
    after: ActiveBlock,
    before: Seq<PendingModel>,
    added: Seq<PendingModel>,
)
    requires
        start.well_formed(),
        start.pending() == before,
        added.len() == 1,
        after.pending() == before.push(added[0]),
        after.record_count == start.record_count + 1,
        after.first_offset.0 == lower(start.first_offset.0, added[0].offset()),
        after.last_offset.0 == upper(start.last_offset.0, added[0].offset()),
        after.min_timestamp_unix_nanos == lower(
            start.min_timestamp_unix_nanos,
            added[0].record.timestamp,
        ),
        after.max_timestamp_unix_nanos == upper(
            start.max_timestamp_unix_nanos,
            added[0].record.timestamp,
        ),
    ensures
        after.well_formed(),
{
    let records = after.pending();
    let n = before.len() as int;
    assert(records[n] == added[0]);
    assert forall|i: int| 0 <= i < before.len() implies records[i] == before[i] by {}
    let a = choose|i: int|
        0 <= i < before.len() && (#[trigger] before[i]).offset() == start.first_offset.0;
    let b = choose|i: int|
        0 <= i < before.len() && (#[trigger] before[i]).offset() == start.last_offset.0;
    let c = choose|i: int|
        0 <= i < before.len() && (#[trigger] before[i]).record.timestamp
            == start.min_timestamp_unix_nanos;
    let d = choose|i: int|
        0 <= i < before.len() && (#[trigger] before[i]).record.timestamp
            == start.max_timestamp_unix_nanos;
    assert(records[a].offset() == start.first_offset.0);
    assert(records[b].offset() == start.last_offset.0);
    assert(records[c].record.timestamp == start.min_timestamp_unix_nanos);
    assert(records[d].record.timestamp == start.max_timestamp_unix_nanos);
}

proof fn lemma_summary_merges(left: ActiveBlock, right: ActiveBlock, after: ActiveBlock)
    requires
        left.well_formed(),
        right.well_formed(),
        after.pending() == merged_pending(left.pending(), right.pending()),
        after.record_count == left.record_count + right.record_count,
        after.first_offset.0 == lower(left.first_offset.0, right.first_offset.0),
        after.last_offset.0 == upper(left.last_offset.0, right.last_offset.0),
        after.min_timestamp_unix_nanos == lower(
            left.min_timestamp_unix_nanos,
            right.min_timestamp_unix_nanos,
        ),
        after.max_timestamp_unix_nanos == upper(
            left.max_timestamp_unix_nanos,
            right.max_timestamp_unix_nanos,
        ),
    ensures
        after.well_formed(),
{
    let l = left.pending();
    let r = right.pending();
    let all = after.pending();
    lemma_merge_members(l, r);
    assert forall|i: int| 0 <= i < all.len() implies after.first_offset.0 <= (
    #[trigger] all[i]).offset() <= after.last_offset.0 && after.min_timestamp_unix_nanos
        <= all[i].record.timestamp <= after.max_timestamp_unix_nanos by {
        let got = all[i];
        if l.contains(got) {
            let k = choose|k: int| 0 <= k < l.len() && l[k] == got;
            assert(left.first_offset.0 <= l[k].offset());
        } else {
            let k = choose|k: int| 0 <= k < r.len() && r[k] == got;
            assert(right.first_offset.0 <= r[k].offset());
        }
    }
    let first = if left.first_offset.0 < right.first_offset.0 {
        l[choose|i: int|
            0 <= i < l.len() && (#[trigger] l[i]).offset() == left.first_offset.0]
    } else {
        r[choose|i: int|
            0 <= i < r.len() && (#[trigger] r[i]).offset() == right.first_offset.0]
    };
    let last = if left.last_offset.0 < right.last_offset.0 {
        r[choose|i: int|
            0 <= i < r.len() && (#[trigger] r[i]).offset() == right.last_offset.0]
    } else {
        l[choose|i: int|
            0 <= i < l.len() && (#[trigger] l[i]).offset() == left.last_offset.0]
    };
    let early = if left.min_timestamp_unix_nanos < right.min_timestamp_unix_nanos {
        l[choose|i: int|
            0 <= i < l.len() && (#[trigger] l[i]).record.timestamp
                == left.min_timestamp_unix_nanos]
    } else {
        r[choose|i: int|
            0 <= i < r.len() && (#[trigger] r[i]).record.timestamp
                == right.min_timestamp_unix_nanos]
    };
    let late = if left.max_timestamp_unix_nanos < right.max_timestamp_unix_nanos {
        r[choose|i: int|
            0 <= i < r.len() && (#[trigger] r[i]).record.timestamp
                == right.max_timestamp_unix_nanos]
    } else {
        l[choose|i: int|
            0 <= i < l.len() && (#[trigger] l[i]).record.timestamp
                == left.max_timestamp_unix_nanos]
    };
    assert(all.contains(first) && all.contains(last) && all.contains(early) && all.contains(late));
    let a = choose|i: int| 0 <= i < all.len() && all[i] == first;
    let b = choose|i: int| 0 <= i < all.len() && all[i] == last;
    let c = choose|i: int| 0 <= i < all.len() && all[i] == early;
    let d = choose|i: int| 0 <= i < all.len() && all[i] == late;
    assert(all[a].offset() == after.first_offset.0);
    assert(all[b].offset() == after.last_offset.0);
    assert(all[c].record.timestamp == after.min_timestamp_unix_nanos);
    assert(all[d].record.timestamp == after.max_timestamp_unix_nanos);
}

/// What becomes of a group of records after a redistribution.
#[derive(Debug, Clone, Copy, PartialEq, Eq, Structural)]
pub enum RebalanceStep {
    /// The group goes on collecting.
    Collect,
    /// The group is sealed.
    Seal,
    /// The group is redistributed once more.
    Redistribute,
}

/// Facts that decide about a group.
#[derive(Debug, Clone, Copy, PartialEq, Eq, Structural)]
pub struct RebalanceFacts {
    /// All blocks are being sealed.
    pub force_seal: bool,
    /// The group joined a block that was collecting.
    pub merged_existing: bool,
    /// The redistribution gave one group only.
    pub single_assignment: bool,
    /// The group stays in its placement.
    pub same_placement: bool,
    /// Variance of the group is within the split limit.
    pub low_variance: bool,
}

/// Decides what becomes of a group of records.
pub open spec fn rebalance_step_of(
    facts: RebalanceFacts,
    source_bytes: u64,
    target: u64,
    passes: u8,
) -> RebalanceStep {
    if facts.force_seal {
        RebalanceStep::Seal
    } else if source_bytes < target {
        RebalanceStep::Collect
    } else if (!facts.merged_existing && facts.single_assignment && facts.same_placement
        && facts.low_variance) || passes >= MAX_REBALANCE_PASSES {
        RebalanceStep::Seal
    } else {
        RebalanceStep::Redistribute
    }
}

/// Decides what becomes of a group of records.
pub fn rebalance_step(facts: RebalanceFacts, block: &ActiveBlock, target_block_bytes: u64) -> (step:
    RebalanceStep)
    ensures
        step == rebalance_step_of(
            facts,
            block.source_bytes,
            target_block_bytes,
            block.rebalance_passes,
        ),
{
    if facts.force_seal {
        return RebalanceStep::Seal;
    }
    if block.source_bytes < target_block_bytes {
        return RebalanceStep::Collect;
    }
    if (!facts.merged_existing && facts.single_assignment && facts.same_placement
        && facts.low_variance) || block.rebalance_passes >= MAX_REBALANCE_PASSES {
        return RebalanceStep::Seal;
    }
    RebalanceStep::Redistribute
}

/// Encoder of one stripe, which keeps the dictionary it loaded last.
#[derive(Debug)]
pub struct StripeCompressor {
    /// Zstandard level.
    pub zstd_level: i32,
    /// Dictionary that is loaded.
    pub active_dictionary: Option<DictionaryId>,
    /// Bytes of the dictionary that is loaded; none for no dictionary.
    pub active_payload: Vec<u8>,
}

/// Which dictionary an encoder uses for a block, or which one is missing.
pub open spec fn dictionary_for(
    active: Option<DictionaryId>,
    loaded: Seq<u8>,
    id: Option<DictionaryId>,
    payload: Option<Seq<u8>>,
) -> Result<Seq<u8>, LogDbError> {
    if active == id {
        Ok(loaded)
    } else {
        match (id, payload) {
            (Some(_), Some(bytes)) => Ok(bytes),
            (Some(missing), None) => Err(LogDbError::MissingDictionary(missing.0)),
            (None, _) => Ok(Seq::empty()),
        }
    }
}

impl StripeCompressor {
    /// An encoder without a dictionary.
    pub fn new(zstd_level: i32) -> (compressor: Self)
        ensures
            compressor.zstd_level == zstd_level,
            compressor.active_dictionary is None,
            compressor.active_payload@.len() == 0,
    {
        StripeCompressor { zstd_level, active_dictionary: None, active_payload: Vec::new() }
    }

    /// Compresses a block with its dictionary, which is loaded first where another
    /// one was in use.
    pub fn compress(
        &mut self,
        source: &[u8],
        dictionary_id: Option<DictionaryId>,
        dictionary_payload: Option<&Vec<u8>>,
    ) -> (result: Result<Vec<u8>, LogDbError>)
        ensures
            final(self).zstd_level == old(self).zstd_level,
            ({
                let payload = match dictionary_payload {
                    Some(bytes) => Some(bytes@),
                    None => None,
                };
                match dictionary_for(
                    old(self).active_dictionary,
                    old(self).active_payload@,
                    dictionary_id,
                    payload,
                ) {
                    Err(error) => result == Err::<Vec<u8>, _>(error) && *final(self) == *old(self),
                    Ok(dictionary) => {
                        &&& final(self).active_dictionary == dictionary_id
                        &&& final(self).active_payload@ == dictionary
                        &&& match (
                            zstd_dictionary_compressed(source@, old(self).zstd_level, dictionary),
                            result,
                        ) {
                            (Ok(block), Ok(bytes)) => bytes@ == block,
                            (Err(text), Err(error)) => error@ == LogDbFault::CompressionFailed(
                                text,
                            ),
                            _ => false,
                        }
                    },
                }
            }),
    {
        if self.active_dictionary != dictionary_id {
            let dictionary: Vec<u8> = match (dictionary_id, dictionary_payload) {
                (Some(_), Some(payload)) => {
                    let copy = crate::codec::copy_range(payload, 0, payload.len());
                    proof {
                        assert(payload@.subrange(0, payload@.len() as int) =~= payload@);
                    }
                    copy
                },
                (Some(missing), None) => {
                    return Err(LogDbError::MissingDictionary(missing.0));
                },
                (None, _) => Vec::new(),
            };
            self.active_payload = dictionary;
            self.active_dictionary = dictionary_id;
            proof {
                if dictionary_id is None {
                    assert(self.active_payload@ =~= Seq::<u8>::empty());
                }
            }
        }
        match zstd_compress_with_dictionary(source, self.zstd_level, &self.active_payload) {
            Ok(block) => Ok(block),
            Err(text) => Err(LogDbError::CompressionFailed(text)),
        }
    }
}

} // verus!
