//! Index and blocks of one stripe, which take every record together.
use vstd::prelude::*;

use crate::active_block::{PendingModel, PendingRecord, StripeCompressor, StripeConfig};
use crate::error::LogDbError;
use crate::log_query::{search_forms, DurableLogRecord, RecordModel};
use crate::log_stripe::{durable_fault, no_records, IndexReceipt, LogStripe};
use crate::partition_index::appended;
use crate::record::{ShardId, TopicPartition};
use crate::stripe_blocks::{
    collected, held_block, ActiveBlockKey, BlockLimits, StageModel, StripeBlocks,
};
use crate::stripe_dictionaries::{
    resolved, CompressionPlacementId, DictionariesModel, StripeDictionaries,
};

verus! {

broadcast use vstd::seq_lib::group_seq_properties;

/// What is known of a record before it is collected.
#[derive(Debug)]
pub struct RecordTraits {
    /// Bytes of the record before compression, or why they cannot be counted.
    pub source_bytes: Result<u64, LogDbError>,
    /// Placement that the record starts in.
    pub placement_id: CompressionPlacementId,
    /// Hash of the message's shape.
    pub shape_hash: u64,
    /// Signature that places similar messages together.
    pub locality_signature: u64,
}

/// The record as its block holds it.
pub open spec fn pending_of(record: RecordModel, traits: RecordTraits) -> PendingModel {
    PendingModel {
        record,
        source_bytes: traits.source_bytes->Ok_0,
        shape_hash: traits.shape_hash,
        locality_signature: traits.locality_signature,
    }
}

/// Key of the block that collects a record.
pub open spec fn first_key(
    record: RecordModel,
    traits: RecordTraits,
    dictionary_id: Option<crate::dictionary_cache::DictionaryId>,
) -> ActiveBlockKey {
    ActiveBlockKey {
        topic_partition: record.reference.topic_partition,
        source_compression_cohort: record.cohort,
        placement_id: traits.placement_id,
        dictionary_id,
    }
}

/// The blocks with the dictionary of a placement looked up.
pub open spec fn looked_up(blocks: StageModel, placement: CompressionPlacementId) -> StageModel {
    StageModel { dictionaries: resolved(blocks.dictionaries, placement).0, ..blocks }
}

/// Index and blocks of one stripe.
pub struct HotStripe {
    /// The index.
    pub index: LogStripe,
    /// The blocks.
    pub blocks: StripeBlocks,
    /// Encoder of the blocks.
    pub compressor: StripeCompressor,
}

impl HotStripe {
    /// Index and blocks are well formed.
    pub open spec fn well_formed(self) -> bool {
        self.index.well_formed() && self.blocks.well_formed()
    }

    /// A stripe without records; a full block whose variance is above the split variance
    /// is redistributed.
    pub fn new(stream_shard_id: ShardId, config: StripeConfig, split_variance_q8: u16) -> (result:
        Result<Self, LogDbError>)
        ensures
            match (result, config.fault()) {
                (Ok(stripe), None) => {
                    &&& stripe.well_formed()
                    &&& stripe.index.stream_shard_id == stream_shard_id
                    &&& stripe.index.appends@.len() == 0
                    &&& forall|p: TopicPartition| #[trigger] stripe.index.model(p) == no_records()
                    &&& stripe.blocks.limits == (BlockLimits {
                        target_block_bytes: config.target_block_bytes,
                        split_variance_q8,
                    })
                    &&& stripe.blocks@ == (StageModel {
                        held: Seq::empty(),
                        dictionaries: DictionariesModel {
                            assigned: Seq::empty(),
                            cached: Seq::empty(),
                            capacity: config.dictionary_cache_bytes as nat,
                            published: Seq::empty(),
                            generation: 0,
                        },
                        work: Seq::empty(),
                        sealed: Seq::empty(),
                    })
                    &&& stripe.compressor.zstd_level == config.compression_level
                    &&& stripe.compressor.active_dictionary is None
                    &&& stripe.compressor.active_payload@.len() == 0
                },
                (Err(error), Some(fault)) => error == LogDbError::InvalidConfig(fault),
                _ => false,
            },
    {
        match config.validate() {
            Ok(_) => {},
            Err(error) => return Err(error),
        }
        let dictionaries = match StripeDictionaries::new(config.dictionary_cache_bytes) {
            Ok(dictionaries) => dictionaries,
            Err(error) => return Err(error),
        };
        let limits = BlockLimits {
            target_block_bytes: config.target_block_bytes,
            split_variance_q8,
        };
        Ok(
            HotStripe {
                index: LogStripe::new(stream_shard_id),
                blocks: StripeBlocks::new(limits, dictionaries),
                compressor: StripeCompressor::new(config.compression_level),
            },
        )
    }

    /// Applies a record only after its append is durable: it is collected in the block of
    /// its placement and becomes visible. A record that is refused is neither indexed nor
    /// collected.
    pub fn apply_durable(
        &mut self,
        record: DurableLogRecord,
        terms: &Vec<String>,
        traits: RecordTraits,
    ) -> (result: Result<IndexReceipt, LogDbError>)
        requires
            old(self).well_formed(),
            resolved(old(self).blocks@.dictionaries, traits.placement_id).1 matches Ok(selection)
                ==> (held_block(
                old(self).blocks@.held,
                first_key(record@, traits, selection.dictionary_id),
            ) matches Some(block) ==> block.pending.len() < u32::MAX),
        ensures
            final(self).well_formed(),
            final(self).blocks.limits == old(self).blocks.limits,
            final(self).compressor == old(self).compressor,
            ({
                let partition = record@.reference.topic_partition;
                let model = old(self).index.model(partition);
                let before = old(self).blocks@;
                let known = looked_up(before, traits.placement_id);
                let same_index = final(self).index == old(self).index;
                match (
                    durable_fault(old(self).index, record@),
                    traits.source_bytes,
                    resolved(before.dictionaries, traits.placement_id).1,
                ) {
                    (Some(fault), _, _) => same_index && final(self).blocks@ == before && result
                        == Err::<IndexReceipt, _>(fault),
                    (None, Err(fault), _) => same_index && final(self).blocks@ == before && result
                        == Err::<IndexReceipt, _>(fault),
                    (None, Ok(_), Err(fault)) => same_index && final(self).blocks@ == known
                        && result == Err::<IndexReceipt, _>(fault),
                    (None, Ok(_), Ok(selection)) => if model.records.len() >= u32::MAX {
                        same_index && final(self).blocks@ == known && result == Err::<
                            IndexReceipt,
                            _,
                        >(LogDbError::RecordTooLarge)
                    } else {
                        &&& final(self).blocks@ == collected(
                            known,
                            first_key(record@, traits, selection.dictionary_id),
                            pending_of(record@, traits),
                            selection.payload,
                            old(self).blocks.limits.target_block_bytes,
                        )
                        &&& final(self).index.differs_in(
                            old(self).index,
                            partition,
                            appended(model, record@, search_forms(terms@)),
                        )
                        &&& result == Ok::<_, LogDbError>(
                            IndexReceipt {
                                record_ref: record@.reference,
                                indexed_through: record@.reference.offset,
                            },
                        )
                    },
                }
            }),
    {
        match self.index.check_durable(&record) {
            Ok(_) => {},
            Err(error) => return Err(error),
        }
        let source_bytes: u64 = match traits.source_bytes {
            Ok(bytes) => bytes,
            Err(error) => return Err(error),
        };
        let selection = match self.blocks.dictionaries.resolve_dictionary(traits.placement_id) {
            Ok(selection) => selection,
            Err(error) => return Err(error),
        };
        let partition = record.record_ref.topic_partition;
        if self.index.hot_records(partition) as u64 >= u32::MAX as u64 {
            return Err(LogDbError::RecordTooLarge);
        }
        let key = ActiveBlockKey {
            topic_partition: partition,
            source_compression_cohort: record.compression_cohort,
            placement_id: traits.placement_id,
            dictionary_id: selection.dictionary_id,
        };
        let pending = PendingRecord {
            record: record.clone(),
            source_bytes,
            shape_hash: traits.shape_hash,
            locality_signature: traits.locality_signature,
        };
        proof {
            assert(self.blocks@ == looked_up(old(self).blocks@, traits.placement_id));
            assert(pending@ == pending_of(record@, traits));
        }
        self.blocks.collect(key, pending, selection.payload);
        self.index.apply_durable(record, terms)
    }
}

} // verus!
