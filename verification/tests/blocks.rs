use shard_log::active_block::{PendingRecord, StripeCompressor};
use shard_log::hot_stripe::{HotStripe, RecordTraits};
use shard_log::stripe_blocks::{
    stage_active_block, ActiveBlockKey, BlockLimits, CompressionAssignment, CompressionBlockScore,
    StripeBlocks,
};
use shard_log::stripe_dictionaries::{
    CompressionPlacementId, DictionarySelection, DictionarySnapshot, StripeDictionaries,
};
use shard_log::{
    CompressionCohortId, DictionaryId, DurableLogRecord, LogDbError, LogQuery, LogicalOffset,
    LogicalPartitionId, RecordRef, ShardId, StripeConfig, TopicId, TopicPartition,
};

fn partition() -> TopicPartition {
    TopicPartition { topic_id: TopicId(9), partition_id: LogicalPartitionId(3) }
}

fn pending(offset: u64, message: &str, source_bytes: u64) -> PendingRecord {
    PendingRecord {
        record: DurableLogRecord {
            stream_shard_id: ShardId(7),
            record_ref: RecordRef { topic_partition: partition(), offset: LogicalOffset(offset) },
            timestamp_unix_nanos: offset * 10,
            message: message.to_owned(),
            fields: Vec::new(),
            compression_cohort: CompressionCohortId(4),
        },
        source_bytes,
        shape_hash: 0,
        locality_signature: 0,
    }
}

fn score(variance: u16) -> CompressionBlockScore {
    CompressionBlockScore {
        temperature: 5,
        shape_hash: 6,
        internal_variance_q8: variance,
        max_deviation: 1,
    }
}

fn assignment(placement: u64, variance: u16, record_indices: &[usize]) -> CompressionAssignment {
    CompressionAssignment {
        placement_id: CompressionPlacementId(placement),
        score: score(variance),
        record_indices: record_indices.to_vec(),
    }
}

fn blocks(target_block_bytes: u64, cache_bytes: usize) -> StripeBlocks {
    StripeBlocks::new(
        BlockLimits { target_block_bytes, split_variance_q8: 10 },
        StripeDictionaries::new(cache_bytes).expect("cache"),
    )
}

fn key_of(placement: u64, selection: &DictionarySelection) -> ActiveBlockKey {
    ActiveBlockKey {
        topic_partition: partition(),
        source_compression_cohort: CompressionCohortId(4),
        placement_id: CompressionPlacementId(placement),
        dictionary_id: selection.dictionary_id,
    }
}

fn collect(blocks: &mut StripeBlocks, placement: u64, record: PendingRecord) {
    let selection =
        blocks.dictionaries.resolve_dictionary(CompressionPlacementId(placement)).expect("resolved");
    let key = key_of(placement, &selection);
    blocks.collect(key, record, selection.payload);
}

fn offsets(block: &shard_log::ActiveBlock) -> Vec<u64> {
    block.records.iter().map(|pending| pending.record.record_ref.offset.0).collect()
}

#[test]
fn disabled_locality_seals_without_collator_work() {
    let mut blocks = blocks(1, 16);
    collect(&mut blocks, 4, pending(0, "repeated message", 20));
    assert!(blocks.next_work().is_some());
    blocks.seal_next();
    assert!(blocks.next_work().is_none());
    let sealed = blocks.take_sealed();
    assert_eq!(sealed.len(), 1);
    assert_eq!(sealed[0].key.placement_id, CompressionPlacementId(4));
    assert_eq!(sealed[0].score.temperature, 0);
    assert_eq!(sealed[0].score.internal_variance_q8, 0);
    assert!(blocks.take_sealed().is_empty());
}

#[test]
fn sealing_records_dictionary_identity() {
    let mut blocks = blocks(1, 8);
    blocks
        .dictionaries
        .install_dictionary(CompressionPlacementId(4), DictionaryId(11), b"dict".to_vec(), None)
        .expect("dictionary installs");
    collect(&mut blocks, 4, pending(0, "message", 31));
    blocks.seal_next();
    let sealed = blocks.take_sealed();
    let mut compressor = StripeCompressor::new(1);
    let structural = b"structural form of one message".to_vec();
    let (descriptor, stored) =
        stage_active_block(&mut compressor, ShardId(7), &sealed[0], &structural).expect("staged");
    assert_eq!(descriptor.dictionary_id, Some(DictionaryId(11)));
    assert_eq!(descriptor.stored_bytes, stored.len() as u64);
    assert_eq!(descriptor.structural_bytes, structural.len() as u64);
    assert_eq!(descriptor.source_bytes, 31);
    assert_eq!(descriptor.record_count, 1);
    assert_ne!(stored, structural);
    let decoded = zstd::bulk::Decompressor::with_dictionary(b"dict")
        .expect("decoder opens")
        .decompress(&stored, structural.len())
        .expect("payload decompresses");
    assert_eq!(decoded, structural);
}

#[test]
fn dictionary_rotation_only_affects_new_active_blocks_after_refresh() {
    let mut blocks = blocks(u64::MAX, 128);
    let snapshot = |generation, id, payload: &[u8]| DictionarySnapshot {
        generation,
        assignments: vec![(CompressionPlacementId(4), DictionaryId(id))],
        dictionaries: vec![(DictionaryId(id), payload.to_vec())],
    };
    assert!(blocks.dictionaries.refresh_dictionary_catalog(snapshot(1, 101, b"first dictionary")));
    collect(&mut blocks, 4, pending(0, "first message", 10));
    assert!(blocks.dictionaries.refresh_dictionary_catalog(snapshot(2, 102, b"second dictionary")));
    assert!(!blocks.dictionaries.refresh_dictionary_catalog(snapshot(2, 102, b"second dictionary")));
    collect(&mut blocks, 4, pending(1, "second message", 10));
    blocks.seal_active_blocks();
    while let Some((key, block)) = blocks.next_work() {
        let placement = key.placement_id.0;
        let indices: Vec<usize> = (0..block.records.len()).collect();
        blocks.rebalance_block(&vec![assignment(placement, 0, &indices)], true).expect("sealed");
    }
    let mut dictionary_ids: Vec<DictionaryId> = blocks
        .take_sealed()
        .iter()
        .map(|sealed| sealed.key.dictionary_id.expect("dictionary selected"))
        .collect();
    dictionary_ids.sort_unstable();
    assert_eq!(dictionary_ids, vec![DictionaryId(101), DictionaryId(102)]);
    assert_eq!(blocks.dictionaries.generation, 2);
}

#[test]
fn full_blocks_are_split_and_refill_others() {
    let mut blocks = blocks(40, 16);
    collect(&mut blocks, 4, pending(0, "a", 15));
    collect(&mut blocks, 4, pending(1, "b", 15));
    assert!(blocks.next_work().is_none());
    collect(&mut blocks, 4, pending(2, "a", 15));
    assert_eq!(blocks.held.len(), 0);
    assert_eq!(offsets(blocks.next_work().expect("full block").1), vec![0, 1, 2]);
    blocks
        .rebalance_block(&vec![assignment(4, 0, &[2, 0]), assignment(8, 0, &[1])], false)
        .expect("placed");
    assert!(blocks.next_work().is_none());
    assert_eq!(blocks.held.len(), 2);
    assert_eq!(offsets(&blocks.held[0].1), vec![0, 2]);
    assert_eq!(offsets(&blocks.held[1].1), vec![1]);

    collect(&mut blocks, 4, pending(3, "b", 15));
    blocks
        .rebalance_block(&vec![assignment(8, 0, &[2]), assignment(4, 0, &[0, 1])], false)
        .expect("placed");
    let merged = blocks.held.iter().find(|entry| entry.0.placement_id.0 == 8).expect("held");
    assert_eq!(offsets(&merged.1), vec![1, 3]);
    assert_eq!(merged.1.rebalance_passes, 2);
}

#[test]
fn blocks_are_sealed_after_their_last_pass() {
    let mut wide = blocks(10, 16);
    collect(&mut wide, 4, pending(0, "a", 15));
    for pass in 1..3 {
        wide.rebalance_block(&vec![assignment(4, 11, &[0])], false).expect("placed");
        assert_eq!(wide.next_work().expect("again").1.rebalance_passes, pass);
    }
    wide.rebalance_block(&vec![assignment(4, 11, &[0])], false).expect("placed");
    assert!(wide.next_work().is_none());
    assert_eq!(wide.take_sealed().len(), 1);

    let mut narrow = blocks(10, 16);
    collect(&mut narrow, 4, pending(0, "a", 15));
    narrow.rebalance_block(&vec![assignment(4, 10, &[0])], false).expect("placed");
    assert_eq!(narrow.take_sealed().len(), 1);
}

#[test]
fn dictionaries_that_cannot_be_had_are_reported() {
    let mut dictionaries = StripeDictionaries::new(4).expect("cache");
    assert!(StripeDictionaries::new(0).is_err());
    let none = dictionaries.resolve_dictionary(CompressionPlacementId(1)).expect("none");
    assert_eq!(none, DictionarySelection { dictionary_id: None, payload: None });
    dictionaries.refresh_dictionary_catalog(DictionarySnapshot {
        generation: 1,
        assignments: vec![
            (CompressionPlacementId(1), DictionaryId(1)),
            (CompressionPlacementId(2), DictionaryId(2)),
            (CompressionPlacementId(3), DictionaryId(3)),
        ],
        dictionaries: vec![(DictionaryId(2), b"large".to_vec()), (DictionaryId(3), b"fits".to_vec())],
    });
    assert_eq!(
        dictionaries.resolve_dictionary(CompressionPlacementId(1)),
        Err(LogDbError::MissingDictionary(1))
    );
    assert_eq!(
        dictionaries.resolve_dictionary(CompressionPlacementId(2)),
        Err(LogDbError::DictionaryTooLarge { dictionary_bytes: 5, cache_bytes: 4 })
    );
    let found = dictionaries.resolve_dictionary(CompressionPlacementId(3)).expect("found");
    assert_eq!(found.payload, Some(b"fits".to_vec()));
    assert!(dictionaries.cache.contains(DictionaryId(3)));
    let snapshot = DictionarySnapshot {
        generation: 2,
        assignments: vec![(CompressionPlacementId(9), DictionaryId(9))],
        dictionaries: vec![(DictionaryId(9), b"new".to_vec())],
    };
    let inserted = dictionaries
        .install_dictionary(CompressionPlacementId(9), DictionaryId(9), b"new".to_vec(), Some(snapshot))
        .expect("installed");
    assert_eq!(inserted.evicted, vec![DictionaryId(3)]);
    assert_eq!(dictionaries.generation, 2);
}

#[test]
fn refused_records_are_neither_indexed_nor_collected() {
    let config = StripeConfig {
        target_block_bytes: 100,
        dictionary_cache_bytes: 16,
        compression_level: 1,
    };
    let mut stripe = HotStripe::new(ShardId(7), config, 10).ok().expect("valid limits");
    assert!(HotStripe::new(ShardId(7), StripeConfig { target_block_bytes: 0, ..config }, 10)
        .is_err());
    assert!(HotStripe::new(ShardId(7), StripeConfig { compression_level: 1_000, ..config }, 10)
        .is_err());
    let traits = |source_bytes, placement| RecordTraits {
        source_bytes,
        placement_id: CompressionPlacementId(placement),
        shape_hash: 1,
        locality_signature: 2,
    };
    let terms = vec!["message".to_owned()];
    let record = |offset| pending(offset, "message", 0).record;
    let receipt = stripe.apply_durable(record(3), &terms, traits(Ok(10), 4)).expect("applied");
    assert_eq!(receipt.indexed_through, LogicalOffset(3));
    assert!(stripe.apply_durable(record(3), &terms, traits(Ok(10), 4)).is_err());
    assert!(stripe.apply_durable(record(2), &terms, traits(Ok(10), 4)).is_err());
    assert_eq!(
        stripe.apply_durable(record(4), &terms, traits(Err(LogDbError::RecordTooLarge), 4)).err(),
        Some(LogDbError::RecordTooLarge)
    );
    stripe.blocks.dictionaries.refresh_dictionary_catalog(DictionarySnapshot {
        generation: 1,
        assignments: vec![(CompressionPlacementId(5), DictionaryId(6))],
        dictionaries: Vec::new(),
    });
    assert_eq!(
        stripe.apply_durable(record(4), &terms, traits(Ok(10), 5)).err(),
        Some(LogDbError::MissingDictionary(6))
    );
    assert_eq!(stripe.index.hot_records(partition()), 1);
    assert_eq!(stripe.blocks.held.len(), 1);
    stripe.apply_durable(record(4), &terms, traits(Ok(95), 4)).expect("applied");
    assert_eq!(offsets(stripe.blocks.next_work().expect("full").1), vec![3, 4]);
    let found = stripe.index.query(&LogQuery::new(partition()).with_term("message"));
    assert_eq!(found.len(), 2);
}

#[test]
fn sealed_blocks_are_stored_by_the_stripe() {
    let config = StripeConfig {
        target_block_bytes: 1,
        dictionary_cache_bytes: 16,
        compression_level: 1,
    };
    let mut stripe = HotStripe::new(ShardId(7), config, 10).ok().expect("valid limits");
    let traits = RecordTraits {
        source_bytes: Ok(10),
        placement_id: CompressionPlacementId(4),
        shape_hash: 0,
        locality_signature: 0,
    };
    stripe
        .apply_durable(pending(0, "message", 0).record, &vec!["message".to_owned()], traits)
        .expect("applied");
    stripe.blocks.seal_next();
    let sealed = stripe.blocks.take_sealed();
    let structural = vec![7u8; 500];
    let (descriptor, stored) =
        stage_active_block(&mut stripe.compressor, ShardId(7), &sealed[0], &structural)
            .expect("staged");
    assert_eq!(descriptor.dictionary_id, None);
    assert_eq!(descriptor.structural_bytes, 500);
    assert!(descriptor.stored_bytes < 500);
    assert_eq!(
        zstd::bulk::decompress(&stored, structural.len()).expect("payload decompresses"),
        structural
    );
}
