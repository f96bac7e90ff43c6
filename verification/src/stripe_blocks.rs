//! Collecting records in blocks and redistributing full blocks among placements.
use vstd::prelude::*;

use crate::active_block::{
    by_offset, dictionary_for, merged_pending, pending_view, rebalance_step, rebalance_step_of,
    source_total, ActiveBlock, PendingModel, PendingRecord, RebalanceFacts, RebalanceStep,
    StripeCompressor,
};
use crate::codec::copy_range;
use crate::compress::zstd_dictionary_compressed;
use crate::dictionary_cache::DictionaryId;
use crate::error::{LogDbError, LogDbFault};
use crate::record::{CompressionCohortId, LogicalOffset, ShardId, TopicPartition};
use crate::stripe_dictionaries::{
    payload_view, resolved, CompressionPlacementId, DictionariesModel, StripeDictionaries,
};

verus! {

broadcast use vstd::seq_lib::group_seq_properties;

/// Which records share a block.
#[derive(Debug, Clone, Copy, PartialEq, Eq)]
pub struct ActiveBlockKey {
    /// Partition of the records.
    pub topic_partition: TopicPartition,
    /// Source group of the records.
    pub source_compression_cohort: CompressionCohortId,
    /// Placement of the records.
    pub placement_id: CompressionPlacementId,
    /// Dictionary of the block.
    pub dictionary_id: Option<DictionaryId>,
}

fn same_key(a: &ActiveBlockKey, b: &ActiveBlockKey) -> (same: bool)
    ensures
        same == (*a == *b),
{
    a.topic_partition == b.topic_partition && a.source_compression_cohort
        == b.source_compression_cohort && a.placement_id == b.placement_id && a.dictionary_id
        == b.dictionary_id
}

/// Value of a block.
#[verifier::ext_equal]
pub struct BlockModel {
    /// The records.
    pub pending: Seq<PendingModel>,
    /// Bytes of the records before compression.
    pub source_bytes: u64,
    /// Dictionary of the block.
    pub dictionary: Option<Seq<u8>>,
    /// Times the block was redistributed.
    pub passes: u8,
}

/// Value of a block.
pub open spec fn block_view(block: ActiveBlock) -> BlockModel {
    BlockModel {
        pending: block.pending(),
        source_bytes: block.source_bytes,
        dictionary: payload_view(block.dictionary_payload),
        passes: block.rebalance_passes,
    }
}

/// Blocks under their keys.
pub type Held = Seq<(ActiveBlockKey, BlockModel)>;

/// Values of blocks under their keys.
pub open spec fn held_view(blocks: Seq<(ActiveBlockKey, ActiveBlock)>) -> Held {
    blocks.map_values(|entry: (ActiveBlockKey, ActiveBlock)| (entry.0, block_view(entry.1)))
}

/// Place of a key from `from` on, or the number of blocks.
pub open spec fn held_from(held: Held, key: ActiveBlockKey, from: int) -> int
    decreases held.len() - from,
{
    if from >= held.len() {
        held.len() as int
    } else if held[from].0 == key {
        from
    } else {
        held_from(held, key, from + 1)
    }
}

/// The block under a key, if there is one.
pub open spec fn held_block(held: Held, key: ActiveBlockKey) -> Option<BlockModel> {
    let at = held_from(held, key, 0);
    if at < held.len() {
        Some(held[at].1)
    } else {
        None
    }
}

/// The blocks but the one under a key.
pub open spec fn held_without(held: Held, key: ActiveBlockKey) -> Held {
    let at = held_from(held, key, 0);
    if at < held.len() {
        held.remove(at)
    } else {
        held
    }
}

/// Every key occurs once.
pub open spec fn distinct_keys(held: Held) -> bool {
    forall|i: int, j: int|
        0 <= i < j < held.len() ==> (#[trigger] held[i]).0 != (#[trigger] held[j]).0
}

/// Diagnostics of the records of a block.
#[derive(Debug, Clone, Copy, PartialEq, Eq, Structural)]
pub struct CompressionBlockScore {
    /// Signature around which the records lie.
    pub temperature: u64,
    /// Hash of the messages' shape.
    pub shape_hash: u64,
    /// Variance of the records.
    pub internal_variance_q8: u16,
    /// Largest deviation of a record.
    pub max_deviation: u8,
}

/// Records of a block that go to one placement.
#[derive(Debug)]
pub struct CompressionAssignment {
    /// Where the records go.
    pub placement_id: CompressionPlacementId,
    /// Diagnostics of the records.
    pub score: CompressionBlockScore,
    /// Places of the records in the block.
    pub record_indices: Vec<usize>,
}

/// Value of an assignment.
#[verifier::ext_equal]
pub struct AssignmentModel {
    /// Where the records go.
    pub placement_id: CompressionPlacementId,
    /// Diagnostics of the records.
    pub score: CompressionBlockScore,
    /// Places of the records in the block.
    pub indices: Seq<usize>,
}

impl View for CompressionAssignment {
    type V = AssignmentModel;

    open spec fn view(&self) -> AssignmentModel {
        AssignmentModel {
            placement_id: self.placement_id,
            score: self.score,
            indices: self.record_indices@,
        }
    }
}

/// Values of assignments.
pub open spec fn assignments_view(assignments: Seq<CompressionAssignment>) -> Seq<AssignmentModel> {
    assignments.map_values(|assignment: CompressionAssignment| assignment@)
}

/// Block that is ready to be compressed and stored.
#[derive(Debug)]
pub struct SealedBlock {
    /// Key of the block.
    pub key: ActiveBlockKey,
    /// The block.
    pub block: ActiveBlock,
    /// Diagnostics of its records.
    pub score: CompressionBlockScore,
}

/// Value of a sealed block.
#[verifier::ext_equal]
pub struct SealedModel {
    /// Key of the block.
    pub key: ActiveBlockKey,
    /// The block.
    pub block: BlockModel,
    /// Diagnostics of its records.
    pub score: CompressionBlockScore,
}

impl View for SealedBlock {
    type V = SealedModel;

    open spec fn view(&self) -> SealedModel {
        SealedModel { key: self.key, block: block_view(self.block), score: self.score }
    }
}

/// Values of sealed blocks.
pub open spec fn sealed_view(sealed: Seq<SealedBlock>) -> Seq<SealedModel> {
    sealed.map_values(|block: SealedBlock| block@)
}

/// Limits that decide when a block is sealed.
#[derive(Debug, Clone, Copy, PartialEq, Eq, Structural)]
pub struct BlockLimits {
    /// Bytes from which on a block is full.
    pub target_block_bytes: u64,
    /// Variance up to which a full block is sealed as it is.
    pub split_variance_q8: u16,
}

/// Value of the blocks of a stripe.
#[verifier::ext_equal]
pub struct StageModel {
    /// Blocks that collect records.
    pub held: Held,
    /// Dictionaries of the stripe.
    pub dictionaries: DictionariesModel,
    /// Blocks that wait to be redistributed, the next one last.
    pub work: Held,
    /// Blocks that were sealed.
    pub sealed: Seq<SealedModel>,
}

/// A block of one record.
pub open spec fn single_block(record: PendingModel, dictionary: Option<Seq<u8>>) -> BlockModel {
    BlockModel {
        pending: seq![record],
        source_bytes: source_total(seq![record]),
        dictionary,
        passes: 0,
    }
}

/// A block and one record more.
pub open spec fn grown_block(block: BlockModel, record: PendingModel) -> BlockModel {
    BlockModel {
        pending: block.pending.push(record),
        source_bytes: block.source_bytes.saturating_add(record.source_bytes),
        ..block
    }
}

/// A block and the records of another one.
pub open spec fn merged_block(left: BlockModel, right: BlockModel) -> BlockModel {
    BlockModel {
        pending: merged_pending(left.pending, right.pending),
        source_bytes: left.source_bytes.saturating_add(right.source_bytes),
        dictionary: left.dictionary,
        passes: if left.passes < right.passes {
            right.passes
        } else {
            left.passes
        },
    }
}

/// The blocks after a record was collected: a block that is full waits to be
/// redistributed.
pub open spec fn collected(
    state: StageModel,
    key: ActiveBlockKey,
    record: PendingModel,
    dictionary: Option<Seq<u8>>,
    target: u64,
) -> StageModel {
    let whole = match held_block(state.held, key) {
        Some(block) => grown_block(block, record),
        None => single_block(record, dictionary),
    };
    let rest = held_without(state.held, key);
    if whole.source_bytes >= target {
        StageModel { held: rest, work: state.work.push((key, whole)), ..state }
    } else {
        StageModel { held: rest.push((key, whole)), ..state }
    }
}

/// Block that is being redistributed.
#[verifier::ext_equal]
pub struct HomeModel {
    /// Its key.
    pub key: ActiveBlockKey,
    /// Its value.
    pub block: BlockModel,
    /// Number of placements that its records go to.
    pub assignment_count: nat,
}

/// Redistributions of the records, the current one counted.
pub open spec fn next_pass(block: BlockModel) -> u8 {
    block.passes.saturating_add(1)
}

/// Key and dictionary of the block that takes the records for a placement.
pub open spec fn target_of(
    state: DictionariesModel,
    home: HomeModel,
    placement: CompressionPlacementId,
) -> (DictionariesModel, Result<(ActiveBlockKey, Option<Seq<u8>>), LogDbError>) {
    if placement == home.key.placement_id {
        (state, Ok((home.key, home.block.dictionary)))
    } else {
        let (after, outcome) = resolved(state, placement);
        (
            after,
            match outcome {
                Ok(selection) => Ok(
                    (
                        ActiveBlockKey {
                            placement_id: placement,
                            dictionary_id: selection.dictionary_id,
                            ..home.key
                        },
                        selection.payload,
                    ),
                ),
                Err(error) => Err(error),
            },
        )
    }
}

/// The records at places of a block.
pub open spec fn records_at(records: Seq<PendingModel>, indices: Seq<usize>) -> Seq<PendingModel> {
    indices.map_values(|index: usize| records[index as int])
}

/// The records of an assignment as a block.
pub open spec fn group_of(
    home: HomeModel,
    assignment: AssignmentModel,
    dictionary: Option<Seq<u8>>,
) -> BlockModel {
    let pending = by_offset(records_at(home.block.pending, assignment.indices));
    BlockModel {
        pending,
        source_bytes: source_total(pending),
        dictionary,
        passes: next_pass(home.block),
    }
}

/// What becomes of a group: sealed at once where all blocks are being sealed; else it
/// joins the block under its key, and the whole goes on collecting, is sealed, or waits
/// to be redistributed again.
pub open spec fn group_placed(
    state: StageModel,
    home: HomeModel,
    assignment: AssignmentModel,
    key: ActiveBlockKey,
    group: BlockModel,
    force_seal: bool,
    limits: BlockLimits,
) -> StageModel {
    let existing = held_block(state.held, key);
    let rest = held_without(state.held, key);
    let whole = match existing {
        Some(block) if !force_seal => merged_block(block, group),
        _ => group,
    };
    let facts = RebalanceFacts {
        force_seal,
        merged_existing: existing is Some,
        single_assignment: home.assignment_count == 1,
        same_placement: key.placement_id == home.key.placement_id,
        low_variance: assignment.score.internal_variance_q8 <= limits.split_variance_q8,
    };
    let sealed = SealedModel { key, block: whole, score: assignment.score };
    match rebalance_step_of(facts, whole.source_bytes, limits.target_block_bytes, whole.passes) {
        RebalanceStep::Collect => StageModel { held: rest.push((key, whole)), ..state },
        RebalanceStep::Seal => StageModel {
            held: if force_seal {
                state.held
            } else {
                rest
            },
            sealed: state.sealed.push(sealed),
            ..state
        },
        RebalanceStep::Redistribute => StageModel {
            held: rest,
            work: state.work.push((key, whole)),
            ..state
        },
    }
}

/// The blocks after the records of one assignment were placed, and why they were not.
pub open spec fn placed(
    state: StageModel,
    home: HomeModel,
    assignment: AssignmentModel,
    force_seal: bool,
    limits: BlockLimits,
) -> (StageModel, Option<LogDbError>) {
    let (dictionaries, target) = target_of(
        state.dictionaries,
        home,
        assignment.placement_id,
    );
    let known = StageModel { dictionaries, ..state };
    match target {
        Err(error) => (known, Some(error)),
        Ok((key, dictionary)) => (
            group_placed(
                known,
                home,
                assignment,
                key,
                group_of(home, assignment, dictionary),
                force_seal,
                limits,
            ),
            None,
        ),
    }
}

/// The blocks after the records of assignments were placed, up to the first one that
/// cannot be.
pub open spec fn all_placed(
    state: StageModel,
    home: HomeModel,
    assignments: Seq<AssignmentModel>,
    force_seal: bool,
    limits: BlockLimits,
) -> (StageModel, Option<LogDbError>)
    decreases assignments.len(),
{
    if assignments.len() == 0 {
        (state, None)
    } else {
        let before = all_placed(state, home, assignments.drop_last(), force_seal, limits);
        if before.1 is Some {
            before
        } else {
            placed(before.0, home, assignments.last(), force_seal, limits)
        }
    }
}

/// The blocks while the next waiting one is taken out.
pub open spec fn taken_up(state: StageModel) -> StageModel {
    StageModel { work: state.work.drop_last(), ..state }
}

/// The next waiting block.
pub open spec fn home_of(state: StageModel, assignments: Seq<AssignmentModel>) -> HomeModel {
    HomeModel {
        key: state.work.last().0,
        block: state.work.last().1,
        assignment_count: assignments.len(),
    }
}

/// All places that assignments take.
pub open spec fn taken_places(assignments: Seq<AssignmentModel>) -> Seq<usize>
    decreases assignments.len(),
{
    if assignments.len() == 0 {
        Seq::empty()
    } else {
        taken_places(assignments.drop_last()) + assignments.last().indices
    }
}

/// Every assignment takes some of `count` records, and none is taken twice.
pub open spec fn takes_once(assignments: Seq<AssignmentModel>, count: nat) -> bool {
    &&& forall|i: int| 0 <= i < assignments.len() ==> (#[trigger] assignments[i]).indices.len() > 0
    &&& taken_places(assignments).no_duplicates()
    &&& forall|i: int|
        0 <= i < taken_places(assignments).len() ==> #[trigger] taken_places(assignments)[i]
            < count
}

/// The block that a group joins has room for its records.
pub open spec fn has_room(
    state: StageModel,
    home: HomeModel,
    assignment: AssignmentModel,
    force_seal: bool,
) -> bool {
    target_of(state.dictionaries, home, assignment.placement_id).1 matches Ok((key, _)) ==> (
    !force_seal ==> (held_block(state.held, key) matches Some(block) ==> block.pending.len()
        + assignment.indices.len() <= u32::MAX))
}

/// Every block that a group joins has room for its records.
pub open spec fn all_have_room(
    state: StageModel,
    home: HomeModel,
    assignments: Seq<AssignmentModel>,
    force_seal: bool,
    limits: BlockLimits,
) -> bool {
    forall|i: int|
        0 <= i < assignments.len() ==> has_room(
            all_placed(state, home, assignments.subrange(0, i), force_seal, limits).0,
            home,
            #[trigger] assignments[i],
            force_seal,
        )
}

/// Blocks of one stripe that are not stored yet.
#[derive(Debug)]
pub struct StripeBlocks {
    /// When a block is sealed.
    pub limits: BlockLimits,
    /// Blocks that collect records.
    pub held: Vec<(ActiveBlockKey, ActiveBlock)>,
    /// Dictionaries of the stripe.
    pub dictionaries: StripeDictionaries,
    /// Blocks that wait to be redistributed, the next one last.
    pub work: Vec<(ActiveBlockKey, ActiveBlock)>,
    /// Blocks that were sealed.
    pub sealed: Vec<SealedBlock>,
}

impl View for StripeBlocks {
    type V = StageModel;

    open spec fn view(&self) -> StageModel {
        StageModel {
            held: held_view(self.held@),
            dictionaries: self.dictionaries@,
            work: held_view(self.work@),
            sealed: sealed_view(self.sealed@),
        }
    }
}

pub proof fn lemma_held_from(held: Held, key: ActiveBlockKey, from: int)
    requires
        0 <= from <= held.len(),
    ensures
        from <= held_from(held, key, from) <= held.len(),
        held_from(held, key, from) < held.len() ==> held[held_from(held, key, from)].0 == key,
        forall|i: int| from <= i < held_from(held, key, from) ==> (#[trigger] held[i]).0 != key,
    decreases held.len() - from,
{
    if from < held.len() && held[from].0 != key {
        lemma_held_from(held, key, from + 1);
    }
}

/// The other blocks have other keys.
pub proof fn lemma_held_without(held: Held, key: ActiveBlockKey)
    requires
        distinct_keys(held),
    ensures
        distinct_keys(held_without(held, key)),
        forall|i: int|
            0 <= i < held_without(held, key).len() ==> (#[trigger] held_without(held, key)[i]).0
                != key && held.contains(held_without(held, key)[i]),
{
    lemma_held_from(held, key, 0);
    let at = held_from(held, key, 0);
    let rest = held_without(held, key);
    if at < held.len() {
        assert forall|i: int| 0 <= i < rest.len() implies (#[trigger] rest[i]).0 != key
            && held.contains(rest[i]) by {
            let a = if i < at {
                i
            } else {
                i + 1
            };
            assert(rest[i] == held[a]);
        }
        assert forall|i: int, j: int| 0 <= i < j < rest.len() implies (#[trigger] rest[i]).0 != (
        #[trigger] rest[j]).0 by {
            let a = if i < at {
                i
            } else {
                i + 1
            };
            let b = if j < at {
                j
            } else {
                j + 1
            };
            assert(rest[i] == held[a] && rest[j] == held[b]);
        }
    } else {
        assert forall|i: int| 0 <= i < rest.len() implies (#[trigger] rest[i]).0 != key
            && held.contains(rest[i]) by {
            assert(rest[i] == held[i]);
        }
    }
}

fn copy_payload(payload: &Option<Vec<u8>>) -> (copy: Option<Vec<u8>>)
    ensures
        payload_view(copy) == payload_view(*payload),
{
    match payload {
        Some(bytes) => {
            let copy = copy_range(bytes, 0, bytes.len());
            proof {
                assert(bytes@.subrange(0, bytes@.len() as int) =~= bytes@);
            }
            Some(copy)
        },
        None => None,
    }
}

fn copy_records(records: &Vec<PendingRecord>, indices: &Vec<usize>) -> (group: Vec<PendingRecord>)
    requires
        forall|i: int| 0 <= i < indices@.len() ==> #[trigger] indices@[i] < records@.len(),
    ensures
        pending_view(group@) == records_at(pending_view(records@), indices@),
{
    let mut group: Vec<PendingRecord> = Vec::new();
    let mut place: usize = 0;
    while place < indices.len()
        invariant
            place <= indices@.len(),
            forall|i: int| 0 <= i < indices@.len() ==> #[trigger] indices@[i] < records@.len(),
            group@.len() == place,
            forall|i: int|
                0 <= i < place ==> (#[trigger] group@[i])@ == records_at(
                    pending_view(records@),
                    indices@,
                )[i],
        decreases indices@.len() - place,
    {
        let record = records[indices[place]].clone();
        group.push(record);
        place = place + 1;
    }
    proof {
        assert(pending_view(group@) =~= records_at(pending_view(records@), indices@));
    }
    group
}

impl StripeBlocks {
    /// Every block is well formed; the blocks that collect have different keys and are not
    /// full.
    pub open spec fn well_formed(self) -> bool {
        &&& self.dictionaries.well_formed()
        &&& distinct_keys(self@.held)
        &&& forall|i: int|
            0 <= i < self.held@.len() ==> (#[trigger] self.held@[i]).1.well_formed()
                && self.held@[i].1.source_bytes < self.limits.target_block_bytes
        &&& forall|i: int| 0 <= i < self.work@.len() ==> (#[trigger] self.work@[i]).1.well_formed()
        &&& forall|i: int|
            0 <= i < self.sealed@.len() ==> (#[trigger] self.sealed@[i]).block.well_formed()
    }

    /// No blocks.
    pub fn new(limits: BlockLimits, dictionaries: StripeDictionaries) -> (blocks: Self)
        requires
            dictionaries.well_formed(),
        ensures
            blocks.well_formed(),
            blocks.limits == limits,
            blocks@ == (StageModel {
                held: Seq::empty(),
                dictionaries: dictionaries@,
                work: Seq::empty(),
                sealed: Seq::empty(),
            }),
    {
        let blocks = StripeBlocks {
            limits,
            held: Vec::new(),
            dictionaries,
            work: Vec::new(),
            sealed: Vec::new(),
        };
        proof {
            assert(blocks@.held =~= Seq::empty());
            assert(blocks@.work =~= Seq::empty());
            assert(blocks@.sealed =~= Seq::empty());
        }
        blocks
    }

    /// Takes out the block under a key.
    fn take_held(&mut self, key: ActiveBlockKey) -> (block: Option<ActiveBlock>)
        requires
            old(self).well_formed(),
        ensures
            final(self).well_formed(),
            final(self).limits == old(self).limits,
            final(self)@ == (StageModel { held: held_without(old(self)@.held, key), ..old(self)@ }),
            match (block, held_block(old(self)@.held, key)) {
                (Some(found), Some(wanted)) => found.well_formed() && block_view(found) == wanted,
                (None, None) => true,
                _ => false,
            },
    {
        let ghost before = self@.held;
        let ghost list = self.held@;
        let mut at: usize = 0;
        while at < self.held.len() && !same_key(&self.held[at].0, &key)
            invariant
                at <= self.held@.len(),
                before == held_view(self.held@),
                held_from(before, key, 0) == held_from(before, key, at as int),
            decreases self.held@.len() - at,
        {
            proof {
                assert(before[at as int].0 == self.held@[at as int].0);
            }
            at = at + 1;
        }
        proof {
            lemma_held_from(before, key, 0);
            lemma_held_without(before, key);
            if at < self.held@.len() {
                assert(before[at as int].0 == self.held@[at as int].0);
            }
            assert(held_from(before, key, 0) == at);
        }
        if at == self.held.len() {
            return None;
        }
        let entry = self.held.remove(at);
        proof {
            assert(before[at as int] == (entry.0, block_view(entry.1)));
            assert(self@.held =~= before.remove(at as int));
            assert forall|i: int| 0 <= i < self.held@.len() implies (
            #[trigger] self.held@[i]).1.well_formed() && self.held@[i].1.source_bytes
                < self.limits.target_block_bytes by {
                let a = if i < at {
                    i
                } else {
                    i + 1
                };
                assert(self.held@[i] == list[a]);
            }
        }
        Some(entry.1)
    }

    /// Holds a block that is not full under a key that is free.
    fn hold(&mut self, key: ActiveBlockKey, block: ActiveBlock)
        requires
            old(self).well_formed(),
            block.well_formed(),
            block.source_bytes < old(self).limits.target_block_bytes,
            forall|i: int| 0 <= i < old(self)@.held.len() ==> (#[trigger] old(self)@.held[i]).0
                != key,
        ensures
            final(self).well_formed(),
            final(self).limits == old(self).limits,
            final(self)@ == (StageModel {
                held: old(self)@.held.push((key, block_view(block))),
                ..old(self)@
            }),
    {
        let ghost before = self@.held;
        self.held.push((key, block));
        proof {
            assert(self@.held =~= before.push((key, block_view(block))));
            assert forall|i: int, j: int| 0 <= i < j < self@.held.len() implies (
            #[trigger] self@.held[i]).0 != (#[trigger] self@.held[j]).0 by {
                assert(self@.held[i] == before[i]);
                if j < before.len() {
                    assert(self@.held[j] == before[j]);
                }
            }
        }
    }

    /// Lets a block wait to be redistributed.
    fn defer(&mut self, key: ActiveBlockKey, block: ActiveBlock)
        requires
            old(self).well_formed(),
            block.well_formed(),
        ensures
            final(self).well_formed(),
            final(self).limits == old(self).limits,
            final(self)@ == (StageModel {
                work: old(self)@.work.push((key, block_view(block))),
                ..old(self)@
            }),
    {
        let ghost before = self@;
        self.work.push((key, block));
        proof {
            assert(self@.work =~= before.work.push((key, block_view(block))));
        }
    }

    /// Seals a block.
    fn seal(&mut self, key: ActiveBlockKey, block: ActiveBlock, score: CompressionBlockScore)
        requires
            old(self).well_formed(),
            block.well_formed(),
        ensures
            final(self).well_formed(),
            final(self).limits == old(self).limits,
            final(self)@ == (StageModel {
                sealed: old(self)@.sealed.push(
                    SealedModel { key, block: block_view(block), score },
                ),
                ..old(self)@
            }),
    {
        let ghost before = self@;
        self.sealed.push(SealedBlock { key, block, score });
        proof {
            assert(self@.sealed =~= before.sealed.push(
                SealedModel { key, block: block_view(block), score },
            ));
        }
    }

    /// Collects a record in the block under its key; the payload is the dictionary of a
    /// block that starts with the record. A block that is full waits to be redistributed.
    pub fn collect(
        &mut self,
        key: ActiveBlockKey,
        record: PendingRecord,
        dictionary_payload: Option<Vec<u8>>,
    )
        requires
            old(self).well_formed(),
            held_block(old(self)@.held, key) matches Some(block) ==> block.pending.len()
                < u32::MAX,
        ensures
            final(self).well_formed(),
            final(self).limits == old(self).limits,
            final(self)@ == collected(
                old(self)@,
                key,
                record@,
                payload_view(dictionary_payload),
                old(self).limits.target_block_bytes,
            ),
    {
        proof {
            lemma_held_without(self@.held, key);
        }
        let block = match self.take_held(key) {
            Some(mut block) => {
                block.append(record);
                block
            },
            None => ActiveBlock::new(record, dictionary_payload),
        };
        if block.source_bytes >= self.limits.target_block_bytes {
            self.defer(key, block);
        } else {
            self.hold(key, block);
        }
    }

    /// The block that is to be redistributed next, with its key.
    pub fn next_work(&self) -> (next: Option<(&ActiveBlockKey, &ActiveBlock)>)
        ensures
            match next {
                Some((key, block)) => self@.work.len() > 0 && self@.work.last() == (
                    *key,
                    block_view(*block),
                ) && (self.well_formed() ==> block.well_formed()),
                None => self@.work.len() == 0,
            },
    {
        if self.work.len() == 0 {
            return None;
        }
        let entry = &self.work[self.work.len() - 1];
        Some((&entry.0, &entry.1))
    }

    /// Takes out the next waiting block.
    fn take_up(&mut self) -> (entry: (ActiveBlockKey, ActiveBlock))
        requires
            old(self).well_formed(),
            old(self)@.work.len() > 0,
        ensures
            final(self).well_formed(),
            final(self).limits == old(self).limits,
            final(self)@ == taken_up(old(self)@),
            entry.1.well_formed(),
            old(self)@.work.last() == (entry.0, block_view(entry.1)),
    {
        let ghost before = self@;
        let ghost list = self.work@;
        let at: usize = self.work.len() - 1;
        let entry = self.work.remove(at);
        proof {
            assert(list[at as int] == entry);
            assert(before.work[at as int] == (entry.0, block_view(entry.1)));
            assert(self@.work =~= before.work.drop_last());
            assert forall|i: int| 0 <= i < self.work@.len() implies (
            #[trigger] self.work@[i]).1.well_formed() by {
                assert(self.work@[i] == list[i]);
            }
        }
        entry
    }

    /// Places the records of one assignment.
    fn place_group(
        &mut self,
        home_key: ActiveBlockKey,
        home: &ActiveBlock,
        assignment_count: usize,
        assignment: &CompressionAssignment,
        force_seal: bool,
    ) -> (result: Result<(), LogDbError>)
        requires
            old(self).well_formed(),
            home.well_formed(),
            0 < assignment.record_indices@.len() <= u32::MAX,
            forall|i: int|
                0 <= i < assignment.record_indices@.len() ==> (
                #[trigger] assignment.record_indices@[i]) < home.records@.len(),
            has_room(
                old(self)@,
                HomeModel {
                    key: home_key,
                    block: block_view(*home),
                    assignment_count: assignment_count as nat,
                },
                assignment@,
                force_seal,
            ),
        ensures
            final(self).well_formed(),
            final(self).limits == old(self).limits,
            ({
                let (after, fault) = placed(
                    old(self)@,
                    HomeModel {
                        key: home_key,
                        block: block_view(*home),
                        assignment_count: assignment_count as nat,
                    },
                    assignment@,
                    force_seal,
                    old(self).limits,
                );
                &&& final(self)@ == after
                &&& match (result, fault) {
                    (Ok(_), None) => true,
                    (Err(error), Some(wanted)) => error == wanted,
                    _ => false,
                }
            }),
    {
        let ghost start = self@;
        let (key, dictionary_payload) = if assignment.placement_id == home_key.placement_id {
            (home_key, copy_payload(&home.dictionary_payload))
        } else {
            match self.dictionaries.resolve_dictionary(assignment.placement_id) {
                Ok(selection) => (
                    ActiveBlockKey {
                        topic_partition: home_key.topic_partition,
                        source_compression_cohort: home_key.source_compression_cohort,
                        placement_id: assignment.placement_id,
                        dictionary_id: selection.dictionary_id,
                    },
                    selection.payload,
                ),
                Err(error) => {
                    return Err(error);
                },
            }
        };
        let ghost known = self@;
        let records = copy_records(&home.records, &assignment.record_indices);
        proof {
            assert(pending_view(records@).len() == assignment.record_indices@.len());
        }
        let passes: u8 = home.rebalance_passes.saturating_add(1);
        let mut group = ActiveBlock::from_records(&records, dictionary_payload, passes);
        if force_seal {
            self.seal(key, group, assignment.score);
            return Ok(());
        }
        proof {
            lemma_held_without(known.held, key);
        }
        let mut merged_existing = false;
        match self.take_held(key) {
            Some(mut existing) => {
                proof {
                    lemma_by_offset_len(pending_view(records@));
                }
                existing.append_block(group);
                group = existing;
                merged_existing = true;
            },
            None => {},
        }
        let facts = RebalanceFacts {
            force_seal,
            merged_existing,
            single_assignment: assignment_count == 1,
            same_placement: key.placement_id == home_key.placement_id,
            low_variance: assignment.score.internal_variance_q8 <= self.limits.split_variance_q8,
        };
        match rebalance_step(facts, &group, self.limits.target_block_bytes) {
            RebalanceStep::Collect => self.hold(key, group),
            RebalanceStep::Seal => self.seal(key, group, assignment.score),
            RebalanceStep::Redistribute => self.defer(key, group),
        }
        Ok(())
    }

    /// Redistributes the next waiting block: the records of each assignment go to the
    /// block of its placement.
    pub fn rebalance_block(&mut self, assignments: &Vec<CompressionAssignment>, force_seal: bool) -> (
        result: Result<(), LogDbError>)
        requires
            old(self).well_formed(),
            old(self)@.work.len() > 0,
            takes_once(assignments_view(assignments@), old(self)@.work.last().1.pending.len()),
            all_have_room(
                taken_up(old(self)@),
                home_of(old(self)@, assignments_view(assignments@)),
                assignments_view(assignments@),
                force_seal,
                old(self).limits,
            ),
        ensures
            final(self).well_formed(),
            final(self).limits == old(self).limits,
            ({
                let models = assignments_view(assignments@);
                let (after, fault) = all_placed(
                    taken_up(old(self)@),
                    home_of(old(self)@, models),
                    models,
                    force_seal,
                    old(self).limits,
                );
                &&& final(self)@ == after
                &&& match (result, fault) {
                    (Ok(_), None) => true,
                    (Err(error), Some(wanted)) => error == wanted,
                    _ => false,
                }
            }),
    {
        let ghost limits = self.limits;
        let ghost models = assignments_view(assignments@);
        let ghost home = home_of(self@, models);
        let ghost start = taken_up(self@);
        let (key, block) = self.take_up();
        let mut index: usize = 0;
        proof {
            reveal(placeable);
            assert(models.subrange(0, 0) =~= Seq::<AssignmentModel>::empty());
        }
        while index < assignments.len()
            invariant
                index <= assignments@.len(),
                self.well_formed(),
                self.limits == limits,
                block.well_formed(),
                models == assignments_view(assignments@),
                limits == old(self).limits,
                start == taken_up(old(self)@),
                home == home_of(old(self)@, models),
                home == (HomeModel {
                    key,
                    block: block_view(block),
                    assignment_count: assignments@.len(),
                }),
                placeable(start, home, models, force_seal, limits),
                all_placed(start, home, models.subrange(0, index as int), force_seal, limits) == (
                    self@,
                    None::<LogDbError>,
                ),
            decreases assignments@.len() - index,
        {
            let assignment = &assignments[index];
            proof {
                assert(models[index as int] == assignment@);
                lemma_next_placed(start, home, models, index as int, force_seal, limits);
                assert(block.pending().len() == block.records@.len());
            }
            match self.place_group(key, &block, assignments.len(), assignment, force_seal) {
                Ok(_) => {},
                Err(error) => {
                    proof {
                        lemma_fault_stays(start, home, models, index + 1, force_seal, limits);
                    }
                    return Err(error);
                },
            }
            index = index + 1;
        }
        proof {
            assert(models.subrange(0, index as int) =~= models);
        }
        Ok(())
    }

    /// Seals the next waiting block as it is.
    pub fn seal_next(&mut self)
        requires
            old(self).well_formed(),
            old(self)@.work.len() > 0,
        ensures
            final(self).well_formed(),
            final(self).limits == old(self).limits,
            final(self)@ == (StageModel {
                sealed: old(self)@.sealed.push(
                    SealedModel {
                        key: old(self)@.work.last().0,
                        block: old(self)@.work.last().1,
                        score: CompressionBlockScore {
                            temperature: 0,
                            shape_hash: 0,
                            internal_variance_q8: 0,
                            max_deviation: 0,
                        },
                    },
                ),
                ..taken_up(old(self)@)
            }),
    {
        let (key, block) = self.take_up();
        self.seal(
            key,
            block,
            CompressionBlockScore {
                temperature: 0,
                shape_hash: 0,
                internal_variance_q8: 0,
                max_deviation: 0,
            },
        );
    }

    /// Lets every block that collects wait to be redistributed, the first one last.
    pub fn seal_active_blocks(&mut self)
        requires
            old(self).well_formed(),
        ensures
            final(self).well_formed(),
            final(self).limits == old(self).limits,
            final(self)@ == (StageModel {
                held: Seq::empty(),
                work: old(self)@.work + old(self)@.held.reverse(),
                ..old(self)@
            }),
    {
        let ghost start = self@;
        proof {
            assert(start.work + Seq::<(ActiveBlockKey, BlockModel)>::empty() =~= start.work);
            assert(start.held.subrange(start.held.len() as int, start.held.len() as int).reverse()
                =~= Seq::<(ActiveBlockKey, BlockModel)>::empty());
            assert(start.held.subrange(0, start.held.len() as int) =~= start.held);
        }
        while self.held.len() > 0
            invariant
                self.well_formed(),
                self.limits == old(self).limits,
                start == old(self)@,
                self.held@.len() <= start.held.len(),
                self@.held == start.held.subrange(0, self.held@.len() as int),
                self@.dictionaries == start.dictionaries,
                self@.sealed == start.sealed,
                self@.work == start.work + start.held.subrange(
                    self.held@.len() as int,
                    start.held.len() as int,
                ).reverse(),
            decreases self.held@.len(),
        {
            let ghost list = self.held@;
            let ghost now = self@;
            let at: usize = self.held.len() - 1;
            let (key, block) = self.held.remove(at);
            proof {
                assert(list[at as int] == (key, block));
                assert(now.held[at as int] == (key, block_view(block)));
                assert(self@.held =~= now.held.drop_last());
                assert(self@.held =~= start.held.subrange(0, at as int));
                assert forall|i: int| 0 <= i < self.held@.len() implies (
                #[trigger] self.held@[i]).1.well_formed() && self.held@[i].1.source_bytes
                    < self.limits.target_block_bytes by {
                    assert(self.held@[i] == list[i]);
                }
                assert forall|i: int, j: int| 0 <= i < j < self@.held.len() implies (
                #[trigger] self@.held[i]).0 != (#[trigger] self@.held[j]).0 by {
                    assert(self@.held[i] == now.held[i] && self@.held[j] == now.held[j]);
                }
                let n = start.held.len() as int;
                let later = start.held.subrange(at + 1, n);
                let all = start.held.subrange(at as int, n);
                assert(all.reverse() =~= later.reverse().push(start.held[at as int]));
                assert((start.work + later.reverse()).push(start.held[at as int]) =~= start.work
                    + all.reverse());
            }
            self.defer(key, block);
        }
        proof {
            assert(self@.held =~= Seq::empty());
        }
    }

    /// Hands out the sealed blocks in the order in which they were sealed.
    pub fn take_sealed(&mut self) -> (sealed: Vec<SealedBlock>)
        requires
            old(self).well_formed(),
        ensures
            final(self).well_formed(),
            final(self).limits == old(self).limits,
            final(self)@ == (StageModel { sealed: Seq::empty(), ..old(self)@ }),
            sealed_view(sealed@) == old(self)@.sealed,
            forall|i: int| 0 <= i < sealed@.len() ==> (#[trigger] sealed@[i]).block.well_formed(),
    {
        let mut sealed: Vec<SealedBlock> = Vec::new();
        sealed.append(&mut self.sealed);
        proof {
            assert(sealed@ =~= old(self).sealed@);
            assert(self@.sealed =~= Seq::empty());
        }
        sealed
    }
}

proof fn lemma_by_offset_len(records: Seq<PendingModel>)
    requires
        records.len() <= u32::MAX,
    ensures
        by_offset(records).len() == records.len(),
{
    crate::order::lemma_order_exists(crate::active_block::offset_keys(records));
}

proof fn lemma_taken_place(assignments: Seq<AssignmentModel>, at: int, count: nat)
    requires
        takes_once(assignments, count),
        0 <= at < assignments.len(),
    ensures
        forall|i: int|
            0 <= i < assignments[at].indices.len() ==> #[trigger] assignments[at].indices[i]
                < count,
        0 < assignments[at].indices.len() <= count,
{
    let all = taken_places(assignments);
    let first = lemma_places_within(assignments, at);
    let indices = assignments[at].indices;
    assert forall|i: int| 0 <= i < indices.len() implies #[trigger] indices[i] < count by {
        assert(all[first + i] == indices[i]);
    }
    assert forall|i: int, j: int| 0 <= i < j < indices.len() implies indices[i] != indices[j] by {
        assert(all[first + i] != all[first + j]);
    }
    lemma_distinct_below(indices, count);
}

/// Where the places of one assignment stand among all places.
proof fn lemma_places_within(assignments: Seq<AssignmentModel>, at: int) -> (first: int)
    requires
        0 <= at < assignments.len(),
    ensures
        0 <= first,
        first + assignments[at].indices.len() <= taken_places(assignments).len(),
        forall|i: int|
            0 <= i < assignments[at].indices.len() ==> taken_places(assignments)[first + i]
                == #[trigger] assignments[at].indices[i],
    decreases assignments.len(),
{
    let front = assignments.drop_last();
    if at == assignments.len() - 1 {
        taken_places(front).len() as int
    } else {
        let first = lemma_places_within(front, at);
        assert(front[at] == assignments[at]);
        assert forall|i: int| 0 <= i < assignments[at].indices.len() implies taken_places(
            assignments,
        )[first + i] == #[trigger] assignments[at].indices[i] by {
            assert(taken_places(front)[first + i] == front[at].indices[i]);
        }
        first
    }
}

pub proof fn lemma_distinct_below(places: Seq<usize>, count: nat)
    requires
        forall|i: int| 0 <= i < places.len() ==> #[trigger] places[i] < count,
        forall|i: int, j: int| 0 <= i < j < places.len() ==> places[i] != places[j],
    ensures
        places.len() <= count,
    decreases count,
{
    if places.len() > 0 {
        if exists|i: int| 0 <= i < places.len() && places[i] == count - 1 {
            let k = choose|i: int| 0 <= i < places.len() && places[i] == count - 1;
            let rest = places.remove(k);
            assert forall|i: int| 0 <= i < rest.len() implies #[trigger] rest[i] < count - 1 by {
                let a = if i < k {
                    i
                } else {
                    i + 1
                };
                assert(rest[i] == places[a]);
            }
            assert forall|i: int, j: int| 0 <= i < j < rest.len() implies rest[i] != rest[j] by {
                let a = if i < k {
                    i
                } else {
                    i + 1
                };
                let b = if j < k {
                    j
                } else {
                    j + 1
                };
                assert(rest[i] == places[a] && rest[j] == places[b]);
            }
            lemma_distinct_below(rest, (count - 1) as nat);
        } else {
            assert(places[0] < count);
            lemma_distinct_below(places, (count - 1) as nat);
        }
    }
}

/// The assignments can be placed.
#[verifier::opaque]
spec fn placeable(
    state: StageModel,
    home: HomeModel,
    assignments: Seq<AssignmentModel>,
    force_seal: bool,
    limits: BlockLimits,
) -> bool {
    takes_once(assignments, home.block.pending.len()) && all_have_room(
        state,
        home,
        assignments,
        force_seal,
        limits,
    )
}

proof fn lemma_next_placed(
    state: StageModel,
    home: HomeModel,
    assignments: Seq<AssignmentModel>,
    at: int,
    force_seal: bool,
    limits: BlockLimits,
)
    requires
        placeable(state, home, assignments, force_seal, limits),
        0 <= at < assignments.len(),
    ensures
        0 < assignments[at].indices.len() <= home.block.pending.len(),
        forall|i: int|
            0 <= i < assignments[at].indices.len() ==> #[trigger] assignments[at].indices[i]
                < home.block.pending.len(),
        has_room(
            all_placed(state, home, assignments.subrange(0, at), force_seal, limits).0,
            home,
            assignments[at],
            force_seal,
        ),
        all_placed(state, home, assignments.subrange(0, at), force_seal, limits).1 is None
            ==> all_placed(state, home, assignments.subrange(0, at + 1), force_seal, limits)
            == placed(
            all_placed(state, home, assignments.subrange(0, at), force_seal, limits).0,
            home,
            assignments[at],
            force_seal,
            limits,
        ),
{
    reveal(placeable);
    lemma_taken_place(assignments, at, home.block.pending.len());
    let next = assignments.subrange(0, at + 1);
    assert(next.drop_last() =~= assignments.subrange(0, at));
    assert(next.last() == assignments[at]);
}

proof fn lemma_fault_stays(
    state: StageModel,
    home: HomeModel,
    assignments: Seq<AssignmentModel>,
    at: int,
    force_seal: bool,
    limits: BlockLimits,
)
    requires
        0 <= at <= assignments.len(),
        all_placed(state, home, assignments.subrange(0, at), force_seal, limits).1 is Some,
    ensures
        all_placed(state, home, assignments, force_seal, limits) == all_placed(
            state,
            home,
            assignments.subrange(0, at),
            force_seal,
            limits,
        ),
    decreases assignments.len(),
{
    if at == assignments.len() {
        assert(assignments.subrange(0, at) =~= assignments);
    } else {
        let front = assignments.drop_last();
        assert(front.subrange(0, at) =~= assignments.subrange(0, at));
        lemma_fault_stays(state, home, front, at, force_seal, limits);
    }
}

/// Summary of a stored block.
#[derive(Debug, Clone, Copy, PartialEq, Eq)]
pub struct BlockDescriptor {
    /// Shard of the stripe.
    pub stream_shard_id: ShardId,
    /// Partition of the records.
    pub topic_partition: TopicPartition,
    /// Source group of the records.
    pub source_compression_cohort: CompressionCohortId,
    /// Placement of the records.
    pub placement_id: CompressionPlacementId,
    /// Dictionary of the block.
    pub dictionary_id: Option<DictionaryId>,
    /// Zstandard level.
    pub compression_level: i32,
    /// Lowest offset.
    pub first_offset: LogicalOffset,
    /// Highest offset.
    pub last_offset: LogicalOffset,
    /// Number of records.
    pub record_count: u32,
    /// Bytes of the records before encoding.
    pub source_bytes: u64,
    /// Bytes of the records after encoding.
    pub structural_bytes: u64,
    /// Bytes that are stored.
    pub stored_bytes: u64,
    /// Lowest timestamp.
    pub min_timestamp_unix_nanos: u64,
    /// Highest timestamp.
    pub max_timestamp_unix_nanos: u64,
    /// Diagnostics of the records.
    pub score: CompressionBlockScore,
}

/// Compresses the encoded records of a sealed block with its dictionary and describes the
/// stored block.
pub fn stage_active_block(
    compressor: &mut StripeCompressor,
    shard: ShardId,
    sealed: &SealedBlock,
    structural: &[u8],
) -> (result: Result<(BlockDescriptor, Vec<u8>), LogDbError>)
    ensures
        final(compressor).zstd_level == old(compressor).zstd_level,
        match dictionary_for(
            old(compressor).active_dictionary,
            old(compressor).active_payload@,
            sealed.key.dictionary_id,
            payload_view(sealed.block.dictionary_payload),
        ) {
            Err(error) => *final(compressor) == *old(compressor) && result == Err::<
                (BlockDescriptor, Vec<u8>),
                _,
            >(error),
            Ok(dictionary) => {
                &&& final(compressor).active_dictionary == sealed.key.dictionary_id
                &&& final(compressor).active_payload@ == dictionary
                &&& match (
                    zstd_dictionary_compressed(
                        structural@,
                        old(compressor).zstd_level,
                        dictionary,
                    ),
                    result,
                ) {
                    (Ok(stored), Ok((descriptor, payload))) => payload@ == stored && descriptor
                        == (BlockDescriptor {
                        stream_shard_id: shard,
                        topic_partition: sealed.key.topic_partition,
                        source_compression_cohort: sealed.key.source_compression_cohort,
                        placement_id: sealed.key.placement_id,
                        dictionary_id: sealed.key.dictionary_id,
                        compression_level: old(compressor).zstd_level,
                        first_offset: sealed.block.first_offset,
                        last_offset: sealed.block.last_offset,
                        record_count: sealed.block.record_count,
                        source_bytes: sealed.block.source_bytes,
                        structural_bytes: structural@.len() as u64,
                        stored_bytes: stored.len() as u64,
                        min_timestamp_unix_nanos: sealed.block.min_timestamp_unix_nanos,
                        max_timestamp_unix_nanos: sealed.block.max_timestamp_unix_nanos,
                        score: sealed.score,
                    }),
                    (Err(text), Err(error)) => error@ == LogDbFault::CompressionFailed(text),
                    _ => false,
                }
            },
        },
{
    let payload = match &sealed.block.dictionary_payload {
        Some(payload) => Some(payload),
        None => None,
    };
    match compressor.compress(structural, sealed.key.dictionary_id, payload) {
        Ok(stored) => {
            let descriptor = BlockDescriptor {
                stream_shard_id: shard,
                topic_partition: sealed.key.topic_partition,
                source_compression_cohort: sealed.key.source_compression_cohort,
                placement_id: sealed.key.placement_id,
                dictionary_id: sealed.key.dictionary_id,
                compression_level: compressor.zstd_level,
                first_offset: sealed.block.first_offset,
                last_offset: sealed.block.last_offset,
                record_count: sealed.block.record_count,
                source_bytes: sealed.block.source_bytes,
                structural_bytes: structural.len() as u64,
                stored_bytes: stored.len() as u64,
                min_timestamp_unix_nanos: sealed.block.min_timestamp_unix_nanos,
                max_timestamp_unix_nanos: sealed.block.max_timestamp_unix_nanos,
                score: sealed.score,
            };
            Ok((descriptor, stored))
        },
        Err(error) => Err(error),
    }
}

} // verus!
