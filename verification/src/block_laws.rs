//! What redistributing blocks keeps.
use vstd::multiset::Multiset;
use vstd::prelude::*;

use crate::active_block::{
    by_offset, merged_pending, offset_keys, PendingModel, MAX_REBALANCE_PASSES,
};
use crate::order::{
    arranged, is_arrangement, is_order, lemma_arrangement_permutes, lemma_order_exists, order_of,
};
use crate::stripe_blocks::{
    all_placed, collected, group_of, group_placed, held_block, held_from, held_without, home_of,
    merged_block, records_at, taken_places, taken_up, takes_once, target_of, ActiveBlockKey,
    AssignmentModel, BlockLimits, BlockModel, Held, HomeModel, SealedModel, StageModel,
};

verus! {

broadcast use vstd::seq_lib::group_seq_properties;

/// All records of blocks.
pub open spec fn held_records(held: Held) -> Multiset<PendingModel>
    decreases held.len(),
{
    if held.len() == 0 {
        Multiset::empty()
    } else {
        held_records(held.drop_last()).add(held.last().1.pending.to_multiset())
    }
}

/// All records of sealed blocks.
pub open spec fn sealed_records(sealed: Seq<SealedModel>) -> Multiset<PendingModel>
    decreases sealed.len(),
{
    if sealed.len() == 0 {
        Multiset::empty()
    } else {
        sealed_records(sealed.drop_last()).add(sealed.last().block.pending.to_multiset())
    }
}

/// All records of a stripe that are not stored yet.
pub open spec fn stage_records(state: StageModel) -> Multiset<PendingModel> {
    held_records(state.held).add(held_records(state.work)).add(sealed_records(state.sealed))
}

proof fn lemma_arranged_multiset(items: Seq<PendingModel>, places: Seq<usize>)
    requires
        is_arrangement(places, items.len()),
    ensures
        records_at(items, places).to_multiset() == items.to_multiset(),
{
    lemma_arrangement_permutes(items, places);
    assert(records_at(items, places) =~= arranged(items, places));
}

proof fn lemma_by_offset_multiset(records: Seq<PendingModel>)
    requires
        records.len() <= usize::MAX,
    ensures
        by_offset(records).to_multiset() == records.to_multiset(),
{
    let keys = offset_keys(records);
    let order = order_of(keys);
    lemma_order_exists(keys);
    assert(is_order(keys, order));
    assert(order.no_duplicates()) by {
        assert forall|i: int, j: int|
            0 <= i < order.len() && 0 <= j < order.len() && i != j implies order[i]
            != order[j] by {
            let a = if i < j {
                i
            } else {
                j
            };
            let b = if i < j {
                j
            } else {
                i
            };
            assert(crate::order::comes_before(keys, order[a] as int, order[b] as int));
        }
    }
    assert(records_at(records, order) =~= arranged(records, order));
    lemma_arranged_multiset(records, order);
}

proof fn lemma_merged_multiset(left: Seq<PendingModel>, right: Seq<PendingModel>)
    ensures
        merged_pending(left, right).to_multiset() == left.to_multiset().add(right.to_multiset()),
    decreases left.len() + right.len(),
{
    broadcast use vstd::seq_lib::group_to_multiset_ensures;

    let none = Multiset::<PendingModel>::empty();
    if left.len() == 0 {
        assert(left =~= Seq::empty());
        assert(left.to_multiset() =~= none);
        assert(none.add(right.to_multiset()) =~= right.to_multiset());
    } else if right.len() == 0 {
        assert(right =~= Seq::empty());
        assert(right.to_multiset() =~= none);
        assert(left.to_multiset().add(none) =~= left.to_multiset());
    } else if left[0].offset() <= right[0].offset() {
        lemma_merged_multiset(left.drop_first(), right);
        lemma_first_multiset(left);
        let tail = merged_pending(left.drop_first(), right);
        let all = merged_pending(left, right);
        assert(all.drop_first() =~= tail);
        assert(all[0] == left[0]);
        lemma_first_multiset(all);
        assert(all.to_multiset() =~= left.to_multiset().add(right.to_multiset()));
    } else {
        lemma_merged_multiset(left, right.drop_first());
        lemma_first_multiset(right);
        let tail = merged_pending(left, right.drop_first());
        let all = merged_pending(left, right);
        assert(all.drop_first() =~= tail);
        assert(all[0] == right[0]);
        lemma_first_multiset(all);
        assert(all.to_multiset() =~= left.to_multiset().add(right.to_multiset()));
    }
}

proof fn lemma_first_multiset(records: Seq<PendingModel>)
    requires
        records.len() > 0,
    ensures
        records.to_multiset() == records.drop_first().to_multiset().insert(records[0]),
{
    broadcast use vstd::seq_lib::group_to_multiset_ensures;

    assert(records =~= records.drop_first().insert(0, records[0]));
    vstd::seq_lib::to_multiset_insert(records.drop_first(), 0, records[0]);
}

proof fn lemma_held_remove(held: Held, at: int)
    requires
        0 <= at < held.len(),
    ensures
        held_records(held) == held_records(held.remove(at)).add(held[at].1.pending.to_multiset()),
    decreases held.len(),
{
    let rest = held.remove(at);
    if at == held.len() - 1 {
        assert(rest =~= held.drop_last());
    } else {
        let front = held.drop_last();
        lemma_held_remove(front, at);
        assert(rest.drop_last() =~= front.remove(at));
        assert(rest.last() == held.last());
        assert(front[at] == held[at]);
        assert(held_records(held) =~= held_records(rest).add(held[at].1.pending.to_multiset()));
    }
}

proof fn lemma_held_push(held: Held, key: ActiveBlockKey, block: BlockModel)
    ensures
        held_records(held.push((key, block))) == held_records(held).add(
            block.pending.to_multiset(),
        ),
{
    assert(held.push((key, block)).drop_last() =~= held);
}

proof fn lemma_sealed_push(sealed: Seq<SealedModel>, block: SealedModel)
    ensures
        sealed_records(sealed.push(block)) == sealed_records(sealed).add(
            block.block.pending.to_multiset(),
        ),
{
    assert(sealed.push(block).drop_last() =~= sealed);
}

/// The records under a key and the other ones are all records.
proof fn lemma_held_split(held: Held, key: ActiveBlockKey)
    ensures
        held_records(held) == match held_block(held, key) {
            Some(block) => held_records(held_without(held, key)).add(block.pending.to_multiset()),
            None => held_records(held_without(held, key)),
        },
{
    let at = held_from(held, key, 0);
    crate::stripe_blocks::lemma_held_from(held, key, 0);
    if at < held.len() {
        lemma_held_remove(held, at);
    }
}

proof fn lemma_group_placed(
    state: StageModel,
    home: HomeModel,
    assignment: AssignmentModel,
    key: ActiveBlockKey,
    group: BlockModel,
    force_seal: bool,
    limits: BlockLimits,
)
    ensures
        stage_records(group_placed(state, home, assignment, key, group, force_seal, limits))
            == stage_records(state).add(group.pending.to_multiset()),
{
    let after = group_placed(state, home, assignment, key, group, force_seal, limits);
    let rest = held_without(state.held, key);
    let total = stage_records(state).add(group.pending.to_multiset());
    lemma_held_split(state.held, key);
    if force_seal {
        lemma_sealed_push(
            state.sealed,
            SealedModel { key, block: group, score: assignment.score },
        );
        assert(stage_records(after) =~= total);
    } else {
        let whole = match held_block(state.held, key) {
            Some(block) => merged_block(block, group),
            None => group,
        };
        if held_block(state.held, key) is Some {
            lemma_merged_multiset(held_block(state.held, key)->0.pending, group.pending);
        }
        lemma_held_push(rest, key, whole);
        lemma_held_push(state.work, key, whole);
        lemma_sealed_push(
            state.sealed,
            SealedModel { key, block: whole, score: assignment.score },
        );
        assert(held_records(rest).add(whole.pending.to_multiset()) =~= held_records(
            state.held,
        ).add(group.pending.to_multiset()));
        assert(stage_records(after) =~= total);
    }
}

proof fn lemma_all_placed(
    state: StageModel,
    home: HomeModel,
    assignments: Seq<AssignmentModel>,
    force_seal: bool,
    limits: BlockLimits,
)
    requires
        all_placed(state, home, assignments, force_seal, limits).1 is None,
        taken_places(assignments).len() <= usize::MAX,
    ensures
        stage_records(all_placed(state, home, assignments, force_seal, limits).0)
            == stage_records(state).add(
            records_at(home.block.pending, taken_places(assignments)).to_multiset(),
        ),
    decreases assignments.len(),
{
    broadcast use vstd::seq_lib::group_to_multiset_ensures;

    let records = home.block.pending;
    if assignments.len() == 0 {
        let none = records_at(records, taken_places(assignments));
        assert(none =~= Seq::empty());
        assert(none.to_multiset() =~= Multiset::empty());
        assert(stage_records(state).add(none.to_multiset()) =~= stage_records(state));
    } else {
        let front = assignments.drop_last();
        let last = assignments.last();
        lemma_all_placed(state, home, front, force_seal, limits);
        let before = all_placed(state, home, front, force_seal, limits).0;
        let (dictionaries, target) = target_of(before.dictionaries, home, last.placement_id);
        let known = StageModel { dictionaries, ..before };
        let (key, dictionary) = target->Ok_0;
        let group = group_of(home, last, dictionary);
        lemma_group_placed(known, home, last, key, group, force_seal, limits);
        lemma_by_offset_multiset(records_at(records, last.indices));
        let first = records_at(records, taken_places(front));
        let added = records_at(records, last.indices);
        assert(records_at(records, taken_places(assignments)) =~= first + added);
        vstd::seq_lib::lemma_multiset_commutative(first, added);
        assert(stage_records(known) == stage_records(before));
        assert(stage_records(state).add(first.to_multiset()).add(added.to_multiset())
            =~= stage_records(state).add((first + added).to_multiset()));
    }
}

/// Redistributing a block loses no record and doubles none: where the assignments take
/// every record of the block once, all records are afterwards in exactly the blocks that
/// collect, wait or are sealed, as often as before.
pub proof fn redistribution_keeps_records(
    state: StageModel,
    assignments: Seq<AssignmentModel>,
    force_seal: bool,
    limits: BlockLimits,
)
    requires
        state.work.len() > 0,
        state.work.last().1.pending.len() <= u32::MAX,
        takes_once(assignments, state.work.last().1.pending.len()),
        taken_places(assignments).len() == state.work.last().1.pending.len(),
        all_placed(
            taken_up(state),
            home_of(state, assignments),
            assignments,
            force_seal,
            limits,
        ).1 is None,
    ensures
        stage_records(
            all_placed(
                taken_up(state),
                home_of(state, assignments),
                assignments,
                force_seal,
                limits,
            ).0,
        ) == stage_records(state),
{
    let home = home_of(state, assignments);
    let start = taken_up(state);
    let places = taken_places(assignments);
    lemma_all_placed(start, home, assignments, force_seal, limits);
    lemma_arranged_multiset(home.block.pending, places);
    assert(held_records(state.work) == held_records(start.work).add(
        home.block.pending.to_multiset(),
    ));
    assert(stage_records(start).add(home.block.pending.to_multiset()) =~= stage_records(state));
}

/// Collecting a record adds exactly that record.
pub proof fn collecting_adds_one_record(
    state: StageModel,
    key: ActiveBlockKey,
    record: PendingModel,
    dictionary: Option<Seq<u8>>,
    target: u64,
)
    ensures
        stage_records(collected(state, key, record, dictionary, target)) == stage_records(
            state,
        ).insert(record),
{
    broadcast use vstd::seq_lib::group_to_multiset_ensures;

    let rest = held_without(state.held, key);
    lemma_held_split(state.held, key);
    let whole = match held_block(state.held, key) {
        Some(block) => crate::stripe_blocks::grown_block(block, record),
        None => crate::stripe_blocks::single_block(record, dictionary),
    };
    match held_block(state.held, key) {
        Some(block) => {
            vstd::seq_lib::to_multiset_build(block.pending, record);
        },
        None => {
            let none = Seq::<PendingModel>::empty();
            assert(none.push(record) =~= seq![record]);
            vstd::seq_lib::to_multiset_build(none, record);
            assert(none.to_multiset() =~= Multiset::empty());
        },
    }
    lemma_held_push(rest, key, whole);
    lemma_held_push(state.work, key, whole);
    assert(held_records(rest).add(whole.pending.to_multiset()) =~= held_records(
        state.held,
    ).insert(record));
    assert(stage_records(collected(state, key, record, dictionary, target)) =~= stage_records(
        state,
    ).insert(record));
}

proof fn lemma_placed_work(
    state: StageModel,
    home: HomeModel,
    assignments: Seq<AssignmentModel>,
    force_seal: bool,
    limits: BlockLimits,
)
    ensures
        ({
            let after = all_placed(state, home, assignments, force_seal, limits).0;
            &&& state.work.len() <= after.work.len()
            &&& forall|i: int| 0 <= i < state.work.len() ==> after.work[i] == state.work[i]
            &&& forall|i: int|
                state.work.len() <= i < after.work.len() ==> home.block.passes < (
                #[trigger] after.work[i]).1.passes < MAX_REBALANCE_PASSES
        }),
    decreases assignments.len(),
{
    if assignments.len() > 0 {
        lemma_placed_work(state, home, assignments.drop_last(), force_seal, limits);
    }
}

/// Redistribution ends: blocks that wait for another pass have had more passes than the
/// block they come from, and fewer than the largest number of passes. Where all blocks
/// are being sealed, none waits for another pass.
pub proof fn redistribution_ends(
    state: StageModel,
    assignments: Seq<AssignmentModel>,
    force_seal: bool,
    limits: BlockLimits,
)
    requires
        state.work.len() > 0,
    ensures
        ({
            let home = home_of(state, assignments);
            let after = all_placed(taken_up(state), home, assignments, force_seal, limits).0;
            &&& after.work.len() >= state.work.len() - 1
            &&& forall|i: int| 0 <= i < state.work.len() - 1 ==> after.work[i] == state.work[i]
            &&& forall|i: int|
                state.work.len() - 1 <= i < after.work.len() ==> home.block.passes < (
                #[trigger] after.work[i]).1.passes < MAX_REBALANCE_PASSES
            &&& force_seal ==> after.work.len() == state.work.len() - 1
        }),
{
    let home = home_of(state, assignments);
    lemma_placed_work(taken_up(state), home, assignments, force_seal, limits);
    if force_seal {
        lemma_forced_work(taken_up(state), home, assignments, limits);
    }
}

proof fn lemma_forced_work(
    state: StageModel,
    home: HomeModel,
    assignments: Seq<AssignmentModel>,
    limits: BlockLimits,
)
    ensures
        all_placed(state, home, assignments, true, limits).0.work == state.work,
    decreases assignments.len(),
{
    if assignments.len() > 0 {
        lemma_forced_work(state, home, assignments.drop_last(), limits);
    }
}

} // verus!
