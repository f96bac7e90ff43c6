//! What holds of every ingest pack.
use vstd::prelude::*;

use crate::codec::{le_bytes, lemma_le_bytes_len, lemma_le_round_trip, lemma_pow256_values};
use crate::compress::zstd_compressed;
use crate::error::{LogDbError, LogDbFault};
use crate::ingest_pack::{
    collected, group_at, group_block, next_valid, numbered, ordinal_keys, pack_groups, pack_header,
    pack_magic, parse_pack, GroupModel, Numbered, PackPlace, StructuralRecord,
};
use crate::ingest_prepare::{
    add_record, cohort_place, group_bytes, group_head, group_records, lemma_cohort_place,
    pack_head, packed, packed_groups, restorable, BlockModel, CohortModel, INGEST_PACK_ZSTD_LEVEL,
};
use crate::native_frame::{blake3_digest, checksum_of};
use crate::native_wire::{holds_at, lemma_holds_split};
use crate::order::{arranged, is_order, lemma_order_unique, listed, order_of};
use crate::record::EventModel;

verus! {

broadcast use vstd::seq_lib::group_seq_properties;

/// Number of records in groups.
pub open spec fn total_records(groups: Seq<CohortModel>) -> nat
    decreases groups.len(),
{
    if groups.len() == 0 {
        0
    } else {
        total_records(groups.drop_last()) + groups.last().ordinals.len()
    }
}

/// Whether a group holds an ordinal.
pub open spec fn holds_ordinal(group: CohortModel, ordinal: int) -> bool {
    exists|j: int| 0 <= j < group.ordinals.len() && #[trigger] group.ordinals[j] == ordinal
}

/// Whether groups are what becomes of a list of events: ascending cohorts, none
/// empty, each record with its cohort, inside the time range of its group.
pub open spec fn groups_of(groups: Seq<CohortModel>, events: Seq<EventModel>) -> bool {
    &&& total_records(groups) == events.len()
    &&& forall|i: int, j: int|
        0 <= i < j < groups.len() ==> (#[trigger] groups[i]).cohort < (#[trigger] groups[j]).cohort
    &&& forall|i: int|
        0 <= i < groups.len() ==> (#[trigger] groups[i]).ordinals.len() > 0
            && groups[i].min_timestamp <= groups[i].max_timestamp
    &&& forall|i: int, j: int|
        0 <= i < groups.len() && 0 <= j < groups[i].ordinals.len() ==> member_fits(
            groups[i],
            events,
            #[trigger] groups[i].ordinals[j],
        )
    &&& forall|k: int| 0 <= k < events.len() ==> #[trigger] placed(groups, events, k)
}

/// Whether an ordinal belongs in a group.
pub open spec fn member_fits(group: CohortModel, events: Seq<EventModel>, ordinal: u32) -> bool {
    &&& ordinal < events.len()
    &&& events[ordinal as int].cohort == group.cohort
    &&& group.min_timestamp <= events[ordinal as int].timestamp <= group.max_timestamp
}

/// Whether some group holds an ordinal.
pub open spec fn placed(groups: Seq<CohortModel>, events: Seq<EventModel>, ordinal: int) -> bool {
    exists|i: int| 0 <= i < groups.len() && #[trigger] holds_ordinal(groups[i], ordinal)
}

proof fn lemma_total_update(groups: Seq<CohortModel>, at: int, group: CohortModel)
    requires
        0 <= at < groups.len(),
    ensures
        total_records(groups.update(at, group)) == total_records(groups)
            - groups[at].ordinals.len() + group.ordinals.len(),
    decreases groups.len(),
{
    let next = groups.update(at, group);
    if at == groups.len() - 1 {
        assert(next.drop_last() =~= groups.drop_last());
    } else {
        assert(next.drop_last() =~= groups.drop_last().update(at, group));
        lemma_total_update(groups.drop_last(), at, group);
    }
}

proof fn lemma_total_insert(groups: Seq<CohortModel>, at: int, group: CohortModel)
    requires
        0 <= at <= groups.len(),
    ensures
        total_records(groups.insert(at, group)) == total_records(groups) + group.ordinals.len(),
    decreases groups.len(),
{
    let next = groups.insert(at, group);
    if at == groups.len() {
        assert(next.drop_last() =~= groups);
        assert(next.last() == group);
    } else {
        assert(next.drop_last() =~= groups.drop_last().insert(at, group));
        assert(next.last() == groups.last());
        lemma_total_insert(groups.drop_last(), at, group);
    }
}

/// Grouping loses, repeats and misplaces no record.
pub proof fn grouping_partitions_records(events: Seq<EventModel>)
    requires
        events.len() <= u32::MAX,
    ensures
        groups_of(group_records(events), events),
    decreases events.len(),
{
    if events.len() > 0 {
        let front = events.drop_last();
        grouping_partitions_records(front);
        lemma_add_record(group_records(front), front, events.last());
        assert(front.push(events.last()) =~= events);
    }
}

proof fn lemma_add_record(groups: Seq<CohortModel>, events: Seq<EventModel>, event: EventModel)
    requires
        groups_of(groups, events),
        events.len() < u32::MAX,
    ensures
        groups_of(
            add_record(groups, event.cohort, event.timestamp, events.len() as u32),
            events.push(event),
        ),
{
    let ordinal = events.len() as u32;
    let next = add_record(groups, event.cohort, event.timestamp, ordinal);
    let all = events.push(event);
    let at = cohort_place(groups, event.cohort, 0);
    lemma_cohort_place(groups, event.cohort, 0);
    if at < groups.len() && groups[at].cohort == event.cohort {
        lemma_total_update(groups, at, next[at]);
        let old_ordinals = groups[at].ordinals;
        assert forall|i: int, j: int|
            0 <= i < next.len() && 0 <= j < next[i].ordinals.len() implies member_fits(
            next[i],
            all,
            #[trigger] next[i].ordinals[j],
        ) by {
            if i != at || j < old_ordinals.len() {
                assert(member_fits(groups[i], events, groups[i].ordinals[j]));
            }
        }
        assert forall|k: int| 0 <= k < all.len() implies #[trigger] placed(next, all, k) by {
            if k == events.len() {
                assert(next[at].ordinals[old_ordinals.len() as int] == k);
                assert(holds_ordinal(next[at], k));
            } else {
                assert(placed(groups, events, k));
                let i = choose|i: int|
                    0 <= i < groups.len() && #[trigger] holds_ordinal(groups[i], k);
                let j = choose|j: int|
                    0 <= j < groups[i].ordinals.len() && #[trigger] groups[i].ordinals[j] == k;
                assert(next[i].ordinals[j] == k);
                assert(holds_ordinal(next[i], k));
            }
        }
    } else {
        let group = next[at];
        lemma_total_insert(groups, at, group);
        assert forall|i: int, j: int| 0 <= i < j < next.len() implies (
        #[trigger] next[i]).cohort < (#[trigger] next[j]).cohort by {
            let a = if i < at {
                i
            } else {
                i - 1
            };
            let b = if j < at {
                j
            } else {
                j - 1
            };
            if i == at {
                assert(next[j] == groups[b]);
                assert(groups[at].cohort > event.cohort);
                if b > at {
                    assert(groups[at].cohort < groups[b].cohort);
                }
            } else if j == at {
                assert(next[i] == groups[i]);
            } else {
                assert(next[i] == groups[a]);
                assert(next[j] == groups[b]);
            }
        }
        assert forall|i: int| 0 <= i < next.len() implies (#[trigger] next[i]).ordinals.len() > 0
            && next[i].min_timestamp <= next[i].max_timestamp by {
            if i < at {
                assert(next[i] == groups[i]);
            } else if i > at {
                assert(next[i] == groups[i - 1]);
            }
        }
        assert forall|i: int, j: int|
            0 <= i < next.len() && 0 <= j < next[i].ordinals.len() implies member_fits(
            next[i],
            all,
            #[trigger] next[i].ordinals[j],
        ) by {
            if i < at {
                assert(member_fits(groups[i], events, groups[i].ordinals[j]));
            } else if i > at {
                assert(next[i] == groups[i - 1]);
                assert(member_fits(groups[i - 1], events, groups[i - 1].ordinals[j]));
            }
        }
        assert forall|k: int| 0 <= k < all.len() implies #[trigger] placed(next, all, k) by {
            if k == events.len() {
                assert(next[at].ordinals[0] == k);
                assert(holds_ordinal(next[at], k));
            } else {
                assert(placed(groups, events, k));
                let i = choose|i: int|
                    0 <= i < groups.len() && #[trigger] holds_ordinal(groups[i], k);
                let m = if i < at {
                    i
                } else {
                    i + 1
                };
                assert(next[m] == groups[i]);
                assert(holds_ordinal(next[m], k));
            }
        }
    }
}

/// The numbered events of a group.
pub open spec fn numbered_group(group: CohortModel, events: Seq<EventModel>) -> Numbered {
    group.ordinals.map_values(|ordinal: u32| (ordinal, events[ordinal as int]))
}

/// The numbered events of groups, one group after the other.
pub open spec fn numbered_groups(groups: Seq<CohortModel>, events: Seq<EventModel>) -> Numbered
    decreases groups.len(),
{
    if groups.len() == 0 {
        Seq::empty()
    } else {
        numbered_groups(groups.drop_last(), events) + numbered_group(groups.last(), events)
    }
}

proof fn lemma_numbered_groups(groups: Seq<CohortModel>, events: Seq<EventModel>)
    ensures
        numbered_groups(groups, events).len() == total_records(groups),
        forall|i: int, j: int|
            0 <= i < groups.len() && 0 <= j < groups[i].ordinals.len() ==> numbered_groups(
                groups,
                events,
            ).contains(
                (groups[i].ordinals[j], events[(#[trigger] groups[i].ordinals[j]) as int]),
            ),
        forall|p: int|
            0 <= p < numbered_groups(groups, events).len() ==> {
                let item = #[trigger] numbered_groups(groups, events)[p];
                item.1 == events[item.0 as int]
            },
    decreases groups.len(),
{
    if groups.len() > 0 {
        let front = groups.drop_last();
        let early = numbered_groups(front, events);
        let late = numbered_group(groups.last(), events);
        let all = numbered_groups(groups, events);
        lemma_numbered_groups(front, events);
        assert forall|i: int, j: int|
            0 <= i < groups.len() && 0 <= j < groups[i].ordinals.len() implies all.contains(
            (groups[i].ordinals[j], events[(#[trigger] groups[i].ordinals[j]) as int]),
        ) by {
            let item = (groups[i].ordinals[j], events[groups[i].ordinals[j] as int]);
            if i < front.len() {
                assert(front[i] == groups[i]);
                assert(front[i].ordinals[j] == groups[i].ordinals[j]);
                assert(early.contains(item));
                let p = choose|p: int| 0 <= p < early.len() && early[p] == item;
                assert(all[p] == item);
            } else {
                assert(late[j] == item);
                assert(all[early.len() + j] == item);
            }
        }
        assert forall|p: int| 0 <= p < all.len() implies {
            let item = #[trigger] all[p];
            item.1 == events[item.0 as int]
        } by {
            if p < early.len() {
                assert(all[p] == early[p]);
            } else {
                assert(all[p] == late[p - early.len()]);
            }
        }
    }
}

/// A list that holds each ordinal below its length has each of them once.
proof fn lemma_covering_is_distinct(list: Numbered)
    requires
        forall|k: int| 0 <= k < list.len() ==> #[trigger] has_ordinal(list, k),
    ensures
        forall|p: int, q: int|
            0 <= p < q < list.len() ==> (#[trigger] list[p]).0 != (#[trigger] list[q]).0,
{
    let keys: Seq<int> = list.map_values(|item: (u32, EventModel)| item.0 as int);
    let all = vstd::set_lib::set_int_range(0, list.len() as int);
    vstd::set_lib::lemma_int_range(0, list.len() as int);
    assert forall|k: int| all.contains(k) implies keys.to_set().contains(k) by {
        assert(has_ordinal(list, k));
        let p = choose|p: int| 0 <= p < list.len() && (#[trigger] list[p]).0 == k;
        assert(keys[p] == k);
    }
    keys.lemma_cardinality_of_set();
    vstd::seq_lib::seq_to_set_is_finite(keys);
    vstd::set_lib::lemma_len_subset(all, keys.to_set());
    keys.lemma_no_dup_set_cardinality();
    assert forall|p: int, q: int| 0 <= p < q < list.len() implies (#[trigger] list[p]).0 != (
    #[trigger] list[q]).0 by {
        assert(keys[p] != keys[q]);
    }
}

/// Whether a list holds an ordinal.
spec fn has_ordinal(list: Numbered, ordinal: int) -> bool {
    exists|p: int| 0 <= p < list.len() && (#[trigger] list[p]).0 == ordinal
}

/// Decoded groups give back the events in their first order: whatever cohorts the
/// events were spread over, collecting the records of all groups restores the batch.
pub proof fn collecting_restores_order(events: Seq<EventModel>)
    requires
        events.len() <= u32::MAX,
    ensures
        collected(numbered_groups(group_records(events), events), events.len() as u32) == Ok::<
            _,
            LogDbError,
        >(events),
{
    let groups = group_records(events);
    let list = numbered_groups(groups, events);
    grouping_partitions_records(events);
    lemma_numbered_groups(groups, events);
    assert forall|k: int| 0 <= k < list.len() implies #[trigger] has_ordinal(list, k) by {
        assert(placed(groups, events, k));
        let i = choose|i: int| 0 <= i < groups.len() && #[trigger] holds_ordinal(groups[i], k);
        let j = choose|j: int|
            0 <= j < groups[i].ordinals.len() && #[trigger] groups[i].ordinals[j] == k;
        let item = (groups[i].ordinals[j], events[groups[i].ordinals[j] as int]);
        assert(list.contains(item));
        let p = choose|p: int| 0 <= p < list.len() && list[p] == item;
        assert(list[p].0 == k);
    }
    lemma_covering_is_distinct(list);
    let keys = ordinal_keys(list);
    let order = Seq::new(
        list.len(),
        |k: int| (choose|p: int| 0 <= p < list.len() && (#[trigger] list[p]).0 == k) as usize,
    );
    lemma_list_is_small(list);
    assert forall|k: int| 0 <= k < order.len() implies 0 <= #[trigger] order[k] < list.len()
        && list[order[k] as int].0 == k by {
        assert(has_ordinal(list, k));
    }
    assert(is_order(keys, order)) by {
        assert forall|place: int| 0 <= place < list.len() implies #[trigger] listed(
            order,
            place,
        ) by {
            let k = list[place].0 as int;
            lemma_ordinal_in_range(list, groups, events, place);
            assert(list[order[k] as int].0 == k);
            if order[k] < place {
                assert(list[order[k] as int].0 != list[place].0);
            } else if order[k] > place {
                assert(list[place].0 != list[order[k] as int].0);
            }
            assert(order[k] == place);
        }
        assert forall|i: int, j: int| 0 <= i < j < order.len() implies crate::order::comes_before(
            keys,
            #[trigger] order[i] as int,
            #[trigger] order[j] as int,
        ) by {
            assert(list[order[i] as int].0 == i);
            assert(list[order[j] as int].0 == j);
            assert(keys[order[i] as int] == i);
            assert(keys[order[j] as int] == j);
        }
    }
    lemma_order_unique(keys, order);
    let sorted = arranged(list, order_of(keys));
    assert forall|i: int| 0 <= i < sorted.len() implies (#[trigger] sorted[i]).0 == i by {
        assert(sorted[i] == list[order[i] as int]);
    }
    assert(sorted.map_values(|event: (u32, EventModel)| event.1) =~= events) by {
        assert forall|i: int| 0 <= i < events.len() implies sorted[i].1 == events[i] by {
            assert(sorted[i] == list[order[i] as int]);
        }
    }
}

proof fn lemma_list_is_small(list: Numbered)
    requires
        forall|k: int| 0 <= k < list.len() ==> #[trigger] has_ordinal(list, k),
    ensures
        list.len() <= u32::MAX + 1,
{
    if list.len() > 0 {
        assert(has_ordinal(list, list.len() - 1));
    }
}

proof fn lemma_ordinal_in_range(
    list: Numbered,
    groups: Seq<CohortModel>,
    events: Seq<EventModel>,
    place: int,
)
    requires
        groups_of(groups, events),
        list == numbered_groups(groups, events),
        0 <= place < list.len(),
    ensures
        list[place].0 < events.len(),
{
    lemma_ordinals_in_range(groups, events);
}

proof fn lemma_ordinals_in_range(groups: Seq<CohortModel>, events: Seq<EventModel>)
    requires
        forall|i: int, j: int|
            0 <= i < groups.len() && 0 <= j < groups[i].ordinals.len() ==> member_fits(
                groups[i],
                events,
                #[trigger] groups[i].ordinals[j],
            ),
    ensures
        forall|p: int|
            0 <= p < numbered_groups(groups, events).len() ==> (#[trigger] numbered_groups(
                groups,
                events,
            )[p]).0 < events.len(),
    decreases groups.len(),
{
    if groups.len() > 0 {
        let front = groups.drop_last();
        assert forall|i: int, j: int|
            0 <= i < front.len() && 0 <= j < front[i].ordinals.len() implies member_fits(
            front[i],
            events,
            #[trigger] front[i].ordinals[j],
        ) by {
            assert(member_fits(groups[i], events, groups[i].ordinals[j]));
        }
        lemma_ordinals_in_range(front, events);
        let early = numbered_groups(front, events);
        let all = numbered_groups(groups, events);
        assert forall|p: int| 0 <= p < all.len() implies (#[trigger] all[p]).0
            < events.len() by {
            if p < early.len() {
                assert(all[p] == early[p]);
            } else {
                let last = groups.len() - 1;
                let j = p - early.len();
                assert(member_fits(groups[last], events, groups[last].ordinals[j]));
                assert(all[p].0 == groups[last].ordinals[j]);
            }
        }
    }
}

/// Whether a stored group describes a group of records and its block.
pub open spec fn stores(
    payload: Seq<u8>,
    stored: GroupModel,
    group: CohortModel,
    block: BlockModel,
) -> bool {
    &&& stored.cohort == group.cohort
    &&& stored.record_count == group.ordinals.len()
    &&& stored.min_timestamp == group.min_timestamp
    &&& stored.max_timestamp == group.max_timestamp
    &&& group_block(payload, stored) == Ok::<_, LogDbFault>(block.structural)
}

/// Whether a group of records with its block can be stored.
pub open spec fn storable(group: CohortModel, block: BlockModel) -> bool {
    &&& group.ordinals.len() > 0
    &&& group.min_timestamp <= group.max_timestamp
    &&& block.structural.len() > 0
    &&& restorable(block)
}

proof fn lemma_group_reads(
    payload: Seq<u8>,
    at: int,
    group: CohortModel,
    block: BlockModel,
    observed: nat,
)
    requires
        storable(group, block),
        group_bytes(group, block) is Ok,
        0 <= at,
        holds_at(payload, at, group_bytes(group, block)->Ok_0.0),
    ensures
        ({
            let size = group_bytes(group, block)->Ok_0.0.len();
            &&& next_valid(payload, PackPlace { at, observed }) matches Ok((stored, next))
            &&& stores(payload, stored, group, block)
            &&& next == (PackPlace { at: at + size, observed: observed + group.ordinals.len() })
        }),
{
    let compressed = zstd_compressed(block.structural, INGEST_PACK_ZSTD_LEVEL)->Ok_0;
    let head = group_head(group, block.structural.len(), compressed);
    let sum = checksum_of(blake3_digest(compressed));
    lemma_pow256_values();
    lemma_le_bytes_len(group.cohort as nat, 8);
    lemma_le_bytes_len(group.ordinals.len(), 4);
    lemma_le_bytes_len(block.structural.len(), 4);
    lemma_le_bytes_len(compressed.len(), 4);
    lemma_le_bytes_len(sum, 4);
    lemma_le_bytes_len(group.min_timestamp as nat, 8);
    lemma_le_bytes_len(group.max_timestamp as nat, 8);
    lemma_le_round_trip(group.cohort as nat, 8);
    lemma_le_round_trip(group.ordinals.len(), 4);
    lemma_le_round_trip(block.structural.len(), 4);
    lemma_le_round_trip(compressed.len(), 4);
    lemma_le_round_trip(sum, 4);
    lemma_le_round_trip(group.min_timestamp as nat, 8);
    lemma_le_round_trip(group.max_timestamp as nat, 8);
    lemma_holds_split(payload, at, head, compressed);
    let a = le_bytes(group.cohort as nat, 8);
    let b = le_bytes(group.ordinals.len(), 4);
    let c = le_bytes(block.structural.len(), 4);
    let d = le_bytes(compressed.len(), 4);
    let e = le_bytes(sum, 4);
    let f = le_bytes(group.min_timestamp as nat, 8);
    let g = le_bytes(group.max_timestamp as nat, 8);
    lemma_holds_split(payload, at, a + b + c + d + e + f, g);
    lemma_holds_split(payload, at, a + b + c + d + e, f);
    lemma_holds_split(payload, at, a + b + c + d, e);
    lemma_holds_split(payload, at, a + b + c, d);
    lemma_holds_split(payload, at, a + b, c);
    lemma_holds_split(payload, at, a, b);
    assert(head.len() == 40);
    assert(payload.subrange(at + 40, at + 40 + compressed.len()) == compressed);
    assert(group_at(payload, at) is Ok);
}

proof fn lemma_packed_prefix(
    record_count: u32,
    groups: Seq<CohortModel>,
    blocks: Seq<BlockModel>,
    n: nat,
    count: nat,
)
    requires
        n <= count,
        packed_groups(record_count, groups, blocks, count) is Ok,
    ensures
        packed_groups(record_count, groups, blocks, n) is Ok,
        packed_groups(record_count, groups, blocks, n)->Ok_0.0.len() <= packed_groups(
            record_count,
            groups,
            blocks,
            count,
        )->Ok_0.0.len(),
        holds_at(
            packed_groups(record_count, groups, blocks, count)->Ok_0.0,
            0,
            packed_groups(record_count, groups, blocks, n)->Ok_0.0,
        ),
    decreases count,
{
    let all = packed_groups(record_count, groups, blocks, count)->Ok_0.0;
    if n < count {
        lemma_packed_prefix(record_count, groups, blocks, n, (count - 1) as nat);
        let front = packed_groups(record_count, groups, blocks, (count - 1) as nat)->Ok_0.0;
        let part = packed_groups(record_count, groups, blocks, n)->Ok_0.0;
        assert(all.subrange(0, part.len() as int) =~= front.subrange(0, part.len() as int));
    } else {
        assert(all.subrange(0, all.len() as int) =~= all);
    }
}

proof fn lemma_pack_reads(
    record_count: u32,
    groups: Seq<CohortModel>,
    blocks: Seq<BlockModel>,
    count: nat,
)
    requires
        groups.len() == blocks.len(),
        count <= groups.len() <= u16::MAX,
        packed_groups(record_count, groups, blocks, groups.len()) is Ok,
        forall|i: int| 0 <= i < groups.len() ==> storable(#[trigger] groups[i], blocks[i]),
    ensures
        ({
            let payload = packed_groups(record_count, groups, blocks, groups.len())->Ok_0.0;
            let part = packed_groups(record_count, groups, blocks, count)->Ok_0.0;
            &&& pack_groups(payload, count) matches Ok((stored, place))
            &&& stored.len() == count
            &&& place.at == part.len()
            &&& place.observed == total_records(groups.subrange(0, count as int))
            &&& forall|i: int|
                0 <= i < count ==> stores(payload, #[trigger] stored[i], groups[i], blocks[i])
        }),
    decreases count,
{
    let payload = packed_groups(record_count, groups, blocks, groups.len())->Ok_0.0;
    if count == 0 {
        lemma_le_bytes_len(record_count as nat, 4);
        lemma_le_bytes_len(groups.len(), 2);
        lemma_le_bytes_len(0, 2);
        assert(groups.subrange(0, 0) =~= Seq::<CohortModel>::empty());
        assert(pack_head(record_count, groups.len()).len() == 12);
    } else {
        let last = (count - 1) as nat;
        lemma_pack_reads(record_count, groups, blocks, last);
        lemma_packed_prefix(record_count, groups, blocks, count, groups.len());
        lemma_packed_prefix(record_count, groups, blocks, last, count);
        let front = packed_groups(record_count, groups, blocks, last)->Ok_0.0;
        let part = packed_groups(record_count, groups, blocks, count)->Ok_0.0;
        let bytes = group_bytes(groups[last as int], blocks[last as int])->Ok_0.0;
        assert(part == front + bytes);
        lemma_holds_split(payload, 0, front, bytes);
        let observed = total_records(groups.subrange(0, last as int));
        assert(storable(groups[last as int], blocks[last as int]));
        lemma_group_reads(
            payload,
            front.len() as int,
            groups[last as int],
            blocks[last as int],
            observed,
        );
        assert(groups.subrange(0, count as int).drop_last() =~= groups.subrange(0, last as int));
    }
}

proof fn lemma_header_reads(payload: Seq<u8>, record_count: u32, groups: nat)
    requires
        groups <= u16::MAX,
        holds_at(payload, 0, pack_head(record_count, groups)),
    ensures
        pack_header(payload, record_count) == Ok::<nat, LogDbError>(groups),
{
    let a = pack_magic();
    let b = le_bytes(record_count as nat, 4);
    let c = le_bytes(groups, 2);
    let d = le_bytes(0, 2);
    lemma_pow256_values();
    lemma_le_bytes_len(record_count as nat, 4);
    lemma_le_bytes_len(groups, 2);
    lemma_le_bytes_len(0, 2);
    lemma_le_round_trip(record_count as nat, 4);
    lemma_le_round_trip(groups, 2);
    lemma_holds_split(payload, 0, a + b + c, d);
    lemma_holds_split(payload, 0, a + b, c);
    lemma_holds_split(payload, 0, a, b);
    reveal_with_fuel(le_bytes, 3);
    assert(d[0] == 0 && d[1] == 0);
    assert(payload[10] == payload.subrange(10, 12)[0]);
    assert(payload[11] == payload.subrange(10, 12)[1]);
}

/// A prepared pack validates and gives back every group: its cohort, count and time
/// range, and the block it was given, byte for byte.
pub proof fn pack_round_trip(
    record_count: u32,
    groups: Seq<CohortModel>,
    blocks: Seq<BlockModel>,
)
    requires
        groups.len() == blocks.len(),
        packed(record_count, groups, blocks) is Ok,
        record_count == total_records(groups),
        forall|i: int| 0 <= i < groups.len() ==> storable(#[trigger] groups[i], blocks[i]),
    ensures
        ({
            let payload = packed(record_count, groups, blocks)->Ok_0.0;
            &&& parse_pack(payload, record_count) matches Ok(stored)
            &&& stored.len() == groups.len()
            &&& forall|i: int|
                0 <= i < groups.len() ==> stores(
                    payload,
                    #[trigger] stored[i],
                    groups[i],
                    blocks[i],
                )
        }),
{
    let payload = packed(record_count, groups, blocks)->Ok_0.0;
    lemma_pack_reads(record_count, groups, blocks, groups.len());
    lemma_packed_prefix(record_count, groups, blocks, 0, groups.len());
    lemma_header_reads(payload, record_count, groups.len());
    assert(groups.subrange(0, groups.len() as int) =~= groups);
    if groups.len() == 0 {
        assert(record_count == 0);
    }
}

/// Whether records are those of a group of events: in its order, each with its ordinal and
/// its event.
pub open spec fn records_of_group(
    records: Seq<StructuralRecord>,
    group: CohortModel,
    events: Seq<EventModel>,
) -> bool {
    &&& records.len() == group.ordinals.len()
    &&& forall|j: int|
        0 <= j < records.len() ==> (#[trigger] records[j]).offset == group.ordinals[j]
            && records[j].event(group.cohort) == events[group.ordinals[j] as int]
}

/// The numbered events of the first `count` stored groups, from the records of their blocks.
pub open spec fn numbered_stored(
    stored: Seq<GroupModel>,
    records: Seq<Seq<StructuralRecord>>,
    expected: u32,
    count: nat,
) -> Result<Numbered, LogDbError>
    decreases count,
{
    if count == 0 {
        Ok(Seq::empty())
    } else {
        match numbered_stored(stored, records, expected, (count - 1) as nat) {
            Err(error) => Err(error),
            Ok(front) => match numbered(records[count - 1], stored[count - 1].cohort, expected) {
                Err(error) => Err(error),
                Ok(list) => Ok(front + list),
            },
        }
    }
}

proof fn lemma_numbered_records(
    records: Seq<StructuralRecord>,
    group: CohortModel,
    events: Seq<EventModel>,
    count: int,
)
    requires
        events.len() <= u32::MAX,
        records_of_group(records, group, events),
        forall|j: int| 0 <= j < group.ordinals.len() ==> #[trigger] group.ordinals[j] < events.len(),
        0 <= count <= records.len(),
    ensures
        numbered(records.subrange(0, count), group.cohort, events.len() as u32) == Ok::<
            _,
            LogDbError,
        >(numbered_group(group, events).subrange(0, count)),
    decreases count,
{
    let part = records.subrange(0, count);
    let list = numbered_group(group, events);
    if count == 0 {
        assert(list.subrange(0, 0) =~= Numbered::empty());
    } else {
        lemma_numbered_records(records, group, events, count - 1);
        assert(part.drop_last() =~= records.subrange(0, count - 1));
        assert(part.last() == records[count - 1]);
        assert(group.ordinals[count - 1] < events.len());
        assert(list.subrange(0, count) =~= list.subrange(0, count - 1).push(list[count - 1]));
    }
}

proof fn lemma_numbered_stored(
    stored: Seq<GroupModel>,
    groups: Seq<CohortModel>,
    records: Seq<Seq<StructuralRecord>>,
    events: Seq<EventModel>,
    count: nat,
)
    requires
        events.len() <= u32::MAX,
        groups_of(groups, events),
        stored.len() == groups.len(),
        records.len() == groups.len(),
        count <= groups.len(),
        forall|i: int| 0 <= i < groups.len() ==> (#[trigger] stored[i]).cohort == groups[i].cohort,
        forall|i: int|
            0 <= i < groups.len() ==> records_of_group(#[trigger] records[i], groups[i], events),
    ensures
        numbered_stored(stored, records, events.len() as u32, count) == Ok::<_, LogDbError>(
            numbered_groups(groups.subrange(0, count as int), events),
        ),
    decreases count,
{
    let part = groups.subrange(0, count as int);
    if count > 0 {
        let last = count - 1;
        lemma_numbered_stored(stored, groups, records, events, last as nat);
        assert(part.drop_last() =~= groups.subrange(0, last));
        assert(part.last() == groups[last]);
        assert(records_of_group(records[last], groups[last], events));
        assert forall|j: int| 0 <= j < groups[last].ordinals.len() implies #[trigger] groups[last].ordinals[j]
            < events.len() by {
            assert(member_fits(groups[last], events, groups[last].ordinals[j]));
        }
        let size = records[last].len() as int;
        lemma_numbered_records(records[last], groups[last], events, size);
        assert(records[last].subrange(0, size) =~= records[last]);
        assert(numbered_group(groups[last], events).subrange(0, size) =~= numbered_group(
            groups[last],
            events,
        ));
        assert(stored[last].cohort == groups[last].cohort);
    }
}

/// Decoding a prepared pack gives back the events: the pack validates, every block comes
/// back byte for byte, and where the records of each block are those of its group, collecting
/// them restores all events, in their order, with their timestamps, messages, fields and
/// cohorts.
pub proof fn prepared_pack_gives_back_events(
    events: Seq<EventModel>,
    blocks: Seq<BlockModel>,
    records: Seq<Seq<StructuralRecord>>,
)
    requires
        events.len() <= u32::MAX,
        blocks.len() == group_records(events).len(),
        records.len() == blocks.len(),
        packed(events.len() as u32, group_records(events), blocks) is Ok,
        forall|i: int|
            0 <= i < blocks.len() ==> (#[trigger] blocks[i]).structural.len() > 0 && restorable(
                blocks[i],
            ),
        forall|i: int|
            0 <= i < records.len() ==> records_of_group(
                #[trigger] records[i],
                group_records(events)[i],
                events,
            ),
    ensures
        ({
            let count = events.len() as u32;
            let payload = packed(count, group_records(events), blocks)->Ok_0.0;
            &&& parse_pack(payload, count) matches Ok(stored)
            &&& stored.len() == blocks.len()
            &&& forall|i: int|
                0 <= i < blocks.len() ==> stores(
                    payload,
                    #[trigger] stored[i],
                    group_records(events)[i],
                    blocks[i],
                )
            &&& numbered_stored(stored, records, count, stored.len()) matches Ok(list)
            &&& collected(list, count) == Ok::<_, LogDbError>(events)
        }),
{
    let count = events.len() as u32;
    let groups = group_records(events);
    let payload = packed(count, groups, blocks)->Ok_0.0;
    grouping_partitions_records(events);
    assert forall|i: int| 0 <= i < groups.len() implies storable(
        #[trigger] groups[i],
        blocks[i],
    ) by {
        assert(blocks[i].structural.len() > 0);
    }
    pack_round_trip(count, groups, blocks);
    let stored = parse_pack(payload, count)->Ok_0;
    assert forall|i: int| 0 <= i < groups.len() implies (#[trigger] stored[i]).cohort
        == groups[i].cohort && group_block(payload, stored[i]) == Ok::<_, LogDbFault>(
        blocks[i].structural,
    ) by {
        assert(stores(payload, stored[i], groups[i], blocks[i]));
    }
    lemma_numbered_stored(stored, groups, records, events, groups.len());
    assert(groups.subrange(0, groups.len() as int) =~= groups);
    collecting_restores_order(events);
}

} // verus!
