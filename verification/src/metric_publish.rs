//! Sealing of partitions and publication of sealed metric chunks.
use vstd::prelude::*;

use crate::metric_codec::TelemetryError;
use crate::metric_sound::{released_stay_sound, sealed_stay_sound, sound};
use crate::metric_stripe::{
    chunks_view, seal_head, MetricStripe, SealedMetricChunk, SealedModel, StripeModel,
};
use crate::record::TopicPartition;

verus! {

broadcast use vstd::seq_lib::group_seq_properties;

/// Description of a sealed chunk that awaits publication.
#[derive(Debug, Clone, Copy, PartialEq, Eq, Structural)]
pub struct SignalTierPayload {
    /// Number of the chunk.
    pub resident_id: u64,
    /// Partition of the series.
    pub topic_partition: TopicPartition,
    /// Canonical series fingerprint.
    pub signal_identity: u128,
    /// Lowest offset of the points.
    pub first_offset: u64,
    /// Highest offset of the points.
    pub last_offset: u64,
    /// Number of points.
    pub record_count: u32,
    /// Lowest timestamp of the points.
    pub min_timestamp_unix_nanos: u64,
    /// Highest timestamp of the points.
    pub max_timestamp_unix_nanos: u64,
}

/// Whether a description covers exactly the points of a chunk.
pub open spec fn describes(payload: SignalTierPayload, chunk: SealedModel) -> bool {
    &&& payload.resident_id == chunk.resident_id
    &&& payload.topic_partition == chunk.topic_partition
    &&& payload.signal_identity == chunk.series
    &&& payload.record_count == chunk.points.len()
    &&& forall|i: int|
        0 <= i < chunk.points.len() ==> payload.first_offset <= (
        #[trigger] chunk.points[i]).offset <= payload.last_offset
    &&& exists|i: int|
        0 <= i < chunk.points.len() && (#[trigger] chunk.points[i]).offset == payload.first_offset
    &&& exists|i: int|
        0 <= i < chunk.points.len() && (#[trigger] chunk.points[i]).offset == payload.last_offset
    &&& forall|i: int|
        0 <= i < chunk.points.len() ==> payload.min_timestamp_unix_nanos <= (
        #[trigger] chunk.points[i]).timestamp_unix_nanos <= payload.max_timestamp_unix_nanos
    &&& exists|i: int|
        0 <= i < chunk.points.len() && (#[trigger] chunk.points[i]).timestamp_unix_nanos
            == payload.min_timestamp_unix_nanos
    &&& exists|i: int|
        0 <= i < chunk.points.len() && (#[trigger] chunk.points[i]).timestamp_unix_nanos
            == payload.max_timestamp_unix_nanos
}

/// Describes a chunk; fails where it holds more points than a count can state.
pub fn describe_chunk(chunk: &SealedMetricChunk) -> (result: Result<
    SignalTierPayload,
    TelemetryError,
>)
    requires
        chunk.points@.len() > 0,
    ensures
        match result {
            Ok(payload) => chunk.points@.len() <= u32::MAX && describes(payload, chunk@),
            Err(error) => chunk.points@.len() > u32::MAX && error == TelemetryError::RecordTooLarge,
        },
{
    let points = &chunk.points;
    let count: usize = points.len();
    if count as u64 > u32::MAX as u64 {
        return Err(TelemetryError::RecordTooLarge);
    }
    let mut first: usize = 0;
    let mut last: usize = 0;
    let mut early: usize = 0;
    let mut late: usize = 0;
    let mut index: usize = 1;
    while index < count
        invariant
            points == &chunk.points,
            count == points@.len(),
            1 <= index <= count,
            first < count,
            last < count,
            early < count,
            late < count,
            forall|i: int|
                0 <= i < index ==> points@[first as int].offset <= (#[trigger] points@[i]).offset
                    <= points@[last as int].offset,
            forall|i: int|
                0 <= i < index ==> points@[early as int].timestamp_unix_nanos <= (
                #[trigger] points@[i]).timestamp_unix_nanos
                    <= points@[late as int].timestamp_unix_nanos,
        decreases count - index,
    {
        if points[index].offset < points[first].offset {
            first = index;
        }
        if points[index].offset > points[last].offset {
            last = index;
        }
        if points[index].timestamp_unix_nanos < points[early].timestamp_unix_nanos {
            early = index;
        }
        if points[index].timestamp_unix_nanos > points[late].timestamp_unix_nanos {
            late = index;
        }
        index = index + 1;
    }
    Ok(
        SignalTierPayload {
            resident_id: chunk.resident_id,
            topic_partition: chunk.topic_partition,
            signal_identity: chunk.series,
            first_offset: points[first].offset,
            last_offset: points[last].offset,
            record_count: count as u32,
            min_timestamp_unix_nanos: points[early].timestamp_unix_nanos,
            max_timestamp_unix_nanos: points[late].timestamp_unix_nanos,
        },
    )
}

/// The stripe with the first `count` heads sealed where they are of a partition.
pub open spec fn sealed_partition(
    stripe: StripeModel,
    partition: TopicPartition,
    count: nat,
) -> StripeModel
    decreases count,
{
    if count == 0 {
        stripe
    } else {
        let before = sealed_partition(stripe, partition, (count - 1) as nat);
        if before.heads[count - 1].topic_partition == partition {
            seal_head(before, count - 1)
        } else {
            before
        }
    }
}

/// Chunks of a series.
pub open spec fn chunks_of(chunks: Seq<SealedModel>, series: u128) -> Seq<SealedModel> {
    chunks.filter(|chunk: SealedModel| chunk.series == series)
}

/// Chunks of a partition that await publication.
pub open spec fn pending_of(chunks: Seq<SealedModel>, partition: TopicPartition) -> Seq<
    SealedModel,
> {
    chunks.filter(
        |chunk: SealedModel| chunk.pending && chunk.topic_partition == partition,
    )
}

/// Chunks without those that were published.
pub open spec fn unpublished(chunks: Seq<SealedModel>, published: Seq<u64>) -> Seq<SealedModel> {
    chunks.filter(|chunk: SealedModel| !published.contains(chunk.resident_id))
}

/// Values of chunks behind references.
pub open spec fn chunk_models(references: Seq<&SealedMetricChunk>) -> Seq<SealedModel> {
    references.map_values(|reference: &SealedMetricChunk| reference@)
}

proof fn lemma_filter_step(models: Seq<SealedModel>, index: int, keep: spec_fn(SealedModel) -> bool)
    requires
        0 <= index < models.len(),
    ensures
        models.subrange(0, index + 1).filter(keep) == if keep(models[index]) {
            models.subrange(0, index).filter(keep).push(models[index])
        } else {
            models.subrange(0, index).filter(keep)
        },
{
    reveal(Seq::filter);
    let part = models.subrange(0, index + 1);
    assert(part.drop_last() =~= models.subrange(0, index));
    assert(part.last() == models[index]);
}

fn holds_id(ids: &Vec<u64>, id: u64) -> (found: bool)
    ensures
        found == ids@.contains(id),
{
    let mut index: usize = 0;
    while index < ids.len()
        invariant
            index <= ids@.len(),
            forall|i: int| 0 <= i < index ==> ids@[i] != id,
        decreases ids@.len() - index,
    {
        if ids[index] == id {
            return true;
        }
        index = index + 1;
    }
    false
}

impl MetricStripe {
    /// Seals every series head of one logical partition.
    pub fn seal_partition(&mut self, partition: TopicPartition)
        requires
            old(self).counted(),
        ensures
            final(self).counted(),
            final(self)@ == sealed_partition(old(self)@, partition, old(self)@.heads.len()),
            sound(old(self)@) ==> sound(final(self)@),
    {
        let total: usize = self.series.len();
        let mut index: usize = 0;
        while index < total
            invariant
                self.counted(),
                index <= total,
                total == old(self)@.heads.len(),
                self.series@.len() == total,
                self@ == sealed_partition(old(self)@, partition, index as nat),
            decreases total - index,
        {
            proof {
                assert(self@.heads[index as int] == self.series@[index as int]@);
            }
            if self.series[index].topic_partition == partition {
                self.seal_at(index);
            }
            index = index + 1;
        }
        proof {
            if sound(old(self)@) {
                sealed_stay_sound(old(self)@, partition, total as nat);
            }
        }
    }

    /// Chunks of one series, oldest first.
    pub fn chunks<'a>(&'a self, series: u128) -> (found: Vec<&'a SealedMetricChunk>)
        ensures
            chunk_models(found@) == chunks_of(self@.chunks, series),
    {
        let ghost models = self@.chunks;
        let ghost keep = |chunk: SealedModel| chunk.series == series;
        let mut found: Vec<&'a SealedMetricChunk> = Vec::new();
        let mut index: usize = 0;
        proof {
            reveal(Seq::filter);
            assert(chunk_models(found@) =~= models.subrange(0, 0).filter(keep));
        }
        while index < self.chunks.len()
            invariant
                index <= self.chunks@.len(),
                models == self@.chunks,
                keep == (|chunk: SealedModel| chunk.series == series),
                chunk_models(found@) == models.subrange(0, index as int).filter(keep),
            decreases self.chunks@.len() - index,
        {
            let chunk = &self.chunks[index];
            proof {
                lemma_filter_step(models, index as int, keep);
                assert(models[index as int] == chunk@);
                assert(chunk_models(found@.push(chunk)) =~= chunk_models(found@).push(chunk@));
            }
            if chunk.series == series {
                found.push(chunk);
            }
            index = index + 1;
        }
        proof {
            assert(models.subrange(0, index as int) =~= models);
        }
        found
    }

    /// Chunks of one partition that await publication, oldest first.
    pub fn pending_partition<'a>(&'a self, partition: TopicPartition) -> (found: Vec<
        &'a SealedMetricChunk,
    >)
        ensures
            chunk_models(found@) == pending_of(self@.chunks, partition),
    {
        let ghost models = self@.chunks;
        let ghost keep = |chunk: SealedModel| chunk.pending && chunk.topic_partition == partition;
        let mut found: Vec<&'a SealedMetricChunk> = Vec::new();
        let mut index: usize = 0;
        proof {
            reveal(Seq::filter);
            assert(chunk_models(found@) =~= models.subrange(0, 0).filter(keep));
        }
        while index < self.chunks.len()
            invariant
                index <= self.chunks@.len(),
                models == self@.chunks,
                keep == (|chunk: SealedModel| chunk.pending && chunk.topic_partition == partition),
                chunk_models(found@) == models.subrange(0, index as int).filter(keep),
            decreases self.chunks@.len() - index,
        {
            let chunk = &self.chunks[index];
            proof {
                lemma_filter_step(models, index as int, keep);
                assert(models[index as int] == chunk@);
                assert(chunk_models(found@.push(chunk)) =~= chunk_models(found@).push(chunk@));
            }
            if chunk.pending && chunk.topic_partition == partition {
                found.push(chunk);
            }
            index = index + 1;
        }
        proof {
            assert(models.subrange(0, index as int) =~= models);
        }
        found
    }

    /// Drops the chunks that were published.
    pub fn release_published_chunks(&mut self, resident_ids: &Vec<u64>)
        requires
            old(self).counted(),
        ensures
            final(self).counted(),
            final(self)@ == (StripeModel {
                chunks: unpublished(old(self)@.chunks, resident_ids@),
                ..old(self)@
            }),
            sound(old(self)@) ==> sound(final(self)@),
    {
        let ghost start = self@;
        let ghost models = self@.chunks;
        let ghost keep = |chunk: SealedModel| !resident_ids@.contains(chunk.resident_id);
        let mut left: Vec<SealedMetricChunk> = Vec::new();
        let ghost raw = self.chunks@;
        let mut queue: Vec<SealedMetricChunk> = Vec::new();
        core::mem::swap(&mut queue, &mut self.chunks);
        let ghost mut done: int = 0;
        proof {
            reveal(Seq::filter);
            assert(queue@ =~= raw.subrange(0, raw.len() as int));
            assert(chunks_view(left@) =~= models.subrange(0, 0).filter(keep));
        }
        while queue.len() > 0
            invariant
                0 <= done <= raw.len(),
                models == chunks_view(raw),
                keep == (|chunk: SealedModel| !resident_ids@.contains(chunk.resident_id)),
                queue@ == raw.subrange(done, raw.len() as int),
                chunks_view(left@) == models.subrange(0, done).filter(keep),
            decreases queue@.len(),
        {
            let chunk = queue.remove(0);
            proof {
                lemma_filter_step(models, done, keep);
                assert(chunk == raw[done]);
                assert(models[done] == chunk@);
                assert(chunks_view(left@.push(chunk)) =~= chunks_view(left@).push(chunk@));
                assert(queue@ =~= raw.subrange(done + 1, raw.len() as int));
                done = done + 1;
            }
            if !holds_id(resident_ids, chunk.resident_id) {
                left.push(chunk);
            }
        }
        proof {
            assert(models.subrange(0, done) =~= models);
        }
        self.chunks = left;
        proof {
            assert(self@.heads =~= start.heads);
            if sound(start) {
                released_stay_sound(start, resident_ids@);
            }
        }
    }
}

} // verus!
