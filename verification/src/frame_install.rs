//! Frames of compressed appends as a stripe installs them.
use vstd::prelude::*;

use crate::codec::same_text;
use crate::error::{block_fault, BlockFault, LogDbError};
use crate::ingest_frames::IndexedIngestFrame;
use crate::ingest_pack::StructuralRecord;
use crate::posting::rising;

verus! {

broadcast use vstd::seq_lib::group_seq_properties;

/// Records of a frame that the index of the frame lists for a term or a field.
#[derive(Debug)]
pub struct FramePosting {
    /// Key of the field; empty for a term.
    pub key: String,
    /// Value of the field, or the term in search form.
    pub value: String,
    /// Ordinals of the records in the frame, ascending.
    pub ordinals: Vec<u32>,
}

/// Frame of a compressed append with what its decoder gives: the records, the terms of
/// their messages in search form, and the embedded index.
pub struct InstalledFrame {
    /// The compressed frame.
    pub frame: IndexedIngestFrame,
    /// Its records.
    pub records: Vec<StructuralRecord>,
    /// Terms of the records.
    pub terms: Vec<Vec<String>>,
    /// Its index.
    pub index: Vec<FramePosting>,
}

/// The ordinals that an index lists for a key and a value.
pub open spec fn postings_of(index: Seq<FramePosting>, key: Seq<char>, value: Seq<char>) -> Seq<u32>
    decreases index.len(),
{
    if index.len() == 0 {
        Seq::empty()
    } else if index.last().key@ == key && index.last().value@ == value {
        index.last().ordinals@
    } else {
        postings_of(index.drop_last(), key, value)
    }
}

/// Every list of an index ascends and stays below the number of records.
pub open spec fn index_sound(index: Seq<FramePosting>, count: u32) -> bool {
    forall|i: int|
        0 <= i < index.len() ==> rising((#[trigger] index[i]).ordinals@) && ordinals_below(
            index[i].ordinals@,
            count,
        )
}

/// All ordinals are below a number.
pub open spec fn ordinals_below(ordinals: Seq<u32>, count: u32) -> bool {
    forall|i: int| 0 <= i < ordinals.len() ==> #[trigger] ordinals[i] < count
}

/// Whether a record lies outside its append.
pub open spec fn ordinal_outside(records: Seq<StructuralRecord>, record_count: u32) -> bool {
    exists|i: int| 0 <= i < records.len() && (#[trigger] records[i]).offset >= record_count
}

/// Whether a record lies outside the time range of its frame.
pub open spec fn time_outside(records: Seq<StructuralRecord>, first: u64, last: u64) -> bool {
    exists|i: int|
        0 <= i < records.len() && !(first <= (#[trigger] records[i]).timestamp_unix_nanos <= last)
}

/// Why a frame cannot be installed with an append of `record_count` records: its parts
/// disagree in number, or a record lies outside the append or outside the time range of
/// the frame.
pub open spec fn frame_fault(frame: InstalledFrame, record_count: u32) -> Option<LogDbError> {
    if frame.records@.len() != frame.frame.record_count || frame.terms@.len()
        != frame.frame.record_count || !index_sound(frame.index@, frame.frame.record_count) {
        Some(block_fault(BlockFault::FrameIndexCount))
    } else if ordinal_outside(frame.records@, record_count) {
        Some(block_fault(BlockFault::RecordOrdinal))
    } else if time_outside(
        frame.records@,
        frame.frame.min_timestamp_unix_nanos,
        frame.frame.max_timestamp_unix_nanos,
    ) {
        Some(block_fault(BlockFault::InvalidGroup))
    } else {
        None
    }
}

/// The first fault of frames.
pub open spec fn frames_fault(frames: Seq<InstalledFrame>, record_count: u32) -> Option<LogDbError>
    decreases frames.len(),
{
    if frames.len() == 0 {
        None
    } else {
        match frames_fault(frames.drop_last(), record_count) {
            Some(error) => Some(error),
            None => frame_fault(frames.last(), record_count),
        }
    }
}

/// Without a fault of all frames, none of them has one.
pub proof fn lemma_no_fault(frames: Seq<InstalledFrame>, record_count: u32)
    requires
        frames_fault(frames, record_count) is None,
    ensures
        forall|i: int|
            0 <= i < frames.len() ==> frame_fault(#[trigger] frames[i], record_count) is None,
    decreases frames.len(),
{
    if frames.len() > 0 {
        let front = frames.drop_last();
        lemma_no_fault(front, record_count);
        assert forall|i: int| 0 <= i < frames.len() implies frame_fault(
            #[trigger] frames[i],
            record_count,
        ) is None by {
            if i < front.len() {
                assert(frames[i] == front[i]);
            }
        }
    }
}

proof fn lemma_fault_stays(frames: Seq<InstalledFrame>, n: int, record_count: u32)
    requires
        0 <= n <= frames.len(),
        frames_fault(frames.subrange(0, n), record_count) is Some,
    ensures
        frames_fault(frames, record_count) == frames_fault(frames.subrange(0, n), record_count),
    decreases frames.len(),
{
    if n == frames.len() {
        assert(frames.subrange(0, n) =~= frames);
    } else {
        assert(frames.drop_last().subrange(0, n) =~= frames.subrange(0, n));
        lemma_fault_stays(frames.drop_last(), n, record_count);
    }
}

fn list_is_sound(ordinals: &Vec<u32>, count: u32) -> (sound: bool)
    ensures
        sound == (rising(ordinals@) && ordinals_below(ordinals@, count)),
{
    let mut index: usize = 0;
    while index < ordinals.len()
        invariant
            index <= ordinals@.len(),
            forall|i: int| 0 <= i < index ==> #[trigger] ordinals@[i] < count,
            forall|i: int, j: int|
                0 <= i < j < index ==> #[trigger] ordinals@[i] < #[trigger] ordinals@[j],
        decreases ordinals@.len() - index,
    {
        if ordinals[index] >= count || (index > 0 && ordinals[index - 1] >= ordinals[index]) {
            proof {
                if index > 0 {
                    assert(rising(ordinals@) ==> ordinals@[index - 1] < ordinals@[index as int]);
                }
                assert(ordinals_below(ordinals@, count) ==> ordinals@[index as int] < count);
            }
            return false;
        }
        index = index + 1;
    }
    true
}

/// Tests one frame.
pub fn check_frame(frame: &InstalledFrame, record_count: u32) -> (result: Result<(), LogDbError>)
    ensures
        match result {
            Ok(_) => frame_fault(*frame, record_count) is None,
            Err(error) => frame_fault(*frame, record_count) == Some(error),
        },
{
    let count: u32 = frame.frame.record_count;
    if frame.records.len() as u64 != count as u64 || frame.terms.len() as u64 != count as u64 {
        return Err(LogDbError::InvalidBlockEncoding(BlockFault::FrameIndexCount));
    }
    let mut list: usize = 0;
    while list < frame.index.len()
        invariant
            list <= frame.index@.len(),
            count == frame.frame.record_count,
            forall|i: int|
                0 <= i < list ==> rising((#[trigger] frame.index@[i]).ordinals@) && ordinals_below(
                    frame.index@[i].ordinals@,
                    count,
                ),
        decreases frame.index@.len() - list,
    {
        if !list_is_sound(&frame.index[list].ordinals, count) {
            proof {
                assert(!index_sound(frame.index@, count)) by {
                    let item = frame.index@[list as int];
                }
            }
            return Err(LogDbError::InvalidBlockEncoding(BlockFault::FrameIndexCount));
        }
        list = list + 1;
    }
    let mut place: usize = 0;
    while place < frame.records.len()
        invariant
            place <= frame.records@.len(),
            index_sound(frame.index@, frame.frame.record_count),
            frame.records@.len() == frame.frame.record_count,
            frame.terms@.len() == frame.frame.record_count,
            forall|i: int| 0 <= i < place ==> (#[trigger] frame.records@[i]).offset < record_count,
        decreases frame.records@.len() - place,
    {
        if frame.records[place].offset >= record_count as u64 {
            return Err(LogDbError::InvalidBlockEncoding(BlockFault::RecordOrdinal));
        }
        place = place + 1;
    }
    let mut at: usize = 0;
    while at < frame.records.len()
        invariant
            at <= frame.records@.len(),
            index_sound(frame.index@, frame.frame.record_count),
            frame.records@.len() == frame.frame.record_count,
            frame.terms@.len() == frame.frame.record_count,
            !ordinal_outside(frame.records@, record_count),
            forall|i: int|
                0 <= i < at ==> frame.frame.min_timestamp_unix_nanos <= (
                #[trigger] frame.records@[i]).timestamp_unix_nanos
                    <= frame.frame.max_timestamp_unix_nanos,
        decreases frame.records@.len() - at,
    {
        let time: u64 = frame.records[at].timestamp_unix_nanos;
        if time < frame.frame.min_timestamp_unix_nanos || time
            > frame.frame.max_timestamp_unix_nanos {
            return Err(LogDbError::InvalidBlockEncoding(BlockFault::InvalidGroup));
        }
        at = at + 1;
    }
    Ok(())
}

/// Tests the frames of an append of `record_count` records.
pub fn check_frames(frames: &Vec<InstalledFrame>, record_count: u32) -> (result: Result<
    (),
    LogDbError,
>)
    ensures
        match result {
            Ok(_) => frames_fault(frames@, record_count) is None,
            Err(error) => frames_fault(frames@, record_count) == Some(error),
        },
{
    let mut index: usize = 0;
    proof {
        assert(frames@.subrange(0, 0) =~= Seq::<InstalledFrame>::empty());
    }
    while index < frames.len()
        invariant
            index <= frames@.len(),
            frames_fault(frames@.subrange(0, index as int), record_count) is None,
        decreases frames@.len() - index,
    {
        proof {
            let part = frames@.subrange(0, index + 1);
            assert(part.drop_last() =~= frames@.subrange(0, index as int));
            assert(part.last() == frames@[index as int]);
        }
        match check_frame(&frames[index], record_count) {
            Ok(_) => {},
            Err(error) => {
                proof {
                    lemma_fault_stays(frames@, index + 1, record_count);
                }
                return Err(error);
            },
        }
        index = index + 1;
    }
    proof {
        assert(frames@.subrange(0, index as int) =~= frames@);
    }
    Ok(())
}

/// The ordinals that an index lists for a key and a value.
pub fn find_postings(index: &Vec<FramePosting>, key: &str, value: &str) -> (ordinals: Vec<u32>)
    ensures
        ordinals@ == postings_of(index@, key@, value@),
{
    let mut left: usize = index.len();
    proof {
        assert(index@.subrange(0, left as int) =~= index@);
    }
    while left > 0
        invariant
            left <= index@.len(),
            postings_of(index@, key@, value@) == postings_of(
                index@.subrange(0, left as int),
                key@,
                value@,
            ),
        decreases left,
    {
        proof {
            let part = index@.subrange(0, left as int);
            assert(part.last() == index@[left - 1]);
            assert(part.drop_last() =~= index@.subrange(0, left - 1));
        }
        left = left - 1;
        if same_text(&index[left].key, key) && same_text(&index[left].value, value) {
            return crate::frame_query::clone_list(&index[left].ordinals);
        }
    }
    proof {
        assert(index@.subrange(0, 0) =~= Seq::<FramePosting>::empty());
    }
    Vec::new()
}

/// What an index lists ascends and stays below the number of records.
pub proof fn lemma_postings_sound(
    index: Seq<FramePosting>,
    count: u32,
    key: Seq<char>,
    value: Seq<char>,
)
    requires
        index_sound(index, count),
    ensures
        rising(postings_of(index, key, value)),
        ordinals_below(postings_of(index, key, value), count),
    decreases index.len(),
{
    if index.len() > 0 {
        let front = index.drop_last();
        assert(index[index.len() - 1] == index.last());
        assert forall|i: int| 0 <= i < front.len() implies rising(
            (#[trigger] front[i]).ordinals@,
        ) && ordinals_below(front[i].ordinals@, count) by {
            assert(front[i] == index[i]);
        }
        lemma_postings_sound(front, count, key, value);
    }
}

} // verus!
