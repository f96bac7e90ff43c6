//! Delta-of-delta timestamp lane of metric chunks.
use vstd::prelude::*;

use crate::codec::{
    le_bytes, le_value, lemma_le_bytes_len, lemma_le_round_trip, lemma_pow256_values, put_le,
    read_u64,
};
use crate::metric_codec::{
    fault, varint_error, wide_varint_error, Lane, MetricFault, TelemetryError,
};
use crate::native_wire::{holds_at, lemma_holds_split};
use crate::varint::{
    parse_varint, parse_varint128, read_varint, read_varint128, unzigzag, unzigzag_i128,
    varint128_round_trip, varint_bytes, varint_round_trip, write_varint, write_varint128, zigzag,
    zigzag_i128, zigzag_round_trip, VarintFault,
};

verus! {

broadcast use vstd::seq_lib::group_seq_properties;

/// Timestamps never decrease.
pub open spec fn never_decreasing(timestamps: Seq<u64>) -> bool {
    forall|i: int| 0 < i < timestamps.len() ==> timestamps[i - 1] <= #[trigger] timestamps[i]
}

/// Step to the timestamp at `i`.
pub open spec fn step_at(timestamps: Seq<u64>, i: int) -> int {
    timestamps[i] - timestamps[i - 1]
}

/// Wire form: the first timestamp, the first step, then the changes of the step.
pub open spec fn wire_timestamps(timestamps: Seq<u64>) -> Seq<u8>
    decreases timestamps.len(),
{
    let n = timestamps.len() as int;
    if n == 0 {
        Seq::empty()
    } else if n == 1 {
        le_bytes(timestamps[0] as nat, 8)
    } else if n == 2 {
        wire_timestamps(timestamps.drop_last()) + varint_bytes(step_at(timestamps, 1) as nat)
    } else {
        wire_timestamps(timestamps.drop_last()) + varint_bytes(
            zigzag(step_at(timestamps, n - 1) - step_at(timestamps, n - 2)),
        )
    }
}

/// The first `count` timestamps of a lane.
pub open spec fn parse_timestamps(bytes: Seq<u8>, count: nat) -> Lane<Seq<u64>>
    decreases count,
{
    if count <= 1 {
        Ok((seq![le_value(bytes.subrange(0, 8)) as u64], 8))
    } else {
        match parse_timestamps(bytes, (count - 1) as nat) {
            Err(error) => Err(error),
            Ok((timestamps, next)) => {
                if count == 2 {
                    match parse_varint(bytes, next) {
                        Err(cause) => Err(varint_error(cause)),
                        Ok((step, end)) => append_step(timestamps, step as int, end),
                    }
                } else {
                    match parse_varint128(bytes, next) {
                        Err(cause) => Err(wide_varint_error(cause)),
                        Ok((change, end)) => {
                            let step = step_at(timestamps, count - 2) + unzigzag(change as nat);
                            if !(0 <= step <= u64::MAX) {
                                Err(fault(MetricFault::DeltaOverflow))
                            } else {
                                append_step(timestamps, step, end)
                            }
                        },
                    }
                }
            },
        }
    }
}

/// One more timestamp, `step` behind the last.
pub open spec fn append_step(timestamps: Seq<u64>, step: int, end: int) -> Lane<Seq<u64>> {
    if timestamps.last() + step > u64::MAX {
        Err(fault(MetricFault::TimestampOverflow))
    } else {
        Ok((timestamps.push((timestamps.last() + step) as u64), end))
    }
}

/// The timestamps of a lane.
pub open spec fn parse_timestamp_lane(bytes: Seq<u8>, count: nat) -> Result<
    Seq<u64>,
    TelemetryError,
> {
    if count == 0 || bytes.len() < 8 {
        Err(fault(MetricFault::InvalidTimestampLane))
    } else {
        match parse_timestamps(bytes, count) {
            Err(error) => Err(error),
            Ok((timestamps, end)) => if end != bytes.len() {
                Err(fault(MetricFault::TrailingTimestamps))
            } else {
                Ok(timestamps)
            },
        }
    }
}

/// Encodes a timestamp lane.
pub fn encode_timestamp_delta_of_delta(timestamps: &[u64]) -> (result: Result<
    Vec<u8>,
    TelemetryError,
>)
    ensures
        match result {
            Ok(encoded) => never_decreasing(timestamps@) && encoded@ == wire_timestamps(
                timestamps@,
            ),
            Err(error) => !never_decreasing(timestamps@) && error == fault(
                MetricFault::UnsortedTimestamps,
            ),
        },
{
    let mut encoded: Vec<u8> = Vec::new();
    if timestamps.len() == 0 {
        proof {
            assert(encoded@ =~= wire_timestamps(timestamps@));
        }
        return Ok(encoded);
    }
    put_le(&mut encoded, timestamps[0] as u128, 8);
    let mut previous_step: u64 = 0;
    let mut index: usize = 1;
    proof {
        assert(encoded@ =~= le_bytes(timestamps@[0] as nat, 8));
        assert(timestamps@.subrange(0, 1)[0] == timestamps@[0]);
    }
    while index < timestamps.len()
        invariant
            1 <= index <= timestamps@.len(),
            never_decreasing(timestamps@.subrange(0, index as int)),
            index > 1 ==> previous_step == step_at(timestamps@, index - 1),
            encoded@ == wire_timestamps(timestamps@.subrange(0, index as int)),
        decreases timestamps@.len() - index,
    {
        let ghost part = timestamps@.subrange(0, index + 1);
        let ghost before = encoded@;
        let timestamp: u64 = timestamps[index];
        let previous: u64 = timestamps[index - 1];
        if timestamp < previous {
            assert(timestamps@[index - 1] > timestamps@[index as int]);
            assert(!never_decreasing(timestamps@));
            return Err(TelemetryError::InvalidBlockEncoding(MetricFault::UnsortedTimestamps));
        }
        let step: u64 = timestamp - previous;
        proof {
            assert(part.drop_last() =~= timestamps@.subrange(0, index as int));
            assert(part[index as int] == timestamp);
            assert(part[index - 1] == previous);
            assert forall|i: int| 0 < i < part.len() implies part[i - 1] <= #[trigger] part[i] by {
                if i < index {
                    assert(timestamps@.subrange(0, index as int)[i] == part[i]);
                    assert(timestamps@.subrange(0, index as int)[i - 1] == part[i - 1]);
                }
            }
        }
        if index == 1 {
            write_varint(step, &mut encoded);
        } else {
            proof {
                assert(part[index - 2] == timestamps@[index - 2]);
            }
            write_varint128(zigzag_i128(step as i128 - previous_step as i128), &mut encoded);
        }
        previous_step = step;
        index = index + 1;
    }
    proof {
        assert(timestamps@.subrange(0, index as int) =~= timestamps@);
    }
    Ok(encoded)
}

proof fn lemma_parse_timestamps_error(bytes: Seq<u8>, few: nat, count: nat)
    requires
        1 <= few <= count,
        parse_timestamps(bytes, few) is Err,
    ensures
        parse_timestamps(bytes, count) == parse_timestamps(bytes, few),
    decreases count,
{
    if few < count {
        lemma_parse_timestamps_error(bytes, few, (count - 1) as nat);
    }
}

/// Decodes a timestamp lane.
pub fn decode_timestamp_delta_of_delta(encoded: &[u8], count: usize) -> (result: Result<
    Vec<u64>,
    TelemetryError,
>)
    ensures
        match result {
            Ok(timestamps) => parse_timestamp_lane(encoded@, count as nat) == Ok::<
                _,
                TelemetryError,
            >(timestamps@),
            Err(error) => parse_timestamp_lane(encoded@, count as nat) == Err::<Seq<u64>, _>(error),
        },
{
    if count == 0 || encoded.len() < 8 {
        return Err(TelemetryError::InvalidBlockEncoding(MetricFault::InvalidTimestampLane));
    }
    let mut cursor: usize = 8;
    let mut previous: u64 = read_u64(encoded, 0);
    let mut previous_step: u64 = 0;
    let mut timestamps: Vec<u64> = Vec::new();
    timestamps.push(previous);
    let mut index: usize = 1;
    proof {
        assert(timestamps@ =~= seq![previous]);
    }
    while index < count
        invariant
            1 <= index <= count,
            cursor <= encoded@.len(),
            8 <= encoded@.len(),
            timestamps@.len() == index,
            previous == timestamps@[index - 1],
            index > 1 ==> previous_step == step_at(timestamps@, index - 1),
            parse_timestamps(encoded@, index as nat) == Ok::<_, TelemetryError>(
                (timestamps@, cursor as int),
            ),
        decreases count - index,
    {
        proof {
            if parse_timestamps(encoded@, (index + 1) as nat) is Err {
                lemma_parse_timestamps_error(encoded@, (index + 1) as nat, count as nat);
            }
        }
        let step: u64;
        if index == 1 {
            match read_varint(encoded, cursor) {
                Ok((read, end)) => {
                    step = read;
                    cursor = end;
                },
                Err(VarintFault::Truncated) => return Err(
                    TelemetryError::InvalidBlockEncoding(MetricFault::TruncatedValue),
                ),
                Err(VarintFault::TooLong) => return Err(
                    TelemetryError::InvalidBlockEncoding(MetricFault::VarintOverflow),
                ),
            }
        } else {
            let change: i128;
            match read_varint128(encoded, cursor) {
                Ok((read, end)) => {
                    change = unzigzag_i128(read);
                    cursor = end;
                },
                Err(VarintFault::Truncated) => return Err(
                    TelemetryError::InvalidBlockEncoding(MetricFault::TruncatedValue),
                ),
                Err(VarintFault::TooLong) => return Err(
                    TelemetryError::InvalidBlockEncoding(MetricFault::WideVarintOverflow),
                ),
            }
            let lowest: i128 = -(previous_step as i128);
            let highest: i128 = u64::MAX as i128 - previous_step as i128;
            if change < lowest || change > highest {
                return Err(TelemetryError::InvalidBlockEncoding(MetricFault::DeltaOverflow));
            }
            step = (previous_step as i128 + change) as u64;
        }
        if step > u64::MAX - previous {
            return Err(TelemetryError::InvalidBlockEncoding(MetricFault::TimestampOverflow));
        }
        previous = previous + step;
        previous_step = step;
        timestamps.push(previous);
        index = index + 1;
    }
    if cursor != encoded.len() {
        return Err(TelemetryError::InvalidBlockEncoding(MetricFault::TrailingTimestamps));
    }
    Ok(timestamps)
}

proof fn lemma_parse_timestamps(bytes: Seq<u8>, timestamps: Seq<u64>)
    requires
        timestamps.len() > 0,
        never_decreasing(timestamps),
        holds_at(bytes, 0, wire_timestamps(timestamps)),
    ensures
        parse_timestamps(bytes, timestamps.len()) == Ok::<_, TelemetryError>(
            (timestamps, wire_timestamps(timestamps).len() as int),
        ),
        wire_timestamps(timestamps).len() >= 8,
    decreases timestamps.len(),
{
    let n = timestamps.len() as int;
    lemma_pow256_values();
    if n == 1 {
        lemma_le_bytes_len(timestamps[0] as nat, 8);
        lemma_le_round_trip(timestamps[0] as nat, 8);
        assert(seq![timestamps[0]] =~= timestamps);
    } else {
        let front = timestamps.drop_last();
        assert(never_decreasing(front)) by {
            assert forall|i: int| 0 < i < front.len() implies front[i - 1] <= #[trigger] front[i] by {
                assert(front[i] == timestamps[i] && front[i - 1] == timestamps[i - 1]);
            }
        }
        let at = wire_timestamps(front).len() as int;
        assert(timestamps[n - 2] <= timestamps[n - 1]);
        if n == 2 {
            let step = step_at(timestamps, 1) as u64;
            lemma_holds_split(bytes, 0, wire_timestamps(front), varint_bytes(step as nat));
            lemma_parse_timestamps(bytes, front);
            varint_round_trip(bytes, at, step);
        } else {
            let change = step_at(timestamps, n - 1) - step_at(timestamps, n - 2);
            assert(timestamps[n - 3] <= timestamps[n - 2]);
            let raw = zigzag(change) as u128;
            lemma_holds_split(bytes, 0, wire_timestamps(front), varint_bytes(raw as nat));
            lemma_parse_timestamps(bytes, front);
            varint128_round_trip(bytes, at, raw);
            zigzag_round_trip(change, 0);
            assert(step_at(front, n - 2) == step_at(timestamps, n - 2));
        }
        assert(front.push(timestamps.last()) =~= timestamps);
    }
}

/// Timestamps that never decrease read back from their lane.
pub proof fn timestamp_lane_round_trip(timestamps: Seq<u64>)
    requires
        timestamps.len() > 0,
        never_decreasing(timestamps),
    ensures
        parse_timestamp_lane(wire_timestamps(timestamps), timestamps.len()) == Ok::<
            _,
            TelemetryError,
        >(timestamps),
{
    let bytes = wire_timestamps(timestamps);
    assert(bytes.subrange(0, bytes.len() as int) =~= bytes);
    lemma_parse_timestamps(bytes, timestamps);
}

} // verus!
