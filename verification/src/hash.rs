//! FNV-1a hashing.
use vstd::prelude::*;

verus! {

broadcast use vstd::seq_lib::group_seq_properties;

/// Initial FNV-1a state.
pub const FNV_OFFSET: u64 = 0xcbf2_9ce4_8422_2325;

/// FNV-1a multiplier.
pub const FNV_PRIME: u64 = 0x0000_0100_0000_01b3;

/// State after hashing one byte.
pub open spec fn fnv_step(state: u64, byte: u8) -> u64 {
    (state ^ (byte as u64)).wrapping_mul(FNV_PRIME)
}

/// State after hashing a byte string.
pub open spec fn fnv_bytes(state: u64, bytes: Seq<u8>) -> u64
    decreases bytes.len(),
{
    if bytes.len() == 0 {
        state
    } else {
        fnv_step(fnv_bytes(state, bytes.drop_last()), bytes.last())
    }
}

/// Hashes one byte.
pub fn fnv_push(state: u64, byte: u8) -> (next: u64)
    ensures
        next == fnv_step(state, byte),
{
    (state ^ (byte as u64)).wrapping_mul(FNV_PRIME)
}

/// Hashes a byte string.
pub fn fnv_extend(state: u64, bytes: &[u8]) -> (next: u64)
    ensures
        next == fnv_bytes(state, bytes@),
{
    let mut next: u64 = state;
    let mut index: usize = 0;
    proof {
        assert(bytes@.subrange(0, 0) =~= Seq::<u8>::empty());
    }
    while index < bytes.len()
        invariant
            index <= bytes@.len(),
            next == fnv_bytes(state, bytes@.subrange(0, index as int)),
        decreases bytes@.len() - index,
    {
        proof {
            assert(bytes@.subrange(0, index + 1).drop_last() =~= bytes@.subrange(0, index as int));
        }
        next = fnv_push(next, bytes[index]);
        index = index + 1;
    }
    proof {
        assert(bytes@.subrange(0, index as int) =~= bytes@);
    }
    next
}

} // verus!
