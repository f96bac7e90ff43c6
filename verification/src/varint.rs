//! Base-128 variable-length integers and zigzag numbers.
use vstd::arithmetic::div_mod::{lemma_mod_multiples_vanish, lemma_small_mod};
use vstd::prelude::*;

verus! {

broadcast use vstd::seq_lib::group_seq_properties;

/// Why a variable-length integer cannot be read.
#[derive(Debug, Clone, Copy, PartialEq, Eq, Structural)]
pub enum VarintFault {
    /// Bytes end inside the integer.
    Truncated,
    /// The integer has too many groups.
    TooLong,
}

/// Number of values of `n` seven-bit groups.
pub open spec fn pow128(n: nat) -> nat
    decreases n,
{
    if n == 0 {
        1
    } else {
        128 * pow128((n - 1) as nat)
    }
}

/// Seven-bit groups of a number, low group first; all but the last have the top
/// bit set.
pub open spec fn varint_bytes(value: nat) -> Seq<u8>
    decreases value,
{
    if value < 128 {
        seq![value as u8]
    } else {
        seq![(value % 128 + 128) as u8] + varint_bytes(value / 128)
    }
}

/// The number whose groups start at `at`, with the place of the first group and
/// the sum of earlier groups given. At most `groups` groups belong to a number.
pub open spec fn varint_from(
    bytes: Seq<u8>,
    at: int,
    groups: nat,
    place: nat,
    sum: nat,
) -> Result<(nat, int), VarintFault>
    decreases groups,
{
    if groups == 0 {
        Err(VarintFault::TooLong)
    } else if at >= bytes.len() {
        Err(VarintFault::Truncated)
    } else if bytes[at] < 128 {
        Ok((sum + bytes[at] as nat * place, at + 1))
    } else {
        varint_from(
            bytes,
            at + 1,
            (groups - 1) as nat,
            128 * place,
            sum + (bytes[at] as nat - 128) as nat * place,
        )
    }
}

/// The 64-bit number at `at`; higher bits of the tenth group are dropped.
pub open spec fn parse_varint(bytes: Seq<u8>, at: int) -> Result<(u64, int), VarintFault> {
    match varint_from(bytes, at, 10, 1, 0) {
        Ok((value, end)) => Ok(((value % 0x1_0000_0000_0000_0000) as u64, end)),
        Err(fault) => Err(fault),
    }
}

/// The 128-bit number at `at`; higher bits of the nineteenth group are dropped.
pub open spec fn parse_varint128(bytes: Seq<u8>, at: int) -> Result<(u128, int), VarintFault> {
    match varint_from(bytes, at, 19, 1, 0) {
        Ok((value, end)) => Ok(
            ((value % 0x1_0000_0000_0000_0000_0000_0000_0000_0000nat) as u128, end),
        ),
        Err(fault) => Err(fault),
    }
}

proof fn lemma_varint_from(bytes: Seq<u8>, at: int, groups: nat, place: nat, sum: nat, value: nat)
    requires
        0 <= at,
        at + varint_bytes(value).len() <= bytes.len(),
        bytes.subrange(at, at + varint_bytes(value).len()) == varint_bytes(value),
        value < pow128(groups),
        groups > 0,
    ensures
        varint_from(bytes, at, groups, place, sum) == Ok::<_, VarintFault>(
            (sum + value * place, at + varint_bytes(value).len()),
        ),
    decreases value,
{
    let part = varint_bytes(value);
    let got = bytes.subrange(at, at + part.len());
    assert(got[0] == bytes[at]);
    if value < 128 {
        assert(bytes[at] as nat == value);
    } else {
        let rest = varint_bytes(value / 128);
        assert(part[0] == (value % 128 + 128) as u8);
        assert(bytes.subrange(at + 1, at + 1 + rest.len()) =~= rest) by {
            assert forall|i: int| 0 <= i < rest.len() implies bytes.subrange(
                at + 1,
                at + 1 + rest.len(),
            )[i] == rest[i] by {
                assert(got[i + 1] == part[i + 1]);
            }
        }
        assert(value / 128 < pow128((groups - 1) as nat));
        let low = (bytes[at] as nat - 128) as nat;
        assert(low == value % 128);
        lemma_varint_from(
            bytes,
            at + 1,
            (groups - 1) as nat,
            128 * place,
            sum + low * place,
            value / 128,
        );
        assert(sum + low * place + (value / 128) * (128 * place) == sum + value * place)
            by (nonlinear_arith)
            requires
                low == value % 128,
        ;
    }
}

/// Values that fit ten and nineteen groups.
pub proof fn lemma_pow128_values()
    ensures
        pow128(1) == 128,
        pow128(9) == 0x8000_0000_0000_0000,
        pow128(10) == 0x40_0000_0000_0000_0000,
        pow128(18) == 0x4000_0000_0000_0000_0000_0000_0000_0000,
        pow128(19) > 0x1_0000_0000_0000_0000_0000_0000_0000_0000nat,
{
    reveal_with_fuel(pow128, 20);
}

/// A written 64-bit number reads back.
pub proof fn varint_round_trip(bytes: Seq<u8>, at: int, value: u64)
    requires
        0 <= at,
        at + varint_bytes(value as nat).len() <= bytes.len(),
        bytes.subrange(at, at + varint_bytes(value as nat).len()) == varint_bytes(value as nat),
    ensures
        parse_varint(bytes, at) == Ok::<_, VarintFault>(
            (value, at + varint_bytes(value as nat).len()),
        ),
{
    lemma_pow128_values();
    lemma_varint_from(bytes, at, 10, 1, 0, value as nat);
    assert(value as nat * 1 == value);
}

/// A written 128-bit number reads back.
pub proof fn varint128_round_trip(bytes: Seq<u8>, at: int, value: u128)
    requires
        0 <= at,
        at + varint_bytes(value as nat).len() <= bytes.len(),
        bytes.subrange(at, at + varint_bytes(value as nat).len()) == varint_bytes(value as nat),
    ensures
        parse_varint128(bytes, at) == Ok::<_, VarintFault>(
            (value, at + varint_bytes(value as nat).len()),
        ),
{
    lemma_pow128_values();
    lemma_varint_from(bytes, at, 19, 1, 0, value as nat);
    assert(value as nat * 1 == value);
}

/// Appends a number in seven-bit groups.
pub fn write_varint128(value: u128, encoded: &mut Vec<u8>)
    ensures
        final(encoded)@ == old(encoded)@ + varint_bytes(value as nat),
{
    let ghost start = encoded@;
    let mut rest: u128 = value;
    while rest >= 0x80
        invariant
            start + varint_bytes(value as nat) == encoded@ + varint_bytes(rest as nat),
        decreases rest,
    {
        let low: u8 = (rest % 128) as u8 + 128;
        proof {
            assert(encoded@ + varint_bytes(rest as nat) =~= encoded@.push(low) + varint_bytes(
                rest as nat / 128,
            ));
        }
        encoded.push(low);
        rest = rest / 128;
    }
    encoded.push(rest as u8);
    proof {
        assert(encoded@ =~= start + varint_bytes(value as nat));
    }
}

/// Appends a 64-bit number in seven-bit groups.
pub fn write_varint(value: u64, encoded: &mut Vec<u8>)
    ensures
        final(encoded)@ == old(encoded)@ + varint_bytes(value as nat),
{
    write_varint128(value as u128, encoded)
}

/// Reads a 64-bit number and the position behind it.
pub fn read_varint(encoded: &[u8], cursor: usize) -> (result: Result<(u64, usize), VarintFault>)
    requires
        cursor <= encoded@.len(),
    ensures
        match result {
            Ok((value, end)) => parse_varint(encoded@, cursor as int) == Ok::<_, VarintFault>(
                (value, end as int),
            ) && end <= encoded@.len(),
            Err(fault) => parse_varint(encoded@, cursor as int) == Err::<(u64, int), _>(fault),
        },
{
    let mut at: usize = cursor;
    let mut groups: usize = 10;
    let mut place: u128 = 1;
    let mut sum: u128 = 0;
    while groups > 0
        invariant
            groups <= 10,
            cursor <= at <= encoded@.len(),
            place == pow128((10 - groups) as nat),
            sum < place,
            varint_from(encoded@, cursor as int, 10, 1, 0) == varint_from(
                encoded@,
                at as int,
                groups as nat,
                place as nat,
                sum as nat,
            ),
        decreases groups,
    {
        if at >= encoded.len() {
            return Err(VarintFault::Truncated);
        }
        let byte: u8 = encoded[at];
        at = at + 1;
        proof {
            lemma_pow128_values();
            lemma_pow128_monotonic((10 - groups) as nat, 9);
            assert(pow128((11 - groups) as nat) == 128 * pow128((10 - groups) as nat));
        }
        if byte < 128 {
            assert(byte as nat * place as nat <= 127 * place as nat) by (nonlinear_arith)
                requires
                    byte < 128,
            ;
            let value: u128 = sum + byte as u128 * place;
            return Ok(((value % 0x1_0000_0000_0000_0000) as u64, at));
        }
        assert((byte - 128) as nat * place as nat <= 127 * place as nat) by (nonlinear_arith)
            requires
                128 <= byte < 256,
        ;
        sum = sum + (byte - 128) as u128 * place;
        place = 128 * place;
        groups = groups - 1;
    }
    Err(VarintFault::TooLong)
}

pub proof fn lemma_pow128_monotonic(a: nat, b: nat)
    requires
        a <= b,
    ensures
        pow128(a) <= pow128(b),
    decreases b,
{
    if a < b {
        lemma_pow128_monotonic(a, (b - 1) as nat);
    }
}

/// Reads a 128-bit number and the position behind it.
pub fn read_varint128(encoded: &[u8], cursor: usize) -> (result: Result<(u128, usize), VarintFault>)
    requires
        cursor <= encoded@.len(),
    ensures
        match result {
            Ok((value, end)) => parse_varint128(encoded@, cursor as int) == Ok::<_, VarintFault>(
                (value, end as int),
            ) && end <= encoded@.len(),
            Err(fault) => parse_varint128(encoded@, cursor as int) == Err::<(u128, int), _>(fault),
        },
{
    let mut at: usize = cursor;
    let mut groups: usize = 19;
    let mut place: u128 = 1;
    let mut sum: u128 = 0;
    while groups > 1
        invariant
            1 <= groups <= 19,
            cursor <= at <= encoded@.len(),
            place == pow128((19 - groups) as nat),
            sum < place,
            varint_from(encoded@, cursor as int, 19, 1, 0) == varint_from(
                encoded@,
                at as int,
                groups as nat,
                place as nat,
                sum as nat,
            ),
        decreases groups,
    {
        if at >= encoded.len() {
            return Err(VarintFault::Truncated);
        }
        let byte: u8 = encoded[at];
        at = at + 1;
        proof {
            lemma_pow128_values();
            lemma_pow128_monotonic((20 - groups) as nat, 18);
            assert(pow128((20 - groups) as nat) == 128 * pow128((19 - groups) as nat));
        }
        if byte < 128 {
            assert(byte as nat * place as nat <= 127 * place as nat) by (nonlinear_arith)
                requires
                    byte < 128,
            ;
            let value: u128 = sum + byte as u128 * place;
            return Ok((value, at));
        }
        assert((byte - 128) as nat * place as nat <= 127 * place as nat) by (nonlinear_arith)
            requires
                128 <= byte < 256,
        ;
        sum = sum + (byte - 128) as u128 * place;
        place = 128 * place;
        groups = groups - 1;
    }
    if at >= encoded.len() {
        return Err(VarintFault::Truncated);
    }
    let byte: u8 = encoded[at];
    if byte >= 128 {
        proof {
            reveal_with_fuel(varint_from, 2);
        }
        return Err(VarintFault::TooLong);
    }
    proof {
        lemma_pow128_values();
    }
    // The last group starts at bit 126; only its two low bits are kept.
    let kept: u128 = (byte % 4) as u128;
    let value: u128 = sum + kept * 0x4000_0000_0000_0000_0000_0000_0000_0000;
    proof {
        let whole = sum as nat + byte as nat * place as nat;
        let limit: nat = 0x1_0000_0000_0000_0000_0000_0000_0000_0000nat;
        assert(place as nat * 4 == limit);
        assert(whole == value as nat + (byte as nat / 4) * limit) by (nonlinear_arith)
            requires
                whole == sum as nat + byte as nat * place as nat,
                place as nat * 4 == limit,
                value as nat == sum as nat + kept as nat * place as nat,
                kept as nat == byte as nat % 4,
        ;
        lemma_mod_multiples_vanish(
            (byte as nat / 4) as int,
            value as int,
            limit as int,
        );
        assert((limit as int) * ((byte as nat / 4) as int) + value as int == whole) by (nonlinear_arith)
            requires
                whole == value as nat + (byte as nat / 4) * limit,
        ;
        lemma_small_mod(value as nat, limit);
    }
    Ok((value, at + 1))
}

/// Numbers of either sign as numbers without one: 0, -1, 1, -2, 2, ...
pub open spec fn zigzag(value: int) -> nat {
    if value >= 0 {
        (2 * value) as nat
    } else {
        (-2 * value - 1) as nat
    }
}

/// The number that a zigzag number stands for.
pub open spec fn unzigzag(value: nat) -> int {
    if value % 2 == 0 {
        (value / 2) as int
    } else {
        -((value / 2) as int) - 1
    }
}

/// Zigzag numbers stand for what they were made from, and each number without a
/// sign is the zigzag form of one number.
pub proof fn zigzag_round_trip(signed: int, unsigned: nat)
    ensures
        unzigzag(zigzag(signed)) == signed,
        zigzag(unzigzag(unsigned)) == unsigned,
{
}

/// Zigzag form of a 64-bit number.
pub fn zigzag_i64(value: i64) -> (result: u64)
    ensures
        result == zigzag(value as int),
{
    if value >= 0 {
        value as u64 * 2
    } else {
        (-(value + 1)) as u64 * 2 + 1
    }
}

/// The 64-bit number of a zigzag form.
pub fn unzigzag_i64(value: u64) -> (result: i64)
    ensures
        result == unzigzag(value as nat),
{
    if value % 2 == 0 {
        (value / 2) as i64
    } else {
        -((value / 2) as i64) - 1
    }
}

/// Zigzag form of a 128-bit number.
pub fn zigzag_i128(value: i128) -> (result: u128)
    ensures
        result == zigzag(value as int),
{
    if value >= 0 {
        value as u128 * 2
    } else {
        (-(value + 1)) as u128 * 2 + 1
    }
}

/// The 128-bit number of a zigzag form.
pub fn unzigzag_i128(value: u128) -> (result: i128)
    ensures
        result == unzigzag(value as nat),
{
    if value % 2 == 0 {
        (value / 2) as i128
    } else {
        -((value / 2) as i128) - 1
    }
}

} // verus!
