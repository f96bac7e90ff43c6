//! Laws of reading durations, quantities, dates and spans of time.
use vstd::prelude::*;

use crate::api_error::ApiFault;
use crate::loki_time::{
    all_are, civil_days, days_before_month, decimal_bytes, duration_parts, duration_value, ends_in,
    field_type, fraction_of, month_days, quantity_parts, quantity_value, range_bounds,
    rfc3339_value, signed_in, step_of, ten_to, timestamp_of, unsigned_value, value_is,
    without_suffix, zone_from, zone_offset, FieldType, TimeModel, TimeRangeModel,
};
use crate::push_laws::{decimal, integers_are_read_as_written, is_decimal, lemma_digits, writes};

verus! {

broadcast use vstd::seq_lib::group_seq_properties;

/// Nanoseconds of a unit of time.
pub open spec fn unit_nanos(unit: Seq<char>) -> Option<int> {
    if unit == seq!['n', 's'] {
        Some(1)
    } else if unit == seq!['u', 's'] {
        Some(1_000)
    } else if unit == seq!['m', 's'] {
        Some(1_000_000)
    } else if unit == seq!['s'] {
        Some(1_000_000_000)
    } else if unit == seq!['m'] {
        Some(60_000_000_000)
    } else if unit == seq!['h'] {
        Some(3_600_000_000_000)
    } else {
        None
    }
}

proof fn lemma_units()
    ensures
        "ns"@ == seq!['n', 's'],
        "us"@ == seq!['u', 's'],
        "ms"@ == seq!['m', 's'],
        "s"@ == seq!['s'],
        "m"@ == seq!['m'],
        "h"@ == seq!['h'],
{
    reveal_strlit("ns");
    reveal_strlit("us");
    reveal_strlit("ms");
    reveal_strlit("s");
    reveal_strlit("m");
    reveal_strlit("h");
    assert("ns"@ =~= seq!['n', 's']);
    assert("us"@ =~= seq!['u', 's']);
    assert("ms"@ =~= seq!['m', 's']);
    assert("s"@ =~= seq!['s']);
    assert("m"@ =~= seq!['m']);
    assert("h"@ =~= seq!['h']);
}

/// Whether a text ends in a suffix is decided by its last characters.
proof fn lemma_ends(text: Seq<char>, suffix: Seq<char>)
    ensures
        suffix.len() == 1 ==> (ends_in(text, suffix) <==> text.len() >= 1 && text.last()
            == suffix[0]),
        suffix.len() == 2 ==> (ends_in(text, suffix) <==> text.len() >= 2 && text.last()
            == suffix[1] && text[text.len() - 2] == suffix[0]),
        suffix.len() == 3 ==> (ends_in(text, suffix) <==> text.len() >= 3 && text.last()
            == suffix[2] && text[text.len() - 2] == suffix[1] && text[text.len() - 3]
            == suffix[0]),
{
    if text.len() >= suffix.len() {
        let end = text.subrange(text.len() - suffix.len(), text.len() as int);
        if suffix.len() == 1 && text.last() == suffix[0] {
            assert(end =~= suffix);
        }
        if suffix.len() == 2 && text.last() == suffix[1] && text[text.len() - 2] == suffix[0] {
            assert(end =~= suffix);
        }
        if suffix.len() == 3 && text.last() == suffix[2] && text[text.len() - 2] == suffix[1]
            && text[text.len() - 3] == suffix[0] {
            assert(end =~= suffix);
        }
        if end == suffix {
            assert forall|i: int| 0 <= i < suffix.len() implies suffix[i] == text[text.len()
                - suffix.len() + i] by {
                assert(end[i] == suffix[i]);
            }
        }
    }
}

proof fn lemma_number_end(number: Seq<char>, value: int)
    requires
        writes(number, value),
    ensures
        number.len() > 0,
        '0' <= number.last() <= '9',
{
    if !is_decimal(number) {
        let rest = number.drop_first();
        assert(rest[rest.len() - 1] == number[number.len() - 1]);
    } else {
        assert('0' <= number[number.len() - 1] <= '9');
    }
}

/// A number with a unit of time behind it is that many of the unit in nanoseconds, where
/// they fit; one that does not fit is no duration.
pub proof fn durations_are_read_as_written(number: Seq<char>, unit: Seq<char>, value: int)
    requires
        writes(number, value),
        i64::MIN <= value <= i64::MAX,
        unit_nanos(unit) is Some,
    ensures
        duration_value(number + unit) == if i64::MIN <= value * unit_nanos(unit)->0 <= i64::MAX {
            Some(value * unit_nanos(unit)->0)
        } else {
            None
        },
{
    let text = number + unit;
    lemma_units();
    lemma_number_end(number, value);
    lemma_ends(text, "ns"@);
    lemma_ends(text, "us"@);
    lemma_ends(text, "ms"@);
    lemma_ends(text, "s"@);
    lemma_ends(text, "m"@);
    lemma_ends(text, "h"@);
    assert(text.last() == unit.last());
    if unit.len() == 1 {
        assert(text[text.len() - 2] == number.last());
    } else {
        assert(text[text.len() - 2] == unit[0]);
    }
    assert(duration_parts(text) == Some((without_suffix(text, unit), unit_nanos(unit)->0)));
    assert(without_suffix(text, unit) =~= number);
    integers_are_read_as_written(number, i64::MIN as int, i64::MAX as int, value);
}

/// Bytes of a unit of data.
pub open spec fn unit_bytes(unit: Seq<char>) -> Option<int> {
    if unit == seq!['K', 'i', 'B'] {
        Some(1_024)
    } else if unit == seq!['M', 'i', 'B'] {
        Some(1_048_576)
    } else if unit == seq!['G', 'i', 'B'] {
        Some(1_073_741_824)
    } else if unit == seq!['K', 'B'] {
        Some(1_000)
    } else if unit == seq!['M', 'B'] {
        Some(1_000_000)
    } else if unit == seq!['G', 'B'] {
        Some(1_000_000_000)
    } else if unit == seq!['B'] {
        Some(1)
    } else {
        None
    }
}

proof fn lemma_byte_units()
    ensures
        "KiB"@ == seq!['K', 'i', 'B'],
        "MiB"@ == seq!['M', 'i', 'B'],
        "GiB"@ == seq!['G', 'i', 'B'],
        "KB"@ == seq!['K', 'B'],
        "MB"@ == seq!['M', 'B'],
        "GB"@ == seq!['G', 'B'],
        "B"@ == seq!['B'],
{
    reveal_strlit("KiB");
    reveal_strlit("MiB");
    reveal_strlit("GiB");
    reveal_strlit("KB");
    reveal_strlit("MB");
    reveal_strlit("GB");
    reveal_strlit("B");
    assert("KiB"@ =~= seq!['K', 'i', 'B']);
    assert("MiB"@ =~= seq!['M', 'i', 'B']);
    assert("GiB"@ =~= seq!['G', 'i', 'B']);
    assert("KB"@ =~= seq!['K', 'B']);
    assert("MB"@ =~= seq!['M', 'B']);
    assert("GB"@ =~= seq!['G', 'B']);
    assert("B"@ =~= seq!['B']);
}

/// Digits with a unit of data behind them are that many of the unit in bytes, where they
/// fit; what does not fit is no quantity.
pub proof fn quantities_are_read_as_written(digits: Seq<char>, unit: Seq<char>)
    requires
        is_decimal(digits),
        unit_bytes(unit) is Some,
    ensures
        ({
            let bytes = decimal(digits) * unit_bytes(unit)->0;
            let value = quantity_value(digits + unit);
            if decimal(digits) <= u64::MAX && bytes <= u64::MAX {
                value is Some && value->0 == bytes
            } else {
                value is None
            }
        }),
{
    let text = digits + unit;
    lemma_byte_units();
    lemma_ends(text, "KiB"@);
    lemma_ends(text, "MiB"@);
    lemma_ends(text, "GiB"@);
    lemma_ends(text, "KB"@);
    lemma_ends(text, "MB"@);
    lemma_ends(text, "GB"@);
    lemma_ends(text, "B"@);
    assert('0' <= digits[digits.len() - 1] <= '9');
    assert(text.last() == unit.last());
    if unit.len() == 1 {
        assert(text[text.len() - 2] == digits.last());
    } else if unit.len() == 2 {
        assert(text[text.len() - 2] == unit[0]);
        assert(text[text.len() - 3] == digits.last());
    } else {
        assert(text[text.len() - 2] == unit[1]);
        assert(text[text.len() - 3] == unit[0]);
    }
    let scale = unit_bytes(unit)->0;
    assert(quantity_parts(text) == Some((without_suffix(text, unit), scale as nat)));
    assert(without_suffix(text, unit) =~= digits);
    lemma_digits(digits);
    assert('0' <= digits[0] <= '9');
    assert(unsigned_value(digits) is Some && unsigned_value(digits)->0 == decimal(digits));
}

/// The days of a month: the second has one more in a leap year, which is one that four
/// divides, but not one that a hundred divides unless four hundred does.
pub open spec fn days_of(year: int, month: int) -> int {
    let leap = (year % 4 == 0 && year % 100 != 0) || year % 400 == 0;
    if month == 2 {
        if leap {
            29
        } else {
            28
        }
    } else if month == 4 || month == 6 || month == 9 || month == 11 {
        30
    } else {
        31
    }
}

/// Days are counted from the first of January 1970: that day is day zero, and the day after
/// any date is one more, at the end of a month and of a year too.
pub proof fn days_follow_the_calendar(year: int, month: int, day: int)
    requires
        0 <= year,
        1 <= month <= 12,
        1 <= day <= days_of(year, month),
    ensures
        civil_days(1970, 1, 1) == 0,
        month_days(year, month) == days_of(year, month),
        day < days_of(year, month) ==> civil_days(year, month, day + 1) == civil_days(
            year,
            month,
            day,
        ) + 1,
        day == days_of(year, month) && month < 12 ==> civil_days(year, month + 1, 1) == civil_days(
            year,
            month,
            day,
        ) + 1,
        day == days_of(year, month) && month == 12 ==> civil_days(year + 1, 1, 1) == civil_days(
            year,
            month,
            day,
        ) + 1,
{
    assert(days_before_month(1970, 1) == 0);
    if month == 12 {
        reveal_with_fuel(days_before_month, 13);
        assert(days_before_month(year + 1, 1) == 0);
    }
}

/// Whether a byte is an ASCII digit.
pub open spec fn is_digit(byte: u8) -> bool {
    '0' as int <= byte as int <= '9' as int
}

/// The number of two digits.
pub open spec fn two_digits(bytes: Seq<u8>, at: int) -> int {
    (bytes[at] - 48) * 10 + (bytes[at + 1] - 48)
}

proof fn lemma_two_digits(bytes: Seq<u8>, at: int)
    requires
        0 <= at,
        at + 2 <= bytes.len(),
        is_digit(bytes[at]),
        is_digit(bytes[at + 1]),
    ensures
        decimal_bytes(bytes.subrange(at, at + 2)) is Some,
        decimal_bytes(bytes.subrange(at, at + 2))->0 == two_digits(bytes, at),
        0 <= two_digits(bytes, at) <= 99,
{
    let both = bytes.subrange(at, at + 2);
    let one = both.drop_last();
    let none = one.drop_last();
    assert(both.last() == bytes[at + 1]);
    assert(one.last() == bytes[at]);
    assert(none.len() == 0);
    assert(decimal_bytes(none) == Some(0nat));
    assert(decimal_bytes(one) == Some((bytes[at] - 48) as nat));
}

/// The number of four digits.
pub open spec fn four_digits(bytes: Seq<u8>) -> int {
    (bytes[0] - 48) * 1000 + (bytes[1] - 48) * 100 + (bytes[2] - 48) * 10 + (bytes[3] - 48)
}

proof fn lemma_four_digits(bytes: Seq<u8>)
    requires
        bytes.len() >= 4,
        forall|i: int| 0 <= i < 4 ==> is_digit(#[trigger] bytes[i]),
    ensures
        decimal_bytes(bytes.subrange(0, 4)) is Some,
        decimal_bytes(bytes.subrange(0, 4))->0 == four_digits(bytes),
        0 <= four_digits(bytes) <= 9999,
{
    let all = bytes.subrange(0, 4);
    let three = all.drop_last();
    let two = three.drop_last();
    let one = two.drop_last();
    let none = one.drop_last();
    assert(all.last() == bytes[3]);
    assert(three.last() == bytes[2]);
    assert(two.last() == bytes[1]);
    assert(one.last() == bytes[0]);
    assert(none.len() == 0);
    assert(decimal_bytes(none) == Some(0nat));
    assert(decimal_bytes(one) == Some((bytes[0] - 48) as nat));
    assert(decimal_bytes(two) == Some(((bytes[0] - 48) * 10 + (bytes[1] - 48)) as nat));
    assert(decimal_bytes(three) == Some(
        ((bytes[0] - 48) * 100 + (bytes[1] - 48) * 10 + (bytes[2] - 48)) as nat,
    ));
}

/// Whether bytes start as a date and a time of day: digits with the separators between them.
pub open spec fn starts_as_time(bytes: Seq<u8>) -> bool {
    &&& bytes.len() >= 20
    &&& forall|i: int|
        0 <= i < 19 && i != 4 && i != 7 && i != 10 && i != 13 && i != 16 ==> is_digit(
            #[trigger] bytes[i],
        )
    &&& bytes[4] == '-' as int && bytes[7] == '-' as int && bytes[10] == 'T' as int && bytes[13]
        == ':' as int && bytes[16] == ':' as int
}

/// Whether the date and the time of day at the start of bytes exist.
pub open spec fn time_exists(bytes: Seq<u8>) -> bool {
    &&& 1 <= two_digits(bytes, 5) <= 12
    &&& 1 <= two_digits(bytes, 8) <= days_of(four_digits(bytes), two_digits(bytes, 5))
    &&& two_digits(bytes, 11) < 24
    &&& two_digits(bytes, 14) < 60
    &&& two_digits(bytes, 17) < 60
}

/// Seconds from 1970 to the date and the time of day at the start of bytes.
pub open spec fn seconds_at(bytes: Seq<u8>) -> int {
    civil_days(four_digits(bytes), two_digits(bytes, 5), two_digits(bytes, 8)) * 86_400 + two_digits(
        bytes,
        11,
    ) * 3_600 + two_digits(bytes, 14) * 60 + two_digits(bytes, 17)
}

/// Whether bytes end in a time zone at a place: `Z`, or a sign, hours, a colon and minutes.
pub open spec fn zone_stands_at(bytes: Seq<u8>, at: int, ahead: int) -> bool {
    ||| at + 1 == bytes.len() && bytes[at] == 'Z' as int && ahead == 0
    ||| at + 6 == bytes.len() && (bytes[at] == '+' as int || bytes[at] == '-' as int) && is_digit(
        bytes[at + 1],
    ) && is_digit(bytes[at + 2]) && bytes[at + 3] == ':' as int && is_digit(bytes[at + 4])
        && is_digit(bytes[at + 5]) && two_digits(bytes, at + 1) < 24 && two_digits(bytes, at + 4)
        < 60 && ahead == if bytes[at] == '-' as int {
        -(two_digits(bytes, at + 1) * 3_600 + two_digits(bytes, at + 4) * 60)
    } else {
        two_digits(bytes, at + 1) * 3_600 + two_digits(bytes, at + 4) * 60
    }
}

proof fn lemma_zone(bytes: Seq<u8>, at: int, ahead: int)
    requires
        0 <= at < bytes.len(),
        zone_stands_at(bytes, at, ahead),
    ensures
        zone_offset(bytes.subrange(at, bytes.len() as int)) == Some(ahead),
        bytes[at] == 90 || bytes[at] == 43 || bytes[at] == 45,
{
    let zone = bytes.subrange(at, bytes.len() as int);
    if bytes[at] != 'Z' as int {
        lemma_two_digits(bytes, at + 1);
        lemma_two_digits(bytes, at + 4);
        assert(zone.subrange(1, 3) =~= bytes.subrange(at + 1, at + 3));
        assert(zone.subrange(4, 6) =~= bytes.subrange(at + 4, at + 6));
    }
}

/// A date, a time of day and a time zone are the seconds of the calendar less those that the
/// zone is ahead, in nanoseconds; a date or a time that does not exist is no timestamp, nor is
/// one that does not fit.
pub proof fn timestamps_follow_the_calendar(bytes: Seq<u8>, ahead: int)
    requires
        starts_as_time(bytes),
        zone_stands_at(bytes, 19, ahead),
    ensures
        ({
            let nanos = (seconds_at(bytes) - ahead) * 1_000_000_000;
            rfc3339_value(bytes) == if time_exists(bytes) && i64::MIN <= nanos <= i64::MAX {
                Some(nanos)
            } else {
                None
            }
        }),
{
    lemma_time(bytes);
    lemma_zone(bytes, 19, ahead);
    assert(zone_from(bytes, 19) == Some(19int));
    assert(bytes.subrange(19, 19).len() == 0);
    assert(fraction_of(bytes.subrange(19, 19)) == Some(0int));
}

proof fn lemma_time(bytes: Seq<u8>)
    requires
        starts_as_time(bytes),
    ensures
        crate::loki_time::has_separators(bytes),
        crate::loki_time::civil_at(bytes) is Some <==> time_exists(bytes),
        crate::loki_time::civil_at(bytes) matches Some(time) ==> time.seconds() == seconds_at(
            bytes,
        ),
{
    lemma_four_digits(bytes);
    assert(is_digit(bytes[5]) && is_digit(bytes[6]) && is_digit(bytes[8]) && is_digit(bytes[9]));
    assert(is_digit(bytes[11]) && is_digit(bytes[12]) && is_digit(bytes[14]) && is_digit(
        bytes[15],
    ));
    assert(is_digit(bytes[17]) && is_digit(bytes[18]));
    lemma_two_digits(bytes, 5);
    lemma_two_digits(bytes, 8);
    lemma_two_digits(bytes, 11);
    lemma_two_digits(bytes, 14);
    lemma_two_digits(bytes, 17);
}

/// One digit behind a point is that many tenths of a second.
pub proof fn fractions_are_parts_of_a_second(bytes: Seq<u8>)
    ensures
        bytes.len() == 2 && bytes[0] == '.' as int && is_digit(bytes[1]) ==> fraction_of(bytes)
            == Some((bytes[1] - 48) * 100_000_000),
        2 <= bytes.len() < 10 && bytes[0] == '.' as int ==> fraction_of(bytes.push(48)) == fraction_of(
            bytes,
        ),
        bytes.len() > 10 ==> fraction_of(bytes) is None,
{
    reveal_with_fuel(ten_to, 10);
    if 2 <= bytes.len() && bytes[0] == '.' as int {
        let rest = bytes.subrange(1, bytes.len() as int);
        if bytes.len() == 2 {
            assert(rest.drop_last() =~= Seq::<u8>::empty());
            assert(rest.last() == bytes[1]);
            assert(decimal_bytes(rest.drop_last()) == Some(0nat));
            assert(ten_to(8) == 100_000_000);
        }
        if bytes.len() < 10 {
            let more = bytes.push(48);
            let longer = more.subrange(1, more.len() as int);
            assert(longer.drop_last() =~= rest);
            assert(longer.last() == 48);
            if decimal_bytes(rest) is Some {
                let value = decimal_bytes(rest)->0;
                let n = (9 - bytes.len()) as nat;
                assert(ten_to((10 - bytes.len()) as nat) == 10 * ten_to(n));
                assert((value * 10) * ten_to(n) == value * (10 * ten_to(n))) by (nonlinear_arith);
            }
        }
    }
}

/// The span of a query ends at its end, else at its time, else now; it starts at its start,
/// else its duration before the end, else at zero; it is refused where it would be reversed.
pub proof fn spans_follow_their_parameters(range: TimeRangeModel, now: i64)
    ensures
        range_bounds(range, now) matches Ok((start, end)) ==> {
            &&& start <= end
            &&& range.end matches Some(last) ==> timestamp_of(last) == Ok::<_, ApiFault>(end)
            &&& range.end is None ==> (range.time matches Some(time) ==> timestamp_of(time)
                == Ok::<_, ApiFault>(end))
            &&& range.end is None && range.time is None ==> end == now
            &&& range.start matches Some(first) ==> timestamp_of(first) == Ok::<_, ApiFault>(start)
            &&& range.start is None && range.since is None ==> start == 0
            &&& range.start is None ==> (range.since matches Some(since) ==> (duration_value(
                since,
            ) matches Some(length) ==> start == end - length || start == 0 && !(i64::MIN <= end
                - length <= i64::MAX)))
        },
        range.end is None && range.time is None && range.start is None && range.since is None
            ==> (range_bounds(range, now) is Ok <==> 0 <= now),
        range.end matches Some(end) ==> (range.start matches Some(start) ==> (timestamp_of(
            end,
        ) matches Ok(last) ==> (timestamp_of(start) matches Ok(first) ==> (range_bounds(
            range,
            now,
        ) is Ok <==> first <= last)))),
{
}

/// A timestamp is a number of nanoseconds where it is written as an integer.
pub proof fn timestamps_are_nanoseconds(time: TimeModel, number: int)
    requires
        writes(time.text, number),
        i64::MIN <= number <= i64::MAX,
    ensures
        timestamp_of(time) == Ok::<_, ApiFault>(number as i64),
{
    integers_are_read_as_written(time.text, i64::MIN as int, i64::MAX as int, number);
}

/// A step is ten seconds where it is not given, else its duration, else its number of seconds,
/// and never zero or less.
pub proof fn steps_are_positive(value: Option<TimeModel>)
    ensures
        value is None ==> step_of(value) == Ok::<_, ApiFault>(10_000_000_000i64),
        step_of(value) matches Ok(step) ==> step > 0,
        value matches Some(time) ==> {
            &&& duration_value(time.text) matches Some(length) ==> (if length > 0 {
                step_of(value) matches Ok(step) && step == length
            } else {
                step_of(value) is Err
            })
            &&& duration_value(time.text) is None ==> (time.float_nanos matches Some(nanos) ==> (
            if nanos > 0 {
                step_of(value) == Ok::<_, ApiFault>(nanos)
            } else {
                step_of(value) is Err
            }))
            &&& duration_value(time.text) is None && time.float_nanos is None ==> step_of(
                value,
            ) is Err
        },
{
    if let Some(time) = value {
        if let Some(length) = duration_value(time.text) {
            assert(i64::MIN <= length <= i64::MAX);
        }
    }
}

/// The type of a field is the narrowest that all its values have, in this order: truth
/// values, integers, numbers, durations, bytes; else it is text.
pub proof fn field_types_are_narrowest(values: Seq<Seq<char>>, all_floats: bool)
    ensures
        ({
            let truths = forall|i: int|
                0 <= i < values.len() ==> (#[trigger] values[i]) == "true"@ || values[i]
                    == "false"@;
            let integers = forall|i: int|
                0 <= i < values.len() ==> signed_in(
                    #[trigger] values[i],
                    i128::MIN as int,
                    i128::MAX as int,
                ) is Some;
            let durations = forall|i: int|
                0 <= i < values.len() ==> duration_value(#[trigger] values[i]) is Some;
            let quantities = forall|i: int|
                0 <= i < values.len() ==> quantity_value(#[trigger] values[i]) is Some;
            let kind = field_type(values, all_floats);
            &&& kind is Boolean <==> truths
            &&& kind is Int <==> !truths && integers
            &&& kind is Float <==> !truths && !integers && all_floats
            &&& kind is Duration <==> !truths && !integers && !all_floats && durations
            &&& kind is Bytes <==> !truths && !integers && !all_floats && !durations && quantities
            &&& kind is Text <==> !truths && !integers && !all_floats && !durations && !quantities
        }),
{
    assert(all_are(values, FieldType::Boolean) <==> forall|i: int|
        0 <= i < values.len() ==> (#[trigger] values[i]) == "true"@ || values[i] == "false"@) by {
        assert forall|i: int| 0 <= i < values.len() implies value_is(
            #[trigger] values[i],
            FieldType::Boolean,
        ) == (values[i] == "true"@ || values[i] == "false"@) by {}
    }
    assert(all_are(values, FieldType::Int) <==> forall|i: int|
        0 <= i < values.len() ==> signed_in(
            #[trigger] values[i],
            i128::MIN as int,
            i128::MAX as int,
        ) is Some) by {
        assert forall|i: int| 0 <= i < values.len() implies value_is(
            #[trigger] values[i],
            FieldType::Int,
        ) == (signed_in(values[i], i128::MIN as int, i128::MAX as int) is Some) by {}
    }
    assert(all_are(values, FieldType::Duration) <==> forall|i: int|
        0 <= i < values.len() ==> duration_value(#[trigger] values[i]) is Some) by {
        assert forall|i: int| 0 <= i < values.len() implies value_is(
            #[trigger] values[i],
            FieldType::Duration,
        ) == (duration_value(values[i]) is Some) by {}
    }
    assert(all_are(values, FieldType::Bytes) <==> forall|i: int|
        0 <= i < values.len() ==> quantity_value(#[trigger] values[i]) is Some) by {
        assert forall|i: int| 0 <= i < values.len() implies value_is(
            #[trigger] values[i],
            FieldType::Bytes,
        ) == (quantity_value(values[i]) is Some) by {}
    }
}

} // verus!
