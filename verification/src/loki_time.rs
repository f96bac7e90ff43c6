//! Numbers, durations and timestamps of the Loki API.
use vstd::prelude::*;
use vstd::utf8::*;

use crate::api_error::{bad, plain_outcome, ApiFault, LokiApiError};
use crate::text::{
    ascii_digit, chars_between, chars_of, debug_string, debug_text, holds_part, is_ascii_digit,
};

verus! {

broadcast use vstd::seq_lib::group_seq_properties;

/// The number that digits stand for; `None` where another character occurs.
pub open spec fn digits_value(text: Seq<char>) -> Option<nat>
    decreases text.len(),
{
    if text.len() == 0 {
        Some(0)
    } else if !ascii_digit(text.last()) {
        None
    } else {
        match digits_value(text.drop_last()) {
            None => None,
            Some(front) => Some(front * 10 + (text.last() as nat - 48) as nat),
        }
    }
}

/// The number of an unsigned integer, with an optional plus.
pub open spec fn unsigned_value(text: Seq<char>) -> Option<nat> {
    let digits = if text.len() > 0 && text[0] == '+' {
        text.subrange(1, text.len() as int)
    } else {
        text
    };
    if digits.len() == 0 {
        None
    } else {
        digits_value(digits)
    }
}

/// The number of a signed integer, with an optional sign.
pub open spec fn signed_value(text: Seq<char>) -> Option<int> {
    if text.len() > 0 && text[0] == '-' {
        let digits = text.subrange(1, text.len() as int);
        if digits.len() == 0 {
            None
        } else {
            match digits_value(digits) {
                Some(value) => Some(-(value as int)),
                None => None,
            }
        }
    } else {
        match unsigned_value(text) {
            Some(value) => Some(value as int),
            None => None,
        }
    }
}

/// What digits stand for.
enum Digits {
    /// Another character occurs.
    Missing,
    /// More than fits.
    TooLarge,
    /// A number.
    Value(u128),
}

proof fn lemma_digits_none(text: Seq<char>, n: int)
    requires
        0 <= n <= text.len(),
        digits_value(text.subrange(0, n)) is None,
    ensures
        digits_value(text) is None,
    decreases text.len(),
{
    if n < text.len() {
        assert(text.drop_last().subrange(0, n) =~= text.subrange(0, n));
        lemma_digits_none(text.drop_last(), n);
    } else {
        assert(text.subrange(0, n) =~= text);
    }
}

/// Reads the digits from `start` on.
fn read_digits(text: &Vec<char>, start: usize) -> (digits: Digits)
    requires
        start <= text@.len(),
    ensures
        match (digits, digits_value(text@.subrange(start as int, text@.len() as int))) {
            (Digits::Missing, None) => true,
            (Digits::TooLarge, Some(value)) => value > u128::MAX,
            (Digits::Value(read), Some(value)) => read == value,
            _ => false,
        },
{
    let ghost all = text@.subrange(start as int, text@.len() as int);
    let mut value: u128 = 0;
    let mut large = false;
    let mut index: usize = start;
    proof {
        assert(all.subrange(0, 0) =~= Seq::<char>::empty());
    }
    while index < text.len()
        invariant
            start <= index <= text@.len(),
            all == text@.subrange(start as int, text@.len() as int),
            digits_value(all.subrange(0, index - start)) matches Some(read) && (if large {
                read > u128::MAX
            } else {
                read == value
            }),
        decreases text@.len() - index,
    {
        let ghost part = all.subrange(0, index - start + 1);
        proof {
            assert(part.drop_last() =~= all.subrange(0, index - start));
            assert(part.last() == text@[index as int]);
        }
        let character: char = text[index];
        if !is_ascii_digit(character) {
            proof {
                lemma_digits_none(all, index - start + 1);
            }
            return Digits::Missing;
        }
        let digit: u128 = (character as u32 - 48) as u128;
        if !large {
            match value.checked_mul(10) {
                Some(shifted) => match shifted.checked_add(digit) {
                    Some(next) => {
                        value = next;
                    },
                    None => {
                        large = true;
                    },
                },
                None => {
                    large = true;
                },
            }
        }
        index = index + 1;
    }
    proof {
        assert(all.subrange(0, index - start) =~= all);
    }
    if large {
        Digits::TooLarge
    } else {
        Digits::Value(value)
    }
}

/// Reads an unsigned integer of at most `limit`.
fn read_unsigned(text: &Vec<char>, limit: u128) -> (value: Option<u128>)
    ensures
        match (value, unsigned_value(text@)) {
            (Some(read), Some(number)) => read == number && number <= limit,
            (None, Some(number)) => number > limit,
            (None, None) => true,
            _ => false,
        },
{
    let start: usize = if text.len() > 0 && text[0] == '+' {
        1
    } else {
        0
    };
    proof {
        assert(text@.subrange(0, text@.len() as int) =~= text@);
    }
    if start == text.len() {
        return None;
    }
    match read_digits(text, start) {
        Digits::Value(value) => if value <= limit {
            Some(value)
        } else {
            None
        },
        _ => None,
    }
}

/// Reads a `u64`.
pub fn read_u64_text(text: &Vec<char>) -> (value: Option<u64>)
    ensures
        match (value, unsigned_value(text@)) {
            (Some(read), Some(number)) => read == number,
            (None, Some(number)) => number > u64::MAX,
            (None, None) => true,
            _ => false,
        },
{
    match read_unsigned(text, u64::MAX as u128) {
        Some(value) => Some(value as u64),
        None => None,
    }
}

/// Reads a `usize`.
pub fn read_usize_text(text: &Vec<char>) -> (value: Option<usize>)
    ensures
        match (value, unsigned_value(text@)) {
            (Some(read), Some(number)) => read == number,
            (None, Some(number)) => number > usize::MAX,
            (None, None) => true,
            _ => false,
        },
{
    match read_unsigned(text, usize::MAX as u128) {
        Some(value) => Some(value as usize),
        None => None,
    }
}

/// The number of a signed integer in a range.
pub open spec fn signed_in(text: Seq<char>, low: int, high: int) -> Option<int> {
    match signed_value(text) {
        Some(value) if low <= value <= high => Some(value),
        _ => None,
    }
}

/// Reads an `i64`.
pub fn read_i64_text(text: &Vec<char>) -> (value: Option<i64>)
    ensures
        match (value, signed_in(text@, i64::MIN as int, i64::MAX as int)) {
            (Some(read), Some(number)) => read == number,
            (None, None) => true,
            _ => false,
        },
{
    if text.len() > 0 && text[0] == '-' {
        if text.len() == 1 {
            return None;
        }
        return match read_digits(text, 1) {
            Digits::Value(value) => if value <= 0x8000_0000_0000_0000 {
                Some((-(value as i128)) as i64)
            } else {
                None
            },
            _ => None,
        };
    }
    match read_unsigned(text, i64::MAX as u128) {
        Some(value) => Some(value as i64),
        None => None,
    }
}

/// Whether a text is an `i128`.
fn is_i128_text(text: &Vec<char>) -> (is: bool)
    ensures
        is == (signed_in(text@, i128::MIN as int, i128::MAX as int) is Some),
{
    if text.len() > 0 && text[0] == '-' {
        if text.len() == 1 {
            return false;
        }
        return match read_digits(text, 1) {
            Digits::Value(value) => value <= 0x8000_0000_0000_0000_0000_0000_0000_0000,
            _ => false,
        };
    }
    read_unsigned(text, i128::MAX as u128).is_some()
}

/// Whether a text ends in another one.
pub open spec fn ends_in(text: Seq<char>, suffix: Seq<char>) -> bool {
    text.len() >= suffix.len() && text.subrange(text.len() - suffix.len(), text.len() as int)
        == suffix
}

/// A text without a suffix that it ends in.
pub open spec fn without_suffix(text: Seq<char>, suffix: Seq<char>) -> Seq<char> {
    text.subrange(0, text.len() - suffix.len())
}

/// The text before a suffix, where the text ends in it.
fn strip_suffix(text: &Vec<char>, suffix: &str) -> (rest: Option<Vec<char>>)
    ensures
        match rest {
            Some(found) => ends_in(text@, suffix@) && found@ == without_suffix(text@, suffix@),
            None => !ends_in(text@, suffix@),
        },
{
    let end = chars_of(suffix);
    if text.len() < end.len() {
        return None;
    }
    let at: usize = text.len() - end.len();
    if holds_part(text, at, &end) {
        Some(chars_between(text, 0, at))
    } else {
        None
    }
}

/// Number and scale of a duration.
pub open spec fn duration_parts(text: Seq<char>) -> Option<(Seq<char>, int)> {
    if ends_in(text, "ns"@) {
        Some((without_suffix(text, "ns"@), 1))
    } else if ends_in(text, "us"@) {
        Some((without_suffix(text, "us"@), 1_000))
    } else if ends_in(text, "ms"@) {
        Some((without_suffix(text, "ms"@), 1_000_000))
    } else if ends_in(text, "s"@) {
        Some((without_suffix(text, "s"@), 1_000_000_000))
    } else if ends_in(text, "m"@) {
        Some((without_suffix(text, "m"@), 60_000_000_000))
    } else if ends_in(text, "h"@) {
        Some((without_suffix(text, "h"@), 3_600_000_000_000))
    } else {
        None
    }
}

/// Nanoseconds of a duration.
pub open spec fn duration_value(text: Seq<char>) -> Option<int> {
    match duration_parts(text) {
        None => None,
        Some((number, scale)) => match signed_in(number, i64::MIN as int, i64::MAX as int) {
            None => None,
            Some(value) => if i64::MIN <= value * scale <= i64::MAX {
                Some(value * scale)
            } else {
                None
            },
        },
    }
}

/// Number and scale of a duration.
fn split_duration(text: &Vec<char>) -> (parts: Option<(Vec<char>, i64)>)
    ensures
        match (parts, duration_parts(text@)) {
            (Some((number, scale)), Some((model, factor))) => number@ == model && scale == factor
                && 0 < scale,
            (None, None) => true,
            _ => false,
        },
{
    match strip_suffix(text, "ns") {
        Some(number) => return Some((number, 1)),
        None => {},
    }
    match strip_suffix(text, "us") {
        Some(number) => return Some((number, 1_000)),
        None => {},
    }
    match strip_suffix(text, "ms") {
        Some(number) => return Some((number, 1_000_000)),
        None => {},
    }
    match strip_suffix(text, "s") {
        Some(number) => return Some((number, 1_000_000_000)),
        None => {},
    }
    match strip_suffix(text, "m") {
        Some(number) => return Some((number, 60_000_000_000)),
        None => {},
    }
    match strip_suffix(text, "h") {
        Some(number) => Some((number, 3_600_000_000_000)),
        None => None,
    }
}

/// Reads a duration in nanoseconds.
pub fn parse_duration_nanos(value: &str) -> (nanos: Option<i64>)
    ensures
        match (nanos, duration_value(value@)) {
            (Some(read), Some(model)) => read == model,
            (None, None) => true,
            _ => false,
        },
{
    let text = chars_of(value);
    match split_duration(&text) {
        None => None,
        Some((number, scale)) => match read_i64_text(&number) {
            None => None,
            Some(count) => count.checked_mul(scale),
        },
    }
}

/// Number and scale of a byte quantity.
pub open spec fn quantity_parts(text: Seq<char>) -> Option<(Seq<char>, nat)> {
    if ends_in(text, "KiB"@) {
        Some((without_suffix(text, "KiB"@), 1024))
    } else if ends_in(text, "MiB"@) {
        Some((without_suffix(text, "MiB"@), 1_048_576))
    } else if ends_in(text, "GiB"@) {
        Some((without_suffix(text, "GiB"@), 1_073_741_824))
    } else if ends_in(text, "KB"@) {
        Some((without_suffix(text, "KB"@), 1_000))
    } else if ends_in(text, "MB"@) {
        Some((without_suffix(text, "MB"@), 1_000_000))
    } else if ends_in(text, "GB"@) {
        Some((without_suffix(text, "GB"@), 1_000_000_000))
    } else if ends_in(text, "B"@) {
        Some((without_suffix(text, "B"@), 1))
    } else {
        None
    }
}

/// Bytes of a byte quantity.
pub open spec fn quantity_value(text: Seq<char>) -> Option<nat> {
    match quantity_parts(text) {
        None => None,
        Some((number, scale)) => match unsigned_value(number) {
            Some(value) if value <= u64::MAX && value * scale <= u64::MAX => Some(value * scale),
            _ => None,
        },
    }
}

/// Number and scale of a byte quantity.
fn split_quantity(text: &Vec<char>) -> (parts: Option<(Vec<char>, u64)>)
    ensures
        match (parts, quantity_parts(text@)) {
            (Some((number, scale)), Some((model, factor))) => number@ == model && scale == factor,
            (None, None) => true,
            _ => false,
        },
{
    match strip_suffix(text, "KiB") {
        Some(number) => return Some((number, 1024)),
        None => {},
    }
    match strip_suffix(text, "MiB") {
        Some(number) => return Some((number, 1_048_576)),
        None => {},
    }
    match strip_suffix(text, "GiB") {
        Some(number) => return Some((number, 1_073_741_824)),
        None => {},
    }
    match strip_suffix(text, "KB") {
        Some(number) => return Some((number, 1_000)),
        None => {},
    }
    match strip_suffix(text, "MB") {
        Some(number) => return Some((number, 1_000_000)),
        None => {},
    }
    match strip_suffix(text, "GB") {
        Some(number) => return Some((number, 1_000_000_000)),
        None => {},
    }
    match strip_suffix(text, "B") {
        Some(number) => Some((number, 1)),
        None => None,
    }
}

/// Reads a byte quantity.
pub fn parse_byte_quantity(value: &str) -> (bytes: Option<u64>)
    ensures
        match (bytes, quantity_value(value@)) {
            (Some(read), Some(model)) => read == model,
            (None, None) => true,
            _ => false,
        },
{
    let text = chars_of(value);
    match split_quantity(&text) {
        None => None,
        Some((number, scale)) => match read_u64_text(&number) {
            None => None,
            Some(count) => count.checked_mul(scale),
        },
    }
}

/// Whether a year has a leap day.
pub open spec fn leap(year: int) -> bool {
    year % 4 == 0 && (year % 100 != 0 || year % 400 == 0)
}

/// Days of a month.
pub open spec fn month_days(year: int, month: int) -> int {
    if month == 2 {
        if leap(year) {
            29
        } else {
            28
        }
    } else if month == 4 || month == 6 || month == 9 || month == 11 {
        30
    } else {
        31
    }
}

/// Days of the years from year zero up to a year.
pub open spec fn days_before_year(year: int) -> int
    decreases year,
{
    if year <= 0 {
        0
    } else {
        days_before_year(year - 1) + if leap(year - 1) {
            366int
        } else {
            365int
        }
    }
}

/// Days of the months of a year before a month.
pub open spec fn days_before_month(year: int, month: int) -> int
    decreases month,
{
    if month <= 1 {
        0
    } else {
        days_before_month(year, month - 1) + month_days(year, month - 1)
    }
}

/// Days from the first day of 1970 to a date.
pub open spec fn civil_days(year: int, month: int, day: int) -> int {
    days_before_year(year) + days_before_month(year, month) + (day - 1) - days_before_year(1970)
}

proof fn lemma_fourth(year: int)
    ensures
        (year + 3) / 4 == (year + 2) / 4 + if (year - 1) % 4 == 0 {
            1int
        } else {
            0
        },
{
}

proof fn lemma_hundredth(year: int)
    ensures
        (year + 99) / 100 == (year + 98) / 100 + if (year - 1) % 100 == 0 {
            1int
        } else {
            0
        },
        (year - 1) % 100 == 0 ==> (year - 1) % 4 == 0,
{
}

proof fn lemma_four_hundredth(year: int)
    ensures
        (year + 399) / 400 == (year + 398) / 400 + if (year - 1) % 400 == 0 {
            1int
        } else {
            0
        },
        (year - 1) % 400 == 0 ==> (year - 1) % 100 == 0,
{
}

proof fn lemma_days_before_year(year: int)
    requires
        0 <= year,
    ensures
        days_before_year(year) == 365 * year + (year + 3) / 4 - (year + 99) / 100 + (year + 399)
            / 400,
    decreases year,
{
    if year > 0 {
        lemma_days_before_year(year - 1);
        lemma_fourth(year);
        lemma_hundredth(year);
        lemma_four_hundredth(year);
    }
}

/// Days of a month.
pub fn days_in_month(year: u32, month: u32) -> (days: u32)
    requires
        1 <= month <= 12,
    ensures
        days == month_days(year as int, month as int),
{
    if month == 2 {
        if year % 4 == 0 && (year % 100 != 0 || year % 400 == 0) {
            29
        } else {
            28
        }
    } else if month == 4 || month == 6 || month == 9 || month == 11 {
        30
    } else {
        31
    }
}

/// Days from the first day of 1970 to a date.
pub fn days_from_civil(year: u32, month: u32, day: u32) -> (days: i64)
    requires
        year <= 9999,
        1 <= month <= 12,
        1 <= day <= 31,
    ensures
        days == civil_days(year as int, month as int, day as int),
        -719_528 <= days <= 3_000_000,
{
    let years: i64 = 365 * (year as i64) + ((year + 3) / 4) as i64 - ((year + 99) / 100) as i64 + ((
    year + 399) / 400) as i64;
    proof {
        lemma_days_before_year(year as int);
        lemma_days_before_year(1970);
    }
    let mut months: i64 = 0;
    let mut index: u32 = 1;
    while index < month
        invariant
            1 <= index <= month <= 12,
            months == days_before_month(year as int, index as int),
            0 <= months <= 31 * (index - 1),
        decreases month - index,
    {
        months = months + days_in_month(year, index) as i64;
        index = index + 1;
    }
    years + months + (day as i64 - 1) - 719_528
}

/// The number that ASCII digits stand for.
pub open spec fn decimal_bytes(bytes: Seq<u8>) -> Option<nat>
    decreases bytes.len(),
{
    if bytes.len() == 0 {
        Some(0)
    } else if !(48 <= bytes.last() <= 57) {
        None
    } else {
        match decimal_bytes(bytes.drop_last()) {
            None => None,
            Some(front) => Some(front * 10 + (bytes.last() - 48) as nat),
        }
    }
}

proof fn lemma_decimal_none(bytes: Seq<u8>, n: int)
    requires
        0 <= n <= bytes.len(),
        decimal_bytes(bytes.subrange(0, n)) is None,
    ensures
        decimal_bytes(bytes) is None,
    decreases bytes.len(),
{
    if n < bytes.len() {
        assert(bytes.drop_last().subrange(0, n) =~= bytes.subrange(0, n));
        lemma_decimal_none(bytes.drop_last(), n);
    } else {
        assert(bytes.subrange(0, n) =~= bytes);
    }
}

/// Power of ten.
pub open spec fn ten_to(n: nat) -> nat
    decreases n,
{
    if n == 0 {
        1
    } else {
        10 * ten_to((n - 1) as nat)
    }
}

/// Reads the digits `[start, end)`, at most nine.
fn parse_decimal(bytes: &[u8], start: usize, end: usize) -> (value: Option<u32>)
    requires
        start <= end <= bytes@.len(),
        end - start <= 9,
    ensures
        match (value, decimal_bytes(bytes@.subrange(start as int, end as int))) {
            (Some(read), Some(number)) => read == number && number < ten_to((end - start) as nat),
            (None, None) => true,
            _ => false,
        },
{
    let ghost all = bytes@.subrange(start as int, end as int);
    let mut value: u32 = 0;
    let mut index: usize = start;
    proof {
        assert(all.subrange(0, 0) =~= Seq::<u8>::empty());
    }
    while index < end
        invariant
            start <= index <= end <= bytes@.len(),
            end - start <= 9,
            all == bytes@.subrange(start as int, end as int),
            decimal_bytes(all.subrange(0, index - start)) == Some(value as nat),
            value < ten_to((index - start) as nat),
        decreases end - index,
    {
        let ghost part = all.subrange(0, index - start + 1);
        proof {
            assert(part.drop_last() =~= all.subrange(0, index - start));
            assert(part.last() == bytes@[index as int]);
            lemma_ten_to((index - start) as nat, 8);
            assert(ten_to(8) == 100_000_000) by {
                reveal_with_fuel(ten_to, 9);
            }
            assert(ten_to((index - start + 1) as nat) == 10 * ten_to((index - start) as nat));
        }
        let byte: u8 = bytes[index];
        if byte < 48 || byte > 57 {
            proof {
                lemma_decimal_none(all, index - start + 1);
            }
            return None;
        }
        value = value * 10 + (byte - 48) as u32;
        index = index + 1;
    }
    proof {
        assert(all.subrange(0, index - start) =~= all);
    }
    Some(value)
}

proof fn lemma_ten_to(a: nat, b: nat)
    requires
        a <= b,
    ensures
        1 <= ten_to(a) <= ten_to(b),
    decreases b,
{
    if b > a {
        lemma_ten_to(a, (b - 1) as nat);
    } else if b > 0 {
        lemma_ten_to((a - 1) as nat, (b - 1) as nat);
    }
}

/// Date and time of day of a timestamp.
#[derive(Debug, Clone, Copy, PartialEq, Eq, Structural)]
pub struct CivilTime {
    /// Year.
    pub year: u32,
    /// Month, from 1.
    pub month: u32,
    /// Day, from 1.
    pub day: u32,
    /// Hour.
    pub hour: u32,
    /// Minute.
    pub minute: u32,
    /// Second.
    pub second: u32,
}

impl CivilTime {
    /// Whether the date and the time exist.
    pub open spec fn exists_in_calendar(self) -> bool {
        &&& self.year <= 9999
        &&& 1 <= self.month <= 12
        &&& 1 <= self.day <= month_days(self.year as int, self.month as int)
        &&& self.hour < 24
        &&& self.minute < 60
        &&& self.second < 60
    }

    /// Seconds since the first of January 1970, in its own time zone.
    pub open spec fn seconds(self) -> int {
        civil_days(self.year as int, self.month as int, self.day as int) * 86_400 + self.hour * 3_600
            + self.minute * 60 + self.second
    }
}

/// Whether bytes hold the separators of a timestamp.
pub open spec fn has_separators(bytes: Seq<u8>) -> bool {
    bytes.len() >= 20 && bytes[4] == 45 && bytes[7] == 45 && bytes[10] == 84 && bytes[13] == 58
        && bytes[16] == 58
}

/// The date and time at the start of a timestamp, where they exist.
pub open spec fn civil_at(bytes: Seq<u8>) -> Option<CivilTime> {
    match (
        decimal_bytes(bytes.subrange(0, 4)),
        decimal_bytes(bytes.subrange(5, 7)),
        decimal_bytes(bytes.subrange(8, 10)),
        decimal_bytes(bytes.subrange(11, 13)),
        decimal_bytes(bytes.subrange(14, 16)),
        decimal_bytes(bytes.subrange(17, 19)),
    ) {
        (Some(year), Some(month), Some(day), Some(hour), Some(minute), Some(second)) => {
            let time = CivilTime {
                year: year as u32,
                month: month as u32,
                day: day as u32,
                hour: hour as u32,
                minute: minute as u32,
                second: second as u32,
            };
            if time.exists_in_calendar() {
                Some(time)
            } else {
                None
            }
        },
        _ => None,
    }
}

/// Place of the time zone from `at` on.
pub open spec fn zone_from(bytes: Seq<u8>, at: int) -> Option<int>
    decreases bytes.len() - at,
{
    if at >= bytes.len() {
        None
    } else if bytes[at] == 90 || bytes[at] == 43 || bytes[at] == 45 {
        Some(at)
    } else {
        zone_from(bytes, at + 1)
    }
}

/// Nanoseconds of a fraction of a second: empty, or a point and up to nine digits.
pub open spec fn fraction_of(bytes: Seq<u8>) -> Option<int> {
    if bytes.len() == 0 {
        Some(0)
    } else if bytes[0] == 46 && 2 <= bytes.len() <= 10 {
        match decimal_bytes(bytes.subrange(1, bytes.len() as int)) {
            Some(value) => Some((value * ten_to((10 - bytes.len()) as nat)) as int),
            None => None,
        }
    } else {
        None
    }
}

/// Seconds that a time zone is ahead.
pub open spec fn zone_offset(bytes: Seq<u8>) -> Option<int> {
    if bytes.len() == 1 && bytes[0] == 90 {
        Some(0)
    } else if bytes.len() == 6 && (bytes[0] == 43 || bytes[0] == 45) && bytes[3] == 58 {
        match (decimal_bytes(bytes.subrange(1, 3)), decimal_bytes(bytes.subrange(4, 6))) {
            (Some(hours), Some(minutes)) => if hours >= 24 || minutes >= 60 {
                None
            } else if bytes[0] == 45 {
                Some(-(hours * 3_600 + minutes * 60))
            } else {
                Some((hours * 3_600 + minutes * 60) as int)
            },
            _ => None,
        }
    } else {
        None
    }
}

/// Nanoseconds since 1970 of a timestamp, where they fit.
pub open spec fn rfc3339_value(bytes: Seq<u8>) -> Option<int> {
    if !has_separators(bytes) {
        None
    } else {
        match (civil_at(bytes), zone_from(bytes, 19)) {
            (Some(time), Some(zone)) => match (
                fraction_of(bytes.subrange(19, zone)),
                zone_offset(bytes.subrange(zone, bytes.len() as int)),
            ) {
                (Some(fraction), Some(offset)) => {
                    let whole = (time.seconds() - offset) * 1_000_000_000;
                    if i64::MIN <= whole <= i64::MAX && whole + fraction <= i64::MAX {
                        Some(whole + fraction)
                    } else {
                        None
                    }
                },
                _ => None,
            },
            _ => None,
        }
    }
}

/// Reads the date and time at the start of a timestamp.
fn read_civil(bytes: &[u8]) -> (time: Option<CivilTime>)
    requires
        bytes@.len() >= 20,
    ensures
        time == civil_at(bytes@),
{
    proof {
        assert(ten_to(2) == 100 && ten_to(4) == 10_000) by {
            reveal_with_fuel(ten_to, 5);
        }
    }
    match (
        parse_decimal(bytes, 0, 4),
        parse_decimal(bytes, 5, 7),
        parse_decimal(bytes, 8, 10),
        parse_decimal(bytes, 11, 13),
        parse_decimal(bytes, 14, 16),
        parse_decimal(bytes, 17, 19),
    ) {
        (Some(year), Some(month), Some(day), Some(hour), Some(minute), Some(second)) => {
            if month < 1 || month > 12 || day == 0 || day > days_in_month(year, month) || hour >= 24
                || minute >= 60 || second >= 60 {
                None
            } else {
                Some(CivilTime { year, month, day, hour, minute, second })
            }
        },
        _ => None,
    }
}

/// Reads a fraction of a second at `[start, end)`.
fn read_fraction(bytes: &[u8], start: usize, end: usize) -> (nanos: Option<u32>)
    requires
        start <= end <= bytes@.len(),
    ensures
        match (nanos, fraction_of(bytes@.subrange(start as int, end as int))) {
            (Some(read), Some(model)) => read == model && model < 1_000_000_000,
            (None, None) => true,
            _ => false,
        },
{
    let ghost part = bytes@.subrange(start as int, end as int);
    let size: usize = end - start;
    if size == 0 {
        return Some(0);
    }
    if bytes[start] != 46 || size < 2 || size > 10 {
        return None;
    }
    proof {
        assert(part.subrange(1, part.len() as int) =~= bytes@.subrange(start + 1, end as int));
    }
    let digits: u32 = match parse_decimal(bytes, start + 1, end) {
        Some(digits) => digits,
        None => return None,
    };
    let mut scaled: u64 = digits as u64;
    let mut left: usize = 10 - size;
    let ghost total = (10 - size) as nat;
    proof {
        lemma_ten_product((size - 1) as nat, total);
        assert(ten_to(9) == 1_000_000_000) by {
            reveal_with_fuel(ten_to, 10);
        }
        assert(digits * ten_to(total) < ten_to((size - 1) as nat) * ten_to(total))
            by (nonlinear_arith)
            requires
                digits < ten_to((size - 1) as nat),
                ten_to(total) >= 1,
        ;
    }
    while left > 0
        invariant
            left <= total,
            scaled * ten_to(left as nat) == digits * ten_to(total),
            digits * ten_to(total) < 1_000_000_000,
        decreases left,
    {
        proof {
            lemma_ten_to(0, left as nat);
            lemma_ten_to(0, (left - 1) as nat);
            assert(ten_to(left as nat) == 10 * ten_to((left - 1) as nat));
            assert((scaled * 10) * ten_to((left - 1) as nat) == scaled * ten_to(left as nat))
                by (nonlinear_arith)
                requires
                    ten_to(left as nat) == 10 * ten_to((left - 1) as nat),
            ;
            assert(scaled * 10 <= (scaled * 10) * ten_to((left - 1) as nat)) by (nonlinear_arith)
                requires
                    ten_to((left - 1) as nat) >= 1,
            ;
        }
        scaled = scaled * 10;
        left = left - 1;
    }
    proof {
        assert(ten_to(0) == 1);
        assert(scaled * ten_to(0) == scaled) by (nonlinear_arith)
            requires
                ten_to(0) == 1,
        ;
    }
    Some(scaled as u32)
}

proof fn lemma_ten_product(a: nat, b: nat)
    ensures
        ten_to(a) * ten_to(b) == ten_to(a + b),
        ten_to(b) >= 1,
    decreases b,
{
    if b == 0 {
        assert(ten_to(a) * 1 == ten_to(a));
    } else {
        lemma_ten_product(a, (b - 1) as nat);
        assert(ten_to(a) * ten_to(b) == 10 * (ten_to(a) * ten_to((b - 1) as nat)))
            by (nonlinear_arith)
            requires
                ten_to(b) == 10 * ten_to((b - 1) as nat),
        ;
    }
}

/// Reads a time zone from `start` on.
fn read_zone(bytes: &[u8], start: usize) -> (seconds: Option<i64>)
    requires
        start <= bytes@.len(),
    ensures
        match (seconds, zone_offset(bytes@.subrange(start as int, bytes@.len() as int))) {
            (Some(read), Some(model)) => read == model && -86_400 < read < 86_400,
            (None, None) => true,
            _ => false,
        },
{
    let total: usize = bytes.len();
    let size: usize = total - start;
    let ghost part = bytes@.subrange(start as int, total as int);
    if size == 1 && bytes[start] == 90 {
        return Some(0);
    }
    if size != 6 || (bytes[start] != 43 && bytes[start] != 45) || bytes[start + 3] != 58 {
        return None;
    }
    proof {
        assert(part.subrange(1, 3) =~= bytes@.subrange(start + 1, start + 3));
        assert(part.subrange(4, 6) =~= bytes@.subrange(start + 4, start + 6));
    }
    match (
        parse_decimal(bytes, start + 1, start + 3),
        parse_decimal(bytes, start + 4, start + 6),
    ) {
        (Some(hours), Some(minutes)) => {
            if hours >= 24 || minutes >= 60 {
                return None;
            }
            let magnitude: i64 = hours as i64 * 3_600 + minutes as i64 * 60;
            if bytes[start] == 45 {
                Some(-magnitude)
            } else {
                Some(magnitude)
            }
        },
        _ => None,
    }
}

/// Reads an RFC 3339 timestamp in nanoseconds since 1970.
pub fn parse_rfc3339_nanos(value: &str) -> (nanos: Option<i64>)
    ensures
        match (nanos, rfc3339_value(encode_utf8(value@))) {
            (Some(read), Some(model)) => read == model,
            (None, None) => true,
            _ => false,
        },
{
    let bytes = value.as_bytes();
    if bytes.len() < 20 || bytes[4] != 45 || bytes[7] != 45 || bytes[10] != 84 || bytes[13] != 58
        || bytes[16] != 58 {
        return None;
    }
    let time = match read_civil(bytes) {
        Some(time) => time,
        None => return None,
    };
    let mut zone: usize = 19;
    while zone < bytes.len() && bytes[zone] != 90 && bytes[zone] != 43 && bytes[zone] != 45
        invariant
            19 <= zone <= bytes@.len(),
            zone_from(bytes@, 19) == zone_from(bytes@, zone as int),
        decreases bytes@.len() - zone,
    {
        zone = zone + 1;
    }
    if zone == bytes.len() {
        return None;
    }
    let fraction: u32 = match read_fraction(bytes, 19, zone) {
        Some(fraction) => fraction,
        None => return None,
    };
    let offset: i64 = match read_zone(bytes, zone) {
        Some(offset) => offset,
        None => return None,
    };
    let days: i64 = days_from_civil(time.year, time.month, time.day);
    let seconds: i64 = days * 86_400 + time.hour as i64 * 3_600 + time.minute as i64 * 60
        + time.second as i64 - offset;
    match seconds.checked_mul(1_000_000_000) {
        None => None,
        Some(whole) => whole.checked_add(fraction as i64),
    }
}

/// Text of a timestamp, with the nanoseconds that it stands for when read as a
/// finite number of seconds.
#[derive(Debug, PartialEq, Eq)]
pub struct TimeText {
    /// The text.
    pub text: String,
    /// Nanoseconds of the text as a number of seconds.
    pub float_nanos: Option<i64>,
}

/// Value of a timestamp text.
#[verifier::ext_equal]
pub struct TimeModel {
    /// The text.
    pub text: Seq<char>,
    /// Nanoseconds of the text as a number of seconds.
    pub float_nanos: Option<i64>,
}

impl View for TimeText {
    type V = TimeModel;

    open spec fn view(&self) -> TimeModel {
        TimeModel { text: self.text@, float_nanos: self.float_nanos }
    }
}

/// The timestamp of a text: nanoseconds, seconds with a fraction, or RFC 3339.
pub open spec fn timestamp_of(time: TimeModel) -> Result<i64, ApiFault> {
    match signed_in(time.text, i64::MIN as int, i64::MAX as int) {
        Some(value) => Ok(value as i64),
        None => match time.float_nanos {
            Some(nanos) => Ok(nanos),
            None => match rfc3339_value(encode_utf8(time.text)) {
                Some(value) => Ok(value as i64),
                None => Err(bad("invalid timestamp "@ + debug_text(time.text))),
            },
        },
    }
}

/// Reads a timestamp.
pub fn parse_timestamp(time: &TimeText) -> (result: Result<i64, LokiApiError>)
    ensures
        plain_outcome(result, timestamp_of(time@)),
{
    match read_i64_text(&chars_of(&time.text)) {
        Some(value) => return Ok(value),
        None => {},
    }
    match time.float_nanos {
        Some(nanos) => return Ok(nanos),
        None => {},
    }
    match parse_rfc3339_nanos(&time.text) {
        Some(value) => Ok(value),
        None => {
            let message = "invalid timestamp ".to_owned().concat(&debug_string(&time.text));
            Err(LokiApiError::bad_request(&message))
        },
    }
}

/// The timestamp of a deletion: whole numbers are seconds.
pub open spec fn delete_timestamp_of(time: TimeModel) -> Result<i64, ApiFault> {
    match signed_in(time.text, i64::MIN as int, i64::MAX as int) {
        Some(seconds) => if i64::MIN <= seconds * 1_000_000_000 <= i64::MAX {
            Ok((seconds * 1_000_000_000) as i64)
        } else {
            Err(bad("delete timestamp is out of range"@))
        },
        None => timestamp_of(time),
    }
}

/// Reads the timestamp of a deletion.
pub fn parse_delete_timestamp(time: &TimeText) -> (result: Result<i64, LokiApiError>)
    ensures
        plain_outcome(result, delete_timestamp_of(time@)),
{
    match read_i64_text(&chars_of(&time.text)) {
        Some(seconds) => match seconds.checked_mul(1_000_000_000) {
            Some(nanos) => Ok(nanos),
            None => Err(LokiApiError::bad_request("delete timestamp is out of range")),
        },
        None => parse_timestamp(time),
    }
}

/// Time parameters of a query.
#[derive(Debug, PartialEq, Eq)]
pub struct TimeRange {
    /// First instant.
    pub start: Option<TimeText>,
    /// Last instant.
    pub end: Option<TimeText>,
    /// Last instant of an instant query.
    pub time: Option<TimeText>,
    /// Duration before the last instant.
    pub since: Option<String>,
}

/// Value of time parameters.
#[verifier::ext_equal]
pub struct TimeRangeModel {
    /// First instant.
    pub start: Option<TimeModel>,
    /// Last instant.
    pub end: Option<TimeModel>,
    /// Last instant of an instant query.
    pub time: Option<TimeModel>,
    /// Duration before the last instant.
    pub since: Option<Seq<char>>,
}

/// A timestamp text behind an option.
pub open spec fn time_option(time: Option<TimeText>) -> Option<TimeModel> {
    match time {
        Some(found) => Some(found@),
        None => None,
    }
}

impl View for TimeRange {
    type V = TimeRangeModel;

    open spec fn view(&self) -> TimeRangeModel {
        TimeRangeModel {
            start: time_option(self.start),
            end: time_option(self.end),
            time: time_option(self.time),
            since: match self.since {
                Some(text) => Some(text@),
                None => None,
            },
        }
    }
}

/// Last instant of a query.
pub open spec fn range_end(range: TimeRangeModel, now: i64) -> Result<i64, ApiFault> {
    match (range.end, range.time) {
        (Some(end), _) => timestamp_of(end),
        (None, Some(time)) => timestamp_of(time),
        (None, None) => Ok(now),
    }
}

/// First instant of a query without one of its own.
pub open spec fn default_start(since: Option<Seq<char>>, end: i64) -> i64 {
    match since {
        Some(text) => match duration_value(text) {
            Some(duration) => if i64::MIN <= end - duration <= i64::MAX {
                (end - duration) as i64
            } else {
                0
            },
            None => 0,
        },
        None => 0,
    }
}

/// First and last instant of a query.
pub open spec fn range_bounds(range: TimeRangeModel, now: i64) -> Result<(i64, i64), ApiFault> {
    match range_end(range, now) {
        Err(fault) => Err(fault),
        Ok(end) => {
            let start = match range.start {
                Some(start) => timestamp_of(start),
                None => Ok(default_start(range.since, end)),
            };
            match start {
                Err(fault) => Err(fault),
                Ok(start) => if start > end {
                    Err(bad("start is after end"@))
                } else {
                    Ok((start, end))
                },
            }
        },
    }
}

/// Reads the bounds of a query.
pub fn query_range_bounds(range: &TimeRange, now: i64) -> (result: Result<
    (i64, i64),
    LokiApiError,
>)
    ensures
        plain_outcome(result, range_bounds(range@, now)),
{
    let end: i64 = match &range.end {
        Some(end) => match parse_timestamp(end) {
            Ok(end) => end,
            Err(error) => return Err(error),
        },
        None => match &range.time {
            Some(time) => match parse_timestamp(time) {
                Ok(end) => end,
                Err(error) => return Err(error),
            },
            None => now,
        },
    };
    let start: i64 = match &range.start {
        Some(start) => match parse_timestamp(start) {
            Ok(start) => start,
            Err(error) => return Err(error),
        },
        None => match &range.since {
            Some(text) => match parse_duration_nanos(text) {
                Some(duration) => match end.checked_sub(duration) {
                    Some(start) => start,
                    None => 0,
                },
                None => 0,
            },
            None => 0,
        },
    };
    if start > end {
        return Err(LokiApiError::bad_request("start is after end"));
    }
    Ok((start, end))
}

/// Nanoseconds of a step, which is a duration or a number of seconds.
pub open spec fn step_of(value: Option<TimeModel>) -> Result<i64, ApiFault> {
    let step = match value {
        None => Some(10_000_000_000),
        Some(time) => match duration_value(time.text) {
            Some(duration) => Some(duration),
            None => match time.float_nanos {
                Some(nanos) => Some(nanos as int),
                None => None,
            },
        },
    };
    match step {
        Some(nanos) if nanos > 0 => Ok(nanos as i64),
        _ => Err(bad("step must be a positive duration"@)),
    }
}

/// Reads a step; `float_nanos` of the text is set only for a positive number.
pub fn pattern_step_nanos(value: &Option<TimeText>) -> (result: Result<i64, LokiApiError>)
    ensures
        plain_outcome(result, step_of(time_option(*value))),
        result matches Ok(step) ==> step > 0,
{
    let step: Option<i64> = match value {
        None => Some(10_000_000_000),
        Some(time) => match parse_duration_nanos(&time.text) {
            Some(duration) => Some(duration),
            None => time.float_nanos,
        },
    };
    match step {
        Some(nanos) => if nanos > 0 {
            Ok(nanos)
        } else {
            Err(LokiApiError::bad_request("step must be a positive duration"))
        },
        None => Err(LokiApiError::bad_request("step must be a positive duration")),
    }
}

/// Type that all values of a field share.
#[derive(Debug, Clone, Copy, PartialEq, Eq, Structural)]
pub enum FieldType {
    /// Truth values.
    Boolean,
    /// Integers.
    Int,
    /// Numbers.
    Float,
    /// Durations.
    Duration,
    /// Byte quantities.
    Bytes,
    /// Any text.
    Text,
}

impl FieldType {
    /// Name of the type.
    pub open spec fn text(self) -> Seq<char> {
        match self {
            FieldType::Boolean => "boolean"@,
            FieldType::Int => "int"@,
            FieldType::Float => "float"@,
            FieldType::Duration => "duration"@,
            FieldType::Bytes => "bytes"@,
            FieldType::Text => "string"@,
        }
    }

    /// Name of the type.
    pub fn name(self) -> (name: &'static str)
        ensures
            name@ == self.text(),
    {
        match self {
            FieldType::Boolean => "boolean",
            FieldType::Int => "int",
            FieldType::Float => "float",
            FieldType::Duration => "duration",
            FieldType::Bytes => "bytes",
            FieldType::Text => "string",
        }
    }
}

/// Whether a value is of a type that its text alone decides.
pub open spec fn value_is(value: Seq<char>, kind: FieldType) -> bool {
    match kind {
        FieldType::Boolean => value == "true"@ || value == "false"@,
        FieldType::Int => signed_in(value, i128::MIN as int, i128::MAX as int) is Some,
        FieldType::Duration => duration_value(value) is Some,
        FieldType::Bytes => quantity_value(value) is Some,
        _ => true,
    }
}

/// Whether all values are of a type.
pub open spec fn all_are(values: Seq<Seq<char>>, kind: FieldType) -> bool {
    forall|i: int| 0 <= i < values.len() ==> value_is(#[trigger] values[i], kind)
}

/// Type of a field, given whether all its values are numbers.
pub open spec fn field_type(values: Seq<Seq<char>>, all_floats: bool) -> FieldType {
    if all_are(values, FieldType::Boolean) {
        FieldType::Boolean
    } else if all_are(values, FieldType::Int) {
        FieldType::Int
    } else if all_floats {
        FieldType::Float
    } else if all_are(values, FieldType::Duration) {
        FieldType::Duration
    } else if all_are(values, FieldType::Bytes) {
        FieldType::Bytes
    } else {
        FieldType::Text
    }
}

/// Texts of strings.
pub open spec fn texts_view(texts: Seq<String>) -> Seq<Seq<char>> {
    texts.map_values(|text: String| text@)
}

/// Whether a value is of a type that its text alone decides.
fn is_value(value: &str, kind: FieldType) -> (is: bool)
    ensures
        is == value_is(value@, kind),
{
    match kind {
        FieldType::Boolean => crate::codec::same_text(value, "true") || crate::codec::same_text(
            value,
            "false",
        ),
        FieldType::Int => is_i128_text(&chars_of(value)),
        FieldType::Duration => parse_duration_nanos(value).is_some(),
        FieldType::Bytes => parse_byte_quantity(value).is_some(),
        _ => true,
    }
}

fn are_all(values: &Vec<String>, kind: FieldType) -> (all: bool)
    ensures
        all == all_are(texts_view(values@), kind),
{
    let mut index: usize = 0;
    while index < values.len()
        invariant
            index <= values@.len(),
            forall|i: int|
                0 <= i < index ==> value_is(#[trigger] texts_view(values@)[i], kind),
        decreases values@.len() - index,
    {
        proof {
            assert(texts_view(values@)[index as int] == values@[index as int]@);
        }
        if !is_value(&values[index], kind) {
            return false;
        }
        index = index + 1;
    }
    true
}

/// Infers the type of a field, given whether all its values are numbers.
pub fn inferred_field_type(values: &Vec<String>, all_floats: bool) -> (kind: FieldType)
    ensures
        kind == field_type(texts_view(values@), all_floats),
{
    if are_all(values, FieldType::Boolean) {
        FieldType::Boolean
    } else if are_all(values, FieldType::Int) {
        FieldType::Int
    } else if all_floats {
        FieldType::Float
    } else if are_all(values, FieldType::Duration) {
        FieldType::Duration
    } else if are_all(values, FieldType::Bytes) {
        FieldType::Bytes
    } else {
        FieldType::Text
    }
}

} // verus!
