//! Little-endian integers, UTF-8 text and decimal rendering.
use vstd::prelude::*;
use vstd::utf8::*;

verus! {

broadcast use vstd::seq_lib::group_seq_properties;

/// Number of distinct values of an `n`-byte unsigned integer.
pub open spec fn pow256(n: nat) -> nat
    decreases n,
{
    if n == 0 {
        1
    } else {
        256 * pow256((n - 1) as nat)
    }
}

/// Value of a little-endian byte string.
pub open spec fn le_value(bytes: Seq<u8>) -> nat
    decreases bytes.len(),
{
    if bytes.len() == 0 {
        0
    } else {
        bytes[0] as nat + 256 * le_value(bytes.drop_first())
    }
}

/// The `n` low bytes of `value`, least significant first.
pub open spec fn le_bytes(value: nat, n: nat) -> Seq<u8>
    decreases n,
{
    if n == 0 {
        Seq::empty()
    } else {
        seq![(value % 256) as u8] + le_bytes(value / 256, (n - 1) as nat)
    }
}

pub proof fn lemma_pow256_values()
    ensures
        pow256(1) == 0x100,
        pow256(2) == 0x1_0000,
        pow256(4) == 0x1_0000_0000,
        pow256(8) == 0x1_0000_0000_0000_0000,
        pow256(16) == 0x1_0000_0000_0000_0000_0000_0000_0000_0000,
{
    reveal_with_fuel(pow256, 17);
}

pub proof fn lemma_le_bytes_len(value: nat, n: nat)
    ensures
        le_bytes(value, n).len() == n,
    decreases n,
{
    if n > 0 {
        lemma_le_bytes_len(value / 256, (n - 1) as nat);
    }
}

pub proof fn lemma_le_value_bound(bytes: Seq<u8>)
    ensures
        le_value(bytes) < pow256(bytes.len()),
    decreases bytes.len(),
{
    if bytes.len() > 0 {
        lemma_le_value_bound(bytes.drop_first());
    }
}

/// Reading back a written integer gives the integer.
pub proof fn lemma_le_round_trip(value: nat, n: nat)
    requires
        value < pow256(n),
    ensures
        le_value(le_bytes(value, n)) == value,
    decreases n,
{
    lemma_le_bytes_len(value, n);
    if n > 0 {
        let rest = le_bytes(value / 256, (n - 1) as nat);
        assert(value / 256 < pow256((n - 1) as nat));
        lemma_le_round_trip(value / 256, (n - 1) as nat);
        lemma_le_bytes_len(value / 256, (n - 1) as nat);
        assert(le_bytes(value, n).drop_first() =~= rest);
        assert(le_bytes(value, n)[0] == (value % 256) as u8);
    }
}

/// Writing back a read integer gives the bytes it was read from.
pub proof fn lemma_le_bytes_of_value(bytes: Seq<u8>)
    ensures
        le_bytes(le_value(bytes), bytes.len()) == bytes,
    decreases bytes.len(),
{
    if bytes.len() > 0 {
        let rest = bytes.drop_first();
        lemma_le_bytes_of_value(rest);
        let value = le_value(bytes);
        assert(value % 256 == bytes[0] as nat);
        assert(value / 256 == le_value(rest));
        assert(le_bytes(value, bytes.len()) =~= bytes);
    } else {
        assert(le_bytes(0, 0) =~= bytes);
    }
}

/// Reads the `width` bytes at `at` as a little-endian integer.
pub fn read_le(bytes: &[u8], at: usize, width: usize) -> (value: u128)
    requires
        width <= 16,
        at + width <= bytes@.len(),
    ensures
        value == le_value(bytes@.subrange(at as int, at + width)),
        value < pow256(width as nat),
{
    let total: usize = bytes.len();
    let mut value: u128 = 0;
    let mut left: usize = width;
    proof {
        assert(bytes@.subrange(at + width, at + width) =~= Seq::<u8>::empty());
    }
    while left > 0
        invariant
            left <= width <= 16,
            at + width <= total,
            total == bytes@.len(),
            value == le_value(bytes@.subrange(at + left, at + width)),
        decreases left,
    {
        let ghost tail = bytes@.subrange(at + left - 1, at + width);
        proof {
            assert(tail.drop_first() =~= bytes@.subrange(at + left, at + width));
            lemma_le_value_bound(tail);
            lemma_pow256_monotonic(tail.len(), 16);
            lemma_pow256_values();
        }
        left = left - 1;
        value = bytes[at + left] as u128 + 256 * value;
    }
    proof {
        lemma_le_value_bound(bytes@.subrange(at as int, at + width));
    }
    value
}

pub proof fn lemma_pow256_monotonic(a: nat, b: nat)
    requires
        a <= b,
    ensures
        pow256(a) <= pow256(b),
    decreases b,
{
    if a < b {
        lemma_pow256_monotonic(a, (b - 1) as nat);
    }
}

/// Reads a little-endian `u16`.
pub fn read_u16(bytes: &[u8], at: usize) -> (value: u16)
    requires
        at + 2 <= bytes@.len(),
    ensures
        value == le_value(bytes@.subrange(at as int, at + 2)),
{
    proof {
        lemma_pow256_values();
    }
    read_le(bytes, at, 2) as u16
}

/// Reads a little-endian `u32`.
pub fn read_u32(bytes: &[u8], at: usize) -> (value: u32)
    requires
        at + 4 <= bytes@.len(),
    ensures
        value == le_value(bytes@.subrange(at as int, at + 4)),
{
    proof {
        lemma_pow256_values();
    }
    read_le(bytes, at, 4) as u32
}

/// Reads a little-endian `u64`.
pub fn read_u64(bytes: &[u8], at: usize) -> (value: u64)
    requires
        at + 8 <= bytes@.len(),
    ensures
        value == le_value(bytes@.subrange(at as int, at + 8)),
{
    proof {
        lemma_pow256_values();
    }
    read_le(bytes, at, 8) as u64
}

/// Reads a little-endian `u128`.
pub fn read_u128(bytes: &[u8], at: usize) -> (value: u128)
    requires
        at + 16 <= bytes@.len(),
    ensures
        value == le_value(bytes@.subrange(at as int, at + 16)),
{
    read_le(bytes, at, 16)
}

/// Appends the `width` low bytes of `value`, least significant first.
pub fn put_le(out: &mut Vec<u8>, value: u128, width: usize)
    ensures
        final(out)@ == old(out)@ + le_bytes(value as nat, width as nat),
{
    let ghost start = out@;
    let mut rest: u128 = value;
    let mut left: usize = width;
    proof {
        assert(start + le_bytes(value as nat, width as nat) =~= out@ + le_bytes(rest as nat, left as nat));
    }
    while left > 0
        invariant
            start + le_bytes(value as nat, width as nat) == out@ + le_bytes(rest as nat, left as nat),
        decreases left,
    {
        let ghost before = out@;
        let ghost tail = le_bytes(rest as nat / 256, (left - 1) as nat);
        let low: u8 = (rest % 256) as u8;
        proof {
            assert(before + le_bytes(rest as nat, left as nat) =~= before.push(low) + tail);
        }
        out.push(low);
        rest = rest / 256;
        left = left - 1;
    }
    proof {
        assert(out@ + le_bytes(rest as nat, 0) =~= out@);
    }
}

/// Appends a copy of `bytes`.
pub fn put_bytes(out: &mut Vec<u8>, bytes: &[u8])
    ensures
        final(out)@ == old(out)@ + bytes@,
{
    let ghost start = out@;
    let mut index: usize = 0;
    while index < bytes.len()
        invariant
            index <= bytes@.len(),
            out@ == start + bytes@.subrange(0, index as int),
        decreases bytes@.len() - index,
    {
        proof {
            assert(start + bytes@.subrange(0, index + 1) =~= (start + bytes@.subrange(0, index as int)).push(bytes@[index as int]));
        }
        out.push(bytes[index]);
        index = index + 1;
    }
    proof {
        assert(bytes@.subrange(0, index as int) =~= bytes@);
    }
}

/// Copies the bytes `[start, end)` of `bytes`.
pub fn copy_range(bytes: &[u8], start: usize, end: usize) -> (copy: Vec<u8>)
    requires
        start <= end <= bytes@.len(),
    ensures
        copy@ == bytes@.subrange(start as int, end as int),
{
    let mut copy: Vec<u8> = Vec::new();
    put_bytes(&mut copy, &bytes[start..end]);
    proof {
        assert(copy@ =~= bytes@.subrange(start as int, end as int));
    }
    copy
}

/// Whether two byte strings are equal.
pub fn same_bytes(left: &[u8], right: &[u8]) -> (same: bool)
    ensures
        same == (left@ == right@),
{
    if left.len() != right.len() {
        return false;
    }
    let mut index: usize = 0;
    while index < left.len()
        invariant
            index <= left@.len(),
            left@.len() == right@.len(),
            forall|i: int| 0 <= i < index ==> left@[i] == right@[i],
        decreases left@.len() - index,
    {
        if left[index] != right[index] {
            return false;
        }
        index = index + 1;
    }
    proof {
        assert(left@ =~= right@);
    }
    true
}

/// Whether the bytes at `at` are `expected`.
pub fn bytes_at(bytes: &[u8], at: usize, expected: &[u8]) -> (same: bool)
    requires
        at + expected@.len() <= bytes@.len(),
    ensures
        same == (bytes@.subrange(at as int, at + expected@.len()) == expected@),
{
    let total: usize = bytes.len();
    let end: usize = at + expected.len();
    same_bytes(&bytes[at..end], expected)
}

/// Reads UTF-8 text in place.
///
/// Calls `std::str::from_utf8`, which succeeds exactly on valid UTF-8 and then
/// gives the characters that the bytes encode.
#[verifier::external_body]
fn utf8_checked(bytes: &[u8]) -> (text: Option<&str>)
    ensures
        text is Some <==> valid_utf8(bytes@),
        text matches Some(decoded) ==> decoded@ == decode_utf8(bytes@),
{
    std::str::from_utf8(bytes).ok()
}

/// Reads UTF-8 text in place, or `None` where the bytes are not UTF-8.
pub fn utf8_text(bytes: &[u8]) -> (text: Option<&str>)
    ensures
        text is Some <==> valid_utf8(bytes@),
        text matches Some(decoded) ==> decoded@ == decode_utf8(bytes@) && encode_utf8(decoded@)
            == bytes@,
{
    let text = utf8_checked(bytes);
    proof {
        if text is Some {
            decode_utf8_encode_utf8(bytes@);
        }
    }
    text
}

/// Text has one encoding: equal bytes mean equal characters.
pub proof fn lemma_utf8_injective(left: Seq<char>, right: Seq<char>)
    ensures
        (encode_utf8(left) == encode_utf8(right)) == (left == right),
{
    encode_utf8_decode_utf8(left);
    encode_utf8_decode_utf8(right);
}

/// Whether two strings hold the same characters.
pub fn same_text(left: &str, right: &str) -> (same: bool)
    ensures
        same == (left@ == right@),
{
    proof {
        lemma_utf8_injective(left@, right@);
    }
    same_bytes(left.as_bytes(), right.as_bytes())
}

/// Byte-wise lexicographic order.
pub open spec fn bytes_less(left: Seq<u8>, right: Seq<u8>) -> bool
    decreases left.len(),
{
    if right.len() == 0 {
        false
    } else if left.len() == 0 {
        true
    } else if left[0] != right[0] {
        left[0] < right[0]
    } else {
        bytes_less(left.drop_first(), right.drop_first())
    }
}

/// Order of strings: that of their UTF-8 bytes.
pub open spec fn text_less(left: Seq<char>, right: Seq<char>) -> bool {
    bytes_less(encode_utf8(left), encode_utf8(right))
}

proof fn lemma_bytes_less_common_prefix(left: Seq<u8>, right: Seq<u8>, n: int)
    requires
        0 <= n <= left.len(),
        n <= right.len(),
        left.subrange(0, n) == right.subrange(0, n),
    ensures
        bytes_less(left, right) == bytes_less(
            left.subrange(n, left.len() as int),
            right.subrange(n, right.len() as int),
        ),
    decreases n,
{
    if n > 0 {
        assert(left[0] == left.subrange(0, n)[0]);
        assert(right[0] == right.subrange(0, n)[0]);
        let l = left.drop_first();
        let r = right.drop_first();
        assert(l.subrange(0, n - 1) =~= left.subrange(0, n).drop_first());
        assert(r.subrange(0, n - 1) =~= right.subrange(0, n).drop_first());
        lemma_bytes_less_common_prefix(l, r, n - 1);
        assert(l.subrange(n - 1, l.len() as int) =~= left.subrange(n, left.len() as int));
        assert(r.subrange(n - 1, r.len() as int) =~= right.subrange(n, right.len() as int));
    } else {
        assert(left.subrange(0, left.len() as int) =~= left);
        assert(right.subrange(0, right.len() as int) =~= right);
    }
}

/// The order of byte strings is strict and total.
pub proof fn lemma_bytes_less_total(left: Seq<u8>, right: Seq<u8>)
    ensures
        !(bytes_less(left, right) && bytes_less(right, left)),
        left != right ==> bytes_less(left, right) || bytes_less(right, left),
        left == right ==> !bytes_less(left, right),
    decreases left.len(),
{
    if left.len() > 0 && right.len() > 0 {
        if left[0] == right[0] {
            lemma_bytes_less_total(left.drop_first(), right.drop_first());
            if left.drop_first() == right.drop_first() {
                assert(left =~= seq![left[0]] + left.drop_first());
                assert(right =~= seq![right[0]] + right.drop_first());
            }
        }
    } else {
        if left.len() == 0 && right.len() == 0 {
            assert(left =~= right);
        }
    }
}

/// The order of byte strings is transitive.
pub proof fn lemma_bytes_less_transitive(a: Seq<u8>, b: Seq<u8>, c: Seq<u8>)
    requires
        bytes_less(a, b),
        bytes_less(b, c),
    ensures
        bytes_less(a, c),
    decreases a.len(),
{
    if a.len() > 0 && b.len() > 0 && c.len() > 0 {
        if a[0] == b[0] && b[0] == c[0] {
            lemma_bytes_less_transitive(a.drop_first(), b.drop_first(), c.drop_first());
        }
    }
}

/// Strings are strictly and totally ordered.
pub proof fn lemma_text_less_total(left: Seq<char>, right: Seq<char>)
    ensures
        !(text_less(left, right) && text_less(right, left)),
        left != right ==> text_less(left, right) || text_less(right, left),
        left == right ==> !text_less(left, right),
{
    lemma_bytes_less_total(encode_utf8(left), encode_utf8(right));
    lemma_utf8_injective(left, right);
}

/// The order of strings is transitive.
pub proof fn lemma_text_less_transitive(a: Seq<char>, b: Seq<char>, c: Seq<char>)
    requires
        text_less(a, b),
        text_less(b, c),
    ensures
        text_less(a, c),
{
    lemma_bytes_less_transitive(encode_utf8(a), encode_utf8(b), encode_utf8(c));
}

/// Compares two strings byte-wise.
pub fn text_is_less(left: &str, right: &str) -> (less: bool)
    ensures
        less == text_less(left@, right@),
{
    let l = left.as_bytes();
    let r = right.as_bytes();
    let mut index: usize = 0;
    proof {
        assert(l@.subrange(0, 0) =~= r@.subrange(0, 0));
    }
    while index < l.len() && index < r.len() && l[index] == r[index]
        invariant
            index <= l@.len(),
            index <= r@.len(),
            l@.subrange(0, index as int) == r@.subrange(0, index as int),
        decreases l@.len() - index,
    {
        proof {
            assert(l@.subrange(0, index + 1) =~= l@.subrange(0, index as int).push(l@[index as int]));
            assert(r@.subrange(0, index + 1) =~= r@.subrange(0, index as int).push(r@[index as int]));
        }
        index = index + 1;
    }
    proof {
        lemma_bytes_less_common_prefix(l@, r@, index as int);
    }
    if index == r.len() {
        false
    } else if index == l.len() {
        true
    } else {
        l[index] < r[index]
    }
}

/// Decimal digits of a number, without leading zeros.
pub open spec fn decimal_text(value: nat) -> Seq<char>
    decreases value,
{
    let digit = ((value % 10) + 48) as char;
    if value < 10 {
        seq![digit]
    } else {
        decimal_text(value / 10).push(digit)
    }
}

/// The ASCII digit of a number below ten.
fn digit_char(digit: u8) -> (character: char)
    requires
        digit < 10,
    ensures
        character == (digit + 48) as char,
{
    (digit + 48) as char
}

/// Appends one character.
///
/// Calls `String::push`, which appends the character to the end.
#[verifier::external_body]
pub(crate) fn push_char(text: &mut String, character: char)
    ensures
        final(text)@ == old(text)@.push(character),
{
    text.push(character);
}

/// Renders a number in decimal.
pub fn decimal_string(value: u128) -> (text: String)
    ensures
        text@ == decimal_text(value as nat),
    decreases value,
{
    let digit: u8 = (value % 10) as u8;
    let mut text = if value < 10 {
        String::new()
    } else {
        decimal_string(value / 10)
    };
    push_char(&mut text, digit_char(digit));
    proof {
        if value < 10 {
            assert(text@ =~= decimal_text(value as nat));
        }
    }
    text
}

} // verus!
