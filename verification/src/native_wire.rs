//! Reading and writing the primitive parts of native payloads.
use vstd::prelude::*;
use vstd::utf8::{
    decode_utf8, encode_utf8, encode_utf8_decode_utf8, encode_utf8_valid_utf8, valid_utf8,
};

use crate::codec::{
    le_bytes, le_value, lemma_le_bytes_len, lemma_le_round_trip, lemma_pow256_values, pow256,
    put_bytes, put_le, read_u16, read_u32, read_u64, same_text, utf8_text,
};
use crate::error::{NativeField, NativeProtocolError};
use crate::labels::{has_key, Pairs};

verus! {

broadcast use vstd::seq_lib::group_seq_properties;

/// A value read from a payload and the position behind it.
pub type Parsed<T> = Result<(T, int), NativeProtocolError>;

/// The little-endian number of `width` bytes at `at`.
pub open spec fn parse_number(bytes: Seq<u8>, at: int, width: nat, field: NativeField) -> Parsed<
    nat,
> {
    if at + width > bytes.len() {
        Err(NativeProtocolError::Truncated(field))
    } else {
        Ok((le_value(bytes.subrange(at, at + width)), at + width))
    }
}

/// The text of `len` bytes at `at`.
pub open spec fn parse_text(bytes: Seq<u8>, at: int, len: nat, field: NativeField) -> Parsed<
    Seq<char>,
> {
    if at + len > bytes.len() {
        Err(NativeProtocolError::Truncated(field))
    } else if !valid_utf8(bytes.subrange(at, at + len)) {
        Err(NativeProtocolError::NotUtf8(field))
    } else {
        Ok((decode_utf8(bytes.subrange(at, at + len)), at + len))
    }
}

/// The text at `at` behind its 16-bit byte length.
pub open spec fn parse_text16(bytes: Seq<u8>, at: int, field: NativeField) -> Parsed<Seq<char>> {
    match parse_number(bytes, at, 2, field) {
        Err(error) => Err(error),
        Ok((len, next)) => parse_text(bytes, next, len, field),
    }
}

/// The key and value at `at`.
pub open spec fn parse_pair(
    bytes: Seq<u8>,
    at: int,
    key_field: NativeField,
    value_field: NativeField,
) -> Parsed<(Seq<char>, Seq<char>)> {
    match parse_text16(bytes, at, key_field) {
        Err(error) => Err(error),
        Ok((key, next)) => match parse_text16(bytes, next, value_field) {
            Err(error) => Err(error),
            Ok((value, end)) => Ok(((key, value), end)),
        },
    }
}

/// The `count` pairs at `at`; an empty or repeated key is the error `bad`.
pub open spec fn parse_pairs(
    bytes: Seq<u8>,
    at: int,
    count: nat,
    key_field: NativeField,
    value_field: NativeField,
    bad: NativeProtocolError,
) -> Parsed<Pairs>
    decreases count,
{
    if count == 0 {
        Ok((Seq::empty(), at))
    } else {
        match parse_pairs(bytes, at, (count - 1) as nat, key_field, value_field, bad) {
            Err(error) => Err(error),
            Ok((pairs, next)) => match parse_pair(bytes, next, key_field, value_field) {
                Err(error) => Err(error),
                Ok((pair, end)) => if pair.0.len() == 0 || has_key(pairs, pair.0) {
                    Err(bad)
                } else {
                    Ok((pairs.push(pair), end))
                },
            },
        }
    }
}

/// A failure among the first pairs is the failure of all of them.
pub proof fn lemma_parse_pairs_error(
    bytes: Seq<u8>,
    at: int,
    few: nat,
    count: nat,
    key_field: NativeField,
    value_field: NativeField,
    bad: NativeProtocolError,
)
    requires
        few <= count,
        parse_pairs(bytes, at, few, key_field, value_field, bad) is Err,
    ensures
        parse_pairs(bytes, at, count, key_field, value_field, bad) == parse_pairs(
            bytes,
            at,
            few,
            key_field,
            value_field,
            bad,
        ),
    decreases count,
{
    if few < count {
        lemma_parse_pairs_error(
            bytes,
            at,
            few,
            (count - 1) as nat,
            key_field,
            value_field,
            bad,
        );
    }
}

/// Wire form of text behind its 16-bit byte length.
pub open spec fn wire_text16(text: Seq<char>) -> Seq<u8> {
    le_bytes(encode_utf8(text).len(), 2) + encode_utf8(text)
}

/// Wire form of a pair.
pub open spec fn wire_pair(pair: (Seq<char>, Seq<char>)) -> Seq<u8> {
    wire_text16(pair.0) + wire_text16(pair.1)
}

/// Wire form of pairs.
pub open spec fn wire_pairs(pairs: Pairs) -> Seq<u8>
    decreases pairs.len(),
{
    if pairs.len() == 0 {
        Seq::empty()
    } else {
        wire_pairs(pairs.drop_last()) + wire_pair(pairs.last())
    }
}

/// Whether text fits behind a 16-bit byte length.
pub open spec fn fits_text16(text: Seq<char>) -> bool {
    encode_utf8(text).len() <= 0xffff
}

/// Whether the bytes at `at` are `part`.
pub open spec fn holds_at(bytes: Seq<u8>, at: int, part: Seq<u8>) -> bool {
    &&& 0 <= at
    &&& at + part.len() <= bytes.len()
    &&& bytes.subrange(at, at + part.len()) == part
}

/// The two halves of a concatenation follow each other.
pub proof fn lemma_holds_split(bytes: Seq<u8>, at: int, first: Seq<u8>, second: Seq<u8>)
    requires
        holds_at(bytes, at, first + second),
    ensures
        holds_at(bytes, at, first),
        holds_at(bytes, at + first.len(), second),
{
    let whole = first + second;
    let got = bytes.subrange(at, at + whole.len());
    assert(bytes.subrange(at, at + first.len()) =~= got.subrange(0, first.len() as int));
    assert(whole.subrange(0, first.len() as int) =~= first);
    assert(bytes.subrange(at + first.len(), at + first.len() + second.len()) =~= got.subrange(
        first.len() as int,
        whole.len() as int,
    ));
    assert(whole.subrange(first.len() as int, whole.len() as int) =~= second);
}

/// A written number reads back.
pub proof fn lemma_parse_number(bytes: Seq<u8>, at: int, value: nat, width: nat, field: NativeField)
    requires
        value < pow256(width),
        holds_at(bytes, at, le_bytes(value, width)),
    ensures
        parse_number(bytes, at, width, field) == Ok::<_, NativeProtocolError>((value, at + width)),
{
    lemma_le_bytes_len(value, width);
    lemma_le_round_trip(value, width);
}

/// Written text reads back.
pub proof fn lemma_parse_text(bytes: Seq<u8>, at: int, text: Seq<char>, field: NativeField)
    requires
        holds_at(bytes, at, encode_utf8(text)),
    ensures
        parse_text(bytes, at, encode_utf8(text).len(), field) == Ok::<_, NativeProtocolError>(
            (text, at + encode_utf8(text).len()),
        ),
{
    encode_utf8_valid_utf8(text);
    encode_utf8_decode_utf8(text);
}

/// Written text with its length reads back.
pub proof fn lemma_parse_text16(bytes: Seq<u8>, at: int, text: Seq<char>, field: NativeField)
    requires
        fits_text16(text),
        holds_at(bytes, at, wire_text16(text)),
    ensures
        parse_text16(bytes, at, field) == Ok::<_, NativeProtocolError>(
            (text, at + wire_text16(text).len()),
        ),
{
    let len = encode_utf8(text).len();
    lemma_pow256_values();
    lemma_le_bytes_len(len, 2);
    lemma_holds_split(bytes, at, le_bytes(len, 2), encode_utf8(text));
    lemma_parse_number(bytes, at, len, 2, field);
    lemma_parse_text(bytes, at + 2, text, field);
}

/// Whether every pair has a key of its own and fits on the wire.
pub open spec fn wire_ready(pairs: Pairs) -> bool {
    &&& forall|i: int|
        0 <= i < pairs.len() ==> (#[trigger] pairs[i]).0.len() > 0 && fits_text16(pairs[i].0)
            && fits_text16(pairs[i].1)
    &&& forall|i: int, j: int|
        0 <= i < j < pairs.len() ==> (#[trigger] pairs[i]).0 != (#[trigger] pairs[j]).0
}

/// Written pairs read back.
pub proof fn lemma_parse_pairs(
    bytes: Seq<u8>,
    at: int,
    pairs: Pairs,
    key_field: NativeField,
    value_field: NativeField,
    bad: NativeProtocolError,
)
    requires
        wire_ready(pairs),
        holds_at(bytes, at, wire_pairs(pairs)),
    ensures
        parse_pairs(bytes, at, pairs.len(), key_field, value_field, bad) == Ok::<
            _,
            NativeProtocolError,
        >((pairs, at + wire_pairs(pairs).len())),
    decreases pairs.len(),
{
    if pairs.len() > 0 {
        let front = pairs.drop_last();
        let last = pairs.last();
        assert(wire_ready(front)) by {
            assert forall|i: int| 0 <= i < front.len() implies (#[trigger] front[i]).0.len() > 0
                && fits_text16(front[i].0) && fits_text16(front[i].1) by {
                assert(front[i] == pairs[i]);
            }
        }
        lemma_holds_split(bytes, at, wire_pairs(front), wire_pair(last));
        lemma_parse_pairs(bytes, at, front, key_field, value_field, bad);
        let next = at + wire_pairs(front).len();
        lemma_holds_split(bytes, next, wire_text16(last.0), wire_text16(last.1));
        assert(pairs[pairs.len() - 1] == last);
        lemma_parse_text16(bytes, next, last.0, key_field);
        lemma_parse_text16(bytes, next + wire_text16(last.0).len(), last.1, value_field);
        assert(!has_key(front, last.0)) by {
            if has_key(front, last.0) {
                let i = choose|i: int| 0 <= i < front.len() && #[trigger] front[i].0 == last.0;
                assert(pairs[i].0 == last.0);
            }
        }
        assert(front.push(last) =~= pairs);
    } else {
        assert(pairs =~= Seq::empty());
    }
}

/// Position in a native payload.
pub struct Cursor<'a> {
    /// Whole payload.
    pub bytes: &'a [u8],
    /// Bytes already read.
    pub offset: usize,
}

impl<'a> Cursor<'a> {
    /// Whether the position is inside the payload.
    pub open spec fn valid(self) -> bool {
        self.offset <= self.bytes@.len()
    }

    /// Reads from `offset` on.
    pub fn at(bytes: &'a [u8], offset: usize) -> (cursor: Self)
        ensures
            cursor == (Cursor { bytes, offset }),
    {
        Cursor { bytes, offset }
    }

    /// Takes `len` bytes and gives the position where they start.
    fn skip(&mut self, len: usize, field: NativeField) -> (result: Result<
        usize,
        NativeProtocolError,
    >)
        requires
            old(self).valid(),
        ensures
            final(self).bytes == old(self).bytes,
            final(self).valid(),
            match result {
                Ok(start) => start == old(self).offset && final(self).offset == start + len
                    && start + len <= old(self).bytes@.len(),
                Err(error) => old(self).offset + len > old(self).bytes@.len() && error
                    == NativeProtocolError::Truncated(field),
            },
    {
        let total: usize = self.bytes.len();
        if len > total - self.offset {
            return Err(NativeProtocolError::Truncated(field));
        }
        let start: usize = self.offset;
        self.offset = start + len;
        Ok(start)
    }

    /// Reads a 16-bit number.
    pub fn u16(&mut self, field: NativeField) -> (result: Result<u16, NativeProtocolError>)
        requires
            old(self).valid(),
        ensures
            final(self).bytes == old(self).bytes,
            final(self).valid(),
            match result {
                Ok(value) => parse_number(old(self).bytes@, old(self).offset as int, 2, field)
                    == Ok::<_, NativeProtocolError>((value as nat, final(self).offset as int)),
                Err(error) => parse_number(old(self).bytes@, old(self).offset as int, 2, field)
                    == Err::<(nat, int), _>(error),
            },
    {
        match self.skip(2, field) {
            Ok(start) => Ok(read_u16(self.bytes, start)),
            Err(error) => Err(error),
        }
    }

    /// Reads a 32-bit number.
    pub fn u32(&mut self, field: NativeField) -> (result: Result<u32, NativeProtocolError>)
        requires
            old(self).valid(),
        ensures
            final(self).bytes == old(self).bytes,
            final(self).valid(),
            match result {
                Ok(value) => parse_number(old(self).bytes@, old(self).offset as int, 4, field)
                    == Ok::<_, NativeProtocolError>((value as nat, final(self).offset as int)),
                Err(error) => parse_number(old(self).bytes@, old(self).offset as int, 4, field)
                    == Err::<(nat, int), _>(error),
            },
    {
        match self.skip(4, field) {
            Ok(start) => Ok(read_u32(self.bytes, start)),
            Err(error) => Err(error),
        }
    }

    /// Reads a 64-bit number.
    pub fn u64(&mut self, field: NativeField) -> (result: Result<u64, NativeProtocolError>)
        requires
            old(self).valid(),
        ensures
            final(self).bytes == old(self).bytes,
            final(self).valid(),
            match result {
                Ok(value) => parse_number(old(self).bytes@, old(self).offset as int, 8, field)
                    == Ok::<_, NativeProtocolError>((value as nat, final(self).offset as int)),
                Err(error) => parse_number(old(self).bytes@, old(self).offset as int, 8, field)
                    == Err::<(nat, int), _>(error),
            },
    {
        match self.skip(8, field) {
            Ok(start) => Ok(read_u64(self.bytes, start)),
            Err(error) => Err(error),
        }
    }

    /// Reads text of `len` bytes.
    pub fn string(&mut self, len: usize, field: NativeField) -> (result: Result<
        &'a str,
        NativeProtocolError,
    >)
        requires
            old(self).valid(),
        ensures
            final(self).bytes == old(self).bytes,
            final(self).valid(),
            match result {
                Ok(text) => parse_text(
                    old(self).bytes@,
                    old(self).offset as int,
                    len as nat,
                    field,
                ) == Ok::<_, NativeProtocolError>((text@, final(self).offset as int)),
                Err(error) => parse_text(
                    old(self).bytes@,
                    old(self).offset as int,
                    len as nat,
                    field,
                ) == Err::<(Seq<char>, int), _>(error),
            },
    {
        let start: usize = match self.skip(len, field) {
            Ok(start) => start,
            Err(error) => return Err(error),
        };
        let end: usize = self.offset;
        let whole: &'a [u8] = self.bytes;
        match utf8_text(&whole[start..end]) {
            Some(text) => Ok(text),
            None => Err(NativeProtocolError::NotUtf8(field)),
        }
    }

    /// Reads text behind its 16-bit byte length.
    pub fn string16(&mut self, field: NativeField) -> (result: Result<
        &'a str,
        NativeProtocolError,
    >)
        requires
            old(self).valid(),
        ensures
            final(self).bytes == old(self).bytes,
            final(self).valid(),
            match result {
                Ok(text) => parse_text16(old(self).bytes@, old(self).offset as int, field) == Ok::<
                    _,
                    NativeProtocolError,
                >((text@, final(self).offset as int)),
                Err(error) => parse_text16(old(self).bytes@, old(self).offset as int, field)
                    == Err::<(Seq<char>, int), _>(error),
            },
    {
        match self.u16(field) {
            Ok(len) => self.string(len as usize, field),
            Err(error) => Err(error),
        }
    }

    /// Reads `count` pairs; an empty or repeated key is the error `bad`.
    pub fn pairs(
        &mut self,
        count: usize,
        key_field: NativeField,
        value_field: NativeField,
        bad: NativeProtocolError,
    ) -> (result: Result<Vec<(&'a str, &'a str)>, NativeProtocolError>)
        requires
            old(self).valid(),
        ensures
            final(self).bytes == old(self).bytes,
            final(self).valid(),
            match result {
                Ok(pairs) => parse_pairs(
                    old(self).bytes@,
                    old(self).offset as int,
                    count as nat,
                    key_field,
                    value_field,
                    bad,
                ) == Ok::<_, NativeProtocolError>(
                    (str_pairs(pairs@), final(self).offset as int),
                ),
                Err(error) => parse_pairs(
                    old(self).bytes@,
                    old(self).offset as int,
                    count as nat,
                    key_field,
                    value_field,
                    bad,
                ) == Err::<(Pairs, int), _>(error),
            },
    {
        let ghost bytes = self.bytes@;
        let ghost at = self.offset as int;
        let mut pairs: Vec<(&'a str, &'a str)> = Vec::new();
        let mut index: usize = 0;
        proof {
            assert(str_pairs(pairs@) =~= Pairs::empty());
        }
        while index < count
            invariant
                index <= count,
                self.bytes@ == bytes,
                self.bytes == old(self).bytes,
                self.valid(),
                at == old(self).offset,
                bytes == old(self).bytes@,
                parse_pairs(bytes, at, index as nat, key_field, value_field, bad) == Ok::<
                    _,
                    NativeProtocolError,
                >((str_pairs(pairs@), self.offset as int)),
            decreases count - index,
        {
            let ghost before = self.offset as int;
            let key = match self.string16(key_field) {
                Ok(key) => key,
                Err(error) => {
                    proof {
                        lemma_parse_pairs_error(
                            bytes,
                            at,
                            (index + 1) as nat,
                            count as nat,
                            key_field,
                            value_field,
                            bad,
                        );
                    }
                    return Err(error);
                },
            };
            let value = match self.string16(value_field) {
                Ok(value) => value,
                Err(error) => {
                    proof {
                        lemma_parse_pairs_error(
                            bytes,
                            at,
                            (index + 1) as nat,
                            count as nat,
                            key_field,
                            value_field,
                            bad,
                        );
                    }
                    return Err(error);
                },
            };
            if key.is_empty() || holds_key(&pairs, key) {
                proof {
                    lemma_parse_pairs_error(
                        bytes,
                        at,
                        (index + 1) as nat,
                        count as nat,
                        key_field,
                        value_field,
                        bad,
                    );
                }
                return Err(bad);
            }
            proof {
                assert(str_pairs(pairs@.push((key, value))) =~= str_pairs(pairs@).push((key@, value@)));
            }
            pairs.push((key, value));
            index = index + 1;
        }
        Ok(pairs)
    }

    /// Checks that the whole payload was read.
    pub fn finish(self) -> (result: Result<(), NativeProtocolError>)
        ensures
            result == if self.offset == self.bytes@.len() {
                Ok::<(), NativeProtocolError>(())
            } else {
                Err(NativeProtocolError::TrailingBytes)
            },
    {
        if self.offset == self.bytes.len() {
            Ok(())
        } else {
            Err(NativeProtocolError::TrailingBytes)
        }
    }
}

/// Values of borrowed pairs.
pub open spec fn str_pairs(pairs: Seq<(&str, &str)>) -> Pairs {
    pairs.map_values(|pair: (&str, &str)| (pair.0@, pair.1@))
}

/// Whether a borrowed pair has this key.
pub fn holds_key(pairs: &Vec<(&str, &str)>, key: &str) -> (found: bool)
    ensures
        found == has_key(str_pairs(pairs@), key@),
{
    let ghost model = str_pairs(pairs@);
    let mut index: usize = 0;
    while index < pairs.len()
        invariant
            index <= pairs@.len(),
            model == str_pairs(pairs@),
            forall|i: int| 0 <= i < index ==> #[trigger] model[i].0 != key@,
        decreases pairs@.len() - index,
    {
        if same_text(pairs[index].0, key) {
            proof {
                assert(model[index as int].0 == key@);
            }
            return true;
        }
        index = index + 1;
    }
    false
}

/// Appends a number of two bytes, where it fits.
pub fn put_u16(out: &mut Vec<u8>, value: usize, field: NativeField) -> (result: Result<
    (),
    NativeProtocolError,
>)
    ensures
        match result {
            Ok(_) => value <= 0xffff && final(out)@ == old(out)@ + le_bytes(value as nat, 2),
            Err(error) => value > 0xffff && error == NativeProtocolError::ExceedsU16(field)
                && final(out)@ == old(out)@,
        },
{
    if value > 0xffff {
        return Err(NativeProtocolError::ExceedsU16(field));
    }
    put_le(out, value as u128, 2);
    Ok(())
}

/// Appends a number of four bytes, where it fits.
pub fn put_u32(out: &mut Vec<u8>, value: usize, field: NativeField) -> (result: Result<
    (),
    NativeProtocolError,
>)
    ensures
        match result {
            Ok(_) => value <= u32::MAX && final(out)@ == old(out)@ + le_bytes(value as nat, 4),
            Err(error) => value > u32::MAX && error == NativeProtocolError::ExceedsU32(field)
                && final(out)@ == old(out)@,
        },
{
    if value as u128 > u32::MAX as u128 {
        return Err(NativeProtocolError::ExceedsU32(field));
    }
    put_le(out, value as u128, 4);
    Ok(())
}

/// Appends text behind its 16-bit byte length, where it fits.
pub fn put_string16(out: &mut Vec<u8>, value: &str, field: NativeField) -> (result: Result<
    (),
    NativeProtocolError,
>)
    ensures
        match result {
            Ok(_) => fits_text16(value@) && final(out)@ == old(out)@ + wire_text16(value@),
            Err(error) => !fits_text16(value@) && error == NativeProtocolError::ExceedsU16(field),
        },
{
    let text = value.as_bytes();
    let ghost before = out@;
    match put_u16(out, text.len(), field) {
        Ok(_) => {
            put_bytes(out, text);
            proof {
                assert(out@ =~= before + wire_text16(value@));
            }
            Ok(())
        },
        Err(error) => Err(error),
    }
}

/// Checks that text fits behind a 16-bit byte length.
pub fn validate_string16(value: &str, field: NativeField) -> (result: Result<
    (),
    NativeProtocolError,
>)
    ensures
        result == if fits_text16(value@) {
            Ok::<(), NativeProtocolError>(())
        } else {
            Err(NativeProtocolError::ExceedsU16(field))
        },
{
    if value.as_bytes().len() > 0xffff {
        Err(NativeProtocolError::ExceedsU16(field))
    } else {
        Ok(())
    }
}

} // verus!
