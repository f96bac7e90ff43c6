//! Native indexed queries.
use vstd::prelude::*;
use vstd::utf8::encode_utf8;

use crate::codec::{
    bytes_at, le_bytes, le_value, lemma_le_bytes_len, lemma_le_round_trip, lemma_pow256_values,
    put_bytes, put_le, read_u16, read_u32, read_u64,
};
use crate::error::{NativeField, NativeProtocolError};
use crate::labels::{
    ascending, collect_pairs, lemma_ascending_unique, lemma_collect_ascending, LabelMap, Pairs,
};
use crate::native_batch::MAX_LABELS_PER_STREAM;
use crate::native_decode::collect_borrowed;
use crate::native_encode::{put_map, tenant_error, validate_tenant};
use crate::native_wire::{
    fits_text16, holds_at, lemma_holds_split, lemma_parse_pairs, lemma_parse_text,
    lemma_parse_text16, parse_pairs, parse_text, parse_text16, put_string16, validate_string16,
    wire_pairs, wire_ready, wire_text16, Cursor, Parsed,
};

verus! {

broadcast use vstd::seq_lib::group_seq_properties;

/// Fixed bytes of a query before its tenant.
pub const QUERY_HEADER_BYTES: usize = 32;

/// Most terms of one query.
pub const MAX_QUERY_TERMS: usize = 256;

/// Largest result limit.
pub const MAX_QUERY_LIMIT: u32 = 1_000_000;

/// First bytes of a query: `SLQ1`.
pub open spec fn query_magic() -> Seq<u8> {
    seq![0x53, 0x4c, 0x51, 0x31]
}

/// Sort direction for an indexed native query.
#[derive(Debug, Clone, Copy, PartialEq, Eq, Structural)]
pub enum NativeQueryDirection {
    /// Lowest timestamps first.
    OldestFirst,
    /// Highest timestamps first.
    NewestFirst,
}

impl Default for NativeQueryDirection {
    fn default() -> (direction: Self)
        ensures
            direction == NativeQueryDirection::OldestFirst,
    {
        NativeQueryDirection::OldestFirst
    }
}

/// Bounded native indexed-query request.
#[derive(Debug, PartialEq, Eq)]
pub struct NativeQuery {
    /// Tenant to search.
    pub tenant: String,
    /// Exact stream labels combined with AND semantics.
    pub labels: LabelMap,
    /// Case-insensitive exact message tokens combined with AND semantics.
    pub terms: Vec<String>,
    /// Inclusive lower timestamp bound, or no lower bound.
    pub start_timestamp_unix_nanos: Option<u64>,
    /// Exclusive upper timestamp bound, or no upper bound.
    pub end_timestamp_unix_nanos: Option<u64>,
    /// Maximum records to return.
    pub limit: u32,
    /// Timestamp result order.
    pub direction: NativeQueryDirection,
}

/// Value of a query.
#[verifier::ext_equal]
pub struct QueryModel {
    /// Tenant to search.
    pub tenant: Seq<char>,
    /// Exact stream labels in ascending key order.
    pub labels: Pairs,
    /// Message tokens.
    pub terms: Seq<Seq<char>>,
    /// Inclusive lower timestamp bound.
    pub start: Option<u64>,
    /// Exclusive upper timestamp bound.
    pub end: Option<u64>,
    /// Maximum records to return.
    pub limit: u32,
    /// Timestamp result order.
    pub direction: NativeQueryDirection,
}

/// Values of a list of strings.
pub open spec fn strings_view(texts: Seq<String>) -> Seq<Seq<char>> {
    texts.map_values(|text: String| text@)
}

impl View for NativeQuery {
    type V = QueryModel;

    open spec fn view(&self) -> QueryModel {
        QueryModel {
            tenant: self.tenant@,
            labels: self.labels@,
            terms: strings_view(self.terms@),
            start: self.start_timestamp_unix_nanos,
            end: self.end_timestamp_unix_nanos,
            limit: self.limit,
            direction: self.direction,
        }
    }
}

/// The first label that a query may not hold.
pub open spec fn query_labels_error(labels: Pairs) -> Option<NativeProtocolError>
    decreases labels.len(),
{
    if labels.len() == 0 {
        None
    } else {
        match query_labels_error(labels.drop_last()) {
            Some(error) => Some(error),
            None => if labels.last().0.len() == 0 {
                Some(NativeProtocolError::EmptyQueryLabelKey)
            } else if !fits_text16(labels.last().0) {
                Some(NativeProtocolError::ExceedsU16(NativeField::QueryLabelKey))
            } else if !fits_text16(labels.last().1) {
                Some(NativeProtocolError::ExceedsU16(NativeField::QueryLabelValue))
            } else {
                None
            },
        }
    }
}

/// The first term that a query may not hold.
pub open spec fn query_terms_error(terms: Seq<Seq<char>>) -> Option<NativeProtocolError>
    decreases terms.len(),
{
    if terms.len() == 0 {
        None
    } else {
        match query_terms_error(terms.drop_last()) {
            Some(error) => Some(error),
            None => if terms.last().len() == 0 {
                Some(NativeProtocolError::EmptyQueryTerm)
            } else if !fits_text16(terms.last()) {
                Some(NativeProtocolError::ExceedsU16(NativeField::QueryTerm))
            } else {
                None
            },
        }
    }
}

/// Why a query is refused, if it is.
pub open spec fn query_error(query: QueryModel) -> Option<NativeProtocolError> {
    match tenant_error(query.tenant) {
        Some(error) => Some(error),
        None => if query.labels.len() > MAX_LABELS_PER_STREAM {
            Some(NativeProtocolError::TooManyQueryLabels)
        } else if query.terms.len() > MAX_QUERY_TERMS {
            Some(NativeProtocolError::TooManyQueryTerms)
        } else if query.limit == 0 || query.limit > MAX_QUERY_LIMIT {
            Some(NativeProtocolError::QueryLimit)
        } else if query.start is Some && query.end is Some && query.start->0 >= query.end->0 {
            Some(NativeProtocolError::EmptyTimeRange)
        } else {
            match query_labels_error(query.labels) {
                Some(error) => Some(error),
                None => query_terms_error(query.terms),
            }
        },
    }
}

/// Wire form of terms.
pub open spec fn wire_terms(terms: Seq<Seq<char>>) -> Seq<u8>
    decreases terms.len(),
{
    if terms.len() == 0 {
        Seq::empty()
    } else {
        wire_terms(terms.drop_last()) + wire_text16(terms.last())
    }
}

/// Wire number of a bound; the largest number stands for no bound.
pub open spec fn wire_bound(bound: Option<u64>) -> nat {
    match bound {
        Some(value) => value as nat,
        None => u64::MAX as nat,
    }
}

/// Bound of a wire number.
pub open spec fn bound_of(value: nat) -> Option<u64> {
    if value == u64::MAX {
        None
    } else {
        Some(value as u64)
    }
}

/// Wire byte of a direction.
pub open spec fn direction_byte(direction: NativeQueryDirection) -> u8 {
    match direction {
        NativeQueryDirection::OldestFirst => 0,
        NativeQueryDirection::NewestFirst => 1,
    }
}

/// Fixed part of a query's wire form.
pub open spec fn wire_query_header(query: QueryModel) -> Seq<u8> {
    query_magic() + le_bytes(encode_utf8(query.tenant).len(), 2) + le_bytes(query.labels.len(), 2)
        + le_bytes(query.terms.len(), 2) + seq![direction_byte(query.direction), 0u8] + le_bytes(
        query.limit as nat,
        4,
    ) + le_bytes(wire_bound(query.start), 8) + le_bytes(wire_bound(query.end), 8)
}

/// Wire form of a query.
pub open spec fn wire_query(query: QueryModel) -> Seq<u8> {
    wire_query_header(query) + encode_utf8(query.tenant) + wire_pairs(query.labels) + wire_terms(
        query.terms,
    )
}

/// The `count` terms at `at`.
pub open spec fn parse_terms(bytes: Seq<u8>, at: int, count: nat) -> Parsed<Seq<Seq<char>>>
    decreases count,
{
    if count == 0 {
        Ok((Seq::empty(), at))
    } else {
        match parse_terms(bytes, at, (count - 1) as nat) {
            Err(error) => Err(error),
            Ok((terms, next)) => match parse_text16(bytes, next, NativeField::QueryTerm) {
                Err(error) => Err(error),
                Ok((term, end)) => if term.len() == 0 {
                    Err(NativeProtocolError::EmptyQueryTerm)
                } else {
                    Ok((terms.push(term), end))
                },
            },
        }
    }
}

/// The variable part of a query: tenant, labels and terms.
pub open spec fn parse_query_body(bytes: Seq<u8>) -> Parsed<(Seq<char>, Pairs, Seq<Seq<char>>)> {
    match parse_text(
        bytes,
        QUERY_HEADER_BYTES as int,
        le_value(bytes.subrange(4, 6)),
        NativeField::QueryTenant,
    ) {
        Err(error) => Err(error),
        Ok((tenant, at1)) => match parse_pairs(
            bytes,
            at1,
            le_value(bytes.subrange(6, 8)),
            NativeField::QueryLabelKey,
            NativeField::QueryLabelValue,
            NativeProtocolError::BadQueryLabel,
        ) {
            Err(error) => Err(error),
            Ok((labels, at2)) => match parse_terms(bytes, at2, le_value(bytes.subrange(8, 10))) {
                Err(error) => Err(error),
                Ok((terms, end)) => Ok(((tenant, labels, terms), end)),
            },
        },
    }
}

/// The query that a payload holds.
pub open spec fn parse_query(bytes: Seq<u8>) -> Result<QueryModel, NativeProtocolError> {
    if bytes.len() < QUERY_HEADER_BYTES || bytes.subrange(0, 4) != query_magic() {
        Err(NativeProtocolError::InvalidQueryHeader)
    } else if bytes[10] > 1 {
        Err(NativeProtocolError::UnsupportedDirection(bytes[10]))
    } else if bytes[11] != 0 {
        Err(NativeProtocolError::QueryReserved)
    } else {
        match parse_query_body(bytes) {
            Err(error) => Err(error),
            Ok(((tenant, labels, terms), end)) => if end != bytes.len() {
                Err(NativeProtocolError::TrailingBytes)
            } else {
                let query = QueryModel {
                    tenant,
                    labels: collect_pairs(labels),
                    terms,
                    start: bound_of(le_value(bytes.subrange(16, 24))),
                    end: bound_of(le_value(bytes.subrange(24, 32))),
                    limit: le_value(bytes.subrange(12, 16)) as u32,
                    direction: if bytes[10] == 0 {
                        NativeQueryDirection::OldestFirst
                    } else {
                        NativeQueryDirection::NewestFirst
                    },
                };
                match query_error(query) {
                    Some(error) => Err(error),
                    None => Ok(query),
                }
            },
        }
    }
}

proof fn lemma_labels_error_prefix(labels: Pairs, n: int)
    requires
        0 <= n <= labels.len(),
        query_labels_error(labels.subrange(0, n)) is Some,
    ensures
        query_labels_error(labels) == query_labels_error(labels.subrange(0, n)),
    decreases labels.len(),
{
    if n < labels.len() {
        assert(labels.drop_last().subrange(0, n) =~= labels.subrange(0, n));
        lemma_labels_error_prefix(labels.drop_last(), n);
    } else {
        assert(labels.subrange(0, n) =~= labels);
    }
}

proof fn lemma_terms_error_prefix(terms: Seq<Seq<char>>, n: int)
    requires
        0 <= n <= terms.len(),
        query_terms_error(terms.subrange(0, n)) is Some,
    ensures
        query_terms_error(terms) == query_terms_error(terms.subrange(0, n)),
    decreases terms.len(),
{
    if n < terms.len() {
        assert(terms.drop_last().subrange(0, n) =~= terms.subrange(0, n));
        lemma_terms_error_prefix(terms.drop_last(), n);
    } else {
        assert(terms.subrange(0, n) =~= terms);
    }
}

/// Checks the labels of a query.
fn validate_query_labels(labels: &LabelMap) -> (result: Result<(), NativeProtocolError>)
    ensures
        match result {
            Ok(_) => query_labels_error(labels@) is None,
            Err(error) => query_labels_error(labels@) == Some(error),
        },
{
    let mut index: usize = 0;
    proof {
        assert(labels@.subrange(0, 0) =~= Pairs::empty());
    }
    while index < labels.len()
        invariant
            index <= labels@.len(),
            query_labels_error(labels@.subrange(0, index as int)) is None,
        decreases labels@.len() - index,
    {
        proof {
            let part = labels@.subrange(0, index + 1);
            assert(part.drop_last() =~= labels@.subrange(0, index as int));
            assert(part.last() == labels@[index as int]);
            if query_labels_error(part) is Some {
                lemma_labels_error_prefix(labels@, index + 1);
            }
        }
        let key = labels.key_at(index);
        if key.as_str().is_empty() {
            return Err(NativeProtocolError::EmptyQueryLabelKey);
        }
        match validate_string16(key, NativeField::QueryLabelKey) {
            Ok(_) => {},
            Err(error) => return Err(error),
        }
        match validate_string16(labels.value_at(index), NativeField::QueryLabelValue) {
            Ok(_) => {},
            Err(error) => return Err(error),
        }
        index = index + 1;
    }
    proof {
        assert(labels@.subrange(0, index as int) =~= labels@);
    }
    Ok(())
}

/// Checks the terms of a query.
fn validate_query_terms(terms: &Vec<String>) -> (result: Result<(), NativeProtocolError>)
    ensures
        match result {
            Ok(_) => query_terms_error(strings_view(terms@)) is None,
            Err(error) => query_terms_error(strings_view(terms@)) == Some(error),
        },
{
    let ghost all = strings_view(terms@);
    let mut index: usize = 0;
    proof {
        assert(all.subrange(0, 0) =~= Seq::<Seq<char>>::empty());
    }
    while index < terms.len()
        invariant
            index <= terms@.len(),
            all == strings_view(terms@),
            query_terms_error(all.subrange(0, index as int)) is None,
        decreases terms@.len() - index,
    {
        proof {
            let part = all.subrange(0, index + 1);
            assert(part.drop_last() =~= all.subrange(0, index as int));
            assert(part.last() == terms@[index as int]@);
            if query_terms_error(part) is Some {
                lemma_terms_error_prefix(all, index + 1);
            }
        }
        if terms[index].as_str().is_empty() {
            return Err(NativeProtocolError::EmptyQueryTerm);
        }
        match validate_string16(&terms[index], NativeField::QueryTerm) {
            Ok(_) => {},
            Err(error) => return Err(error),
        }
        index = index + 1;
    }
    proof {
        assert(all.subrange(0, index as int) =~= all);
    }
    Ok(())
}

/// Checks all limits of a query.
pub fn validate_query(query: &NativeQuery) -> (result: Result<(), NativeProtocolError>)
    ensures
        match result {
            Ok(_) => query_error(query@) is None,
            Err(error) => query_error(query@) == Some(error),
        },
{
    match validate_tenant(&query.tenant) {
        Ok(_) => {},
        Err(error) => return Err(error),
    }
    if query.labels.len() > MAX_LABELS_PER_STREAM {
        return Err(NativeProtocolError::TooManyQueryLabels);
    }
    if query.terms.len() > MAX_QUERY_TERMS {
        return Err(NativeProtocolError::TooManyQueryTerms);
    }
    if query.limit == 0 || query.limit > MAX_QUERY_LIMIT {
        return Err(NativeProtocolError::QueryLimit);
    }
    match (query.start_timestamp_unix_nanos, query.end_timestamp_unix_nanos) {
        (Some(start), Some(end)) => {
            if start >= end {
                return Err(NativeProtocolError::EmptyTimeRange);
            }
        },
        _ => {},
    }
    match validate_query_labels(&query.labels) {
        Ok(_) => {},
        Err(error) => return Err(error),
    }
    validate_query_terms(&query.terms)
}

proof fn lemma_query_labels_fit(labels: Pairs)
    requires
        query_labels_error(labels) is None,
    ensures
        forall|i: int|
            0 <= i < labels.len() ==> (#[trigger] labels[i]).0.len() > 0 && fits_text16(
                labels[i].0,
            ) && fits_text16(labels[i].1),
        crate::native_encode::pairs_error(
            labels,
            NativeField::QueryLabelKey,
            NativeField::QueryLabelValue,
        ) is None,
    decreases labels.len(),
{
    if labels.len() > 0 {
        let front = labels.drop_last();
        lemma_query_labels_fit(front);
        assert forall|i: int| 0 <= i < labels.len() implies (#[trigger] labels[i]).0.len() > 0
            && fits_text16(labels[i].0) && fits_text16(labels[i].1) by {
            if i < front.len() {
                assert(front[i] == labels[i]);
            }
        }
    }
}

proof fn lemma_query_terms_fit(terms: Seq<Seq<char>>)
    requires
        query_terms_error(terms) is None,
    ensures
        forall|i: int|
            0 <= i < terms.len() ==> (#[trigger] terms[i]).len() > 0 && fits_text16(terms[i]),
    decreases terms.len(),
{
    if terms.len() > 0 {
        let front = terms.drop_last();
        lemma_query_terms_fit(front);
        assert forall|i: int| 0 <= i < terms.len() implies (#[trigger] terms[i]).len() > 0
            && fits_text16(terms[i]) by {
            if i < front.len() {
                assert(front[i] == terms[i]);
            }
        }
    }
}

/// Encodes an indexed native query.
pub fn encode_native_query(query: &NativeQuery) -> (result: Result<Vec<u8>, NativeProtocolError>)
    ensures
        match result {
            Ok(encoded) => query_error(query@) is None && encoded@ == wire_query(query@),
            Err(error) => query_error(query@) == Some(error),
        },
{
    match validate_query(query) {
        Ok(_) => {},
        Err(error) => return Err(error),
    }
    let tenant = query.tenant.as_str().as_bytes();
    let mut encoded: Vec<u8> = Vec::new();
    encoded.push(0x53);
    encoded.push(0x4c);
    encoded.push(0x51);
    encoded.push(0x31);
    put_le(&mut encoded, tenant.len() as u128, 2);
    put_le(&mut encoded, query.labels.len() as u128, 2);
    put_le(&mut encoded, query.terms.len() as u128, 2);
    encoded.push(
        match query.direction {
            NativeQueryDirection::OldestFirst => 0,
            NativeQueryDirection::NewestFirst => 1,
        },
    );
    encoded.push(0);
    put_le(&mut encoded, query.limit as u128, 4);
    let start: u64 = match query.start_timestamp_unix_nanos {
        Some(start) => start,
        None => u64::MAX,
    };
    let end: u64 = match query.end_timestamp_unix_nanos {
        Some(end) => end,
        None => u64::MAX,
    };
    put_le(&mut encoded, start as u128, 8);
    put_le(&mut encoded, end as u128, 8);
    proof {
        assert(encoded@ =~= wire_query_header(query@));
    }
    put_bytes(&mut encoded, tenant);
    let ghost head = encoded@;
    proof {
        lemma_query_labels_fit(query.labels@);
        lemma_query_terms_fit(query@.terms);
    }
    match put_map(
        &mut encoded,
        &query.labels,
        NativeField::QueryLabelKey,
        NativeField::QueryLabelValue,
    ) {
        Ok(_) => {},
        Err(error) => return Err(error),
    }
    let ghost base = encoded@;
    let ghost all = query@.terms;
    let mut index: usize = 0;
    proof {
        assert(all.subrange(0, 0) =~= Seq::<Seq<char>>::empty());
        assert(base + wire_terms(all.subrange(0, 0)) =~= base);
    }
    while index < query.terms.len()
        invariant
            index <= query.terms@.len(),
            all == query@.terms,
            forall|i: int|
                0 <= i < all.len() ==> (#[trigger] all[i]).len() > 0 && fits_text16(all[i]),
            encoded@ == base + wire_terms(all.subrange(0, index as int)),
        decreases query.terms@.len() - index,
    {
        proof {
            let part = all.subrange(0, index + 1);
            assert(part.drop_last() =~= all.subrange(0, index as int));
            assert(part.last() == query.terms@[index as int]@);
            assert(fits_text16(all[index as int]));
        }
        match put_string16(&mut encoded, &query.terms[index], NativeField::QueryTerm) {
            Ok(_) => {},
            Err(error) => return Err(error),
        }
        proof {
            assert(encoded@ =~= base + wire_terms(all.subrange(0, index + 1)));
        }
        index = index + 1;
    }
    proof {
        assert(all.subrange(0, index as int) =~= all);
        assert(encoded@ =~= wire_query(query@));
    }
    Ok(encoded)
}

proof fn lemma_parse_terms_error(bytes: Seq<u8>, at: int, few: nat, count: nat)
    requires
        few <= count,
        parse_terms(bytes, at, few) is Err,
    ensures
        parse_terms(bytes, at, count) == parse_terms(bytes, at, few),
    decreases count,
{
    if few < count {
        lemma_parse_terms_error(bytes, at, few, (count - 1) as nat);
    }
}

/// Reads the terms of a query.
fn read_terms(cursor: &mut Cursor<'_>, count: usize) -> (result: Result<
    Vec<String>,
    NativeProtocolError,
>)
    requires
        old(cursor).valid(),
    ensures
        final(cursor).bytes == old(cursor).bytes,
        final(cursor).valid(),
        match result {
            Ok(terms) => parse_terms(old(cursor).bytes@, old(cursor).offset as int, count as nat)
                == Ok::<_, NativeProtocolError>(
                (strings_view(terms@), final(cursor).offset as int),
            ),
            Err(error) => parse_terms(old(cursor).bytes@, old(cursor).offset as int, count as nat)
                == Err::<(Seq<Seq<char>>, int), _>(error),
        },
{
    let ghost bytes = cursor.bytes@;
    let ghost at = cursor.offset as int;
    let mut terms: Vec<String> = Vec::new();
    let mut index: usize = 0;
    proof {
        assert(strings_view(terms@) =~= Seq::<Seq<char>>::empty());
    }
    while index < count
        invariant
            index <= count,
            cursor.bytes == old(cursor).bytes,
            cursor.valid(),
            bytes == old(cursor).bytes@,
            at == old(cursor).offset,
            parse_terms(bytes, at, index as nat) == Ok::<_, NativeProtocolError>(
                (strings_view(terms@), cursor.offset as int),
            ),
        decreases count - index,
    {
        proof {
            if parse_terms(bytes, at, (index + 1) as nat) is Err {
                lemma_parse_terms_error(bytes, at, (index + 1) as nat, count as nat);
            }
        }
        let term = match cursor.string16(NativeField::QueryTerm) {
            Ok(term) => term,
            Err(error) => return Err(error),
        };
        if term.is_empty() {
            return Err(NativeProtocolError::EmptyQueryTerm);
        }
        let owned = term.to_owned();
        proof {
            assert(strings_view(terms@.push(owned)) =~= strings_view(terms@).push(term@));
        }
        terms.push(owned);
        index = index + 1;
    }
    Ok(terms)
}

/// Decodes and validates an indexed native query.
pub fn decode_native_query(payload: &[u8]) -> (result: Result<NativeQuery, NativeProtocolError>)
    ensures
        match result {
            Ok(query) => parse_query(payload@) == Ok::<_, NativeProtocolError>(query@),
            Err(error) => parse_query(payload@) == Err::<QueryModel, _>(error),
        },
{
    let magic: [u8; 4] = [0x53, 0x4c, 0x51, 0x31];
    proof {
        assert(magic@ =~= query_magic());
    }
    if payload.len() < QUERY_HEADER_BYTES || !bytes_at(payload, 0, &magic) {
        return Err(NativeProtocolError::InvalidQueryHeader);
    }
    let tenant_len: usize = read_u16(payload, 4) as usize;
    let label_count: usize = read_u16(payload, 6) as usize;
    let term_count: usize = read_u16(payload, 8) as usize;
    let direction = if payload[10] == 0 {
        NativeQueryDirection::OldestFirst
    } else if payload[10] == 1 {
        NativeQueryDirection::NewestFirst
    } else {
        return Err(NativeProtocolError::UnsupportedDirection(payload[10]));
    };
    if payload[11] != 0 {
        return Err(NativeProtocolError::QueryReserved);
    }
    let limit: u32 = read_u32(payload, 12);
    let start: u64 = read_u64(payload, 16);
    let end: u64 = read_u64(payload, 24);
    let mut cursor = Cursor::at(payload, QUERY_HEADER_BYTES);
    let tenant = match cursor.string(tenant_len, NativeField::QueryTenant) {
        Ok(tenant) => tenant,
        Err(error) => return Err(error),
    };
    let pairs = match cursor.pairs(
        label_count,
        NativeField::QueryLabelKey,
        NativeField::QueryLabelValue,
        NativeProtocolError::BadQueryLabel,
    ) {
        Ok(pairs) => pairs,
        Err(error) => return Err(error),
    };
    let terms = match read_terms(&mut cursor, term_count) {
        Ok(terms) => terms,
        Err(error) => return Err(error),
    };
    match cursor.finish() {
        Ok(_) => {},
        Err(error) => return Err(error),
    }
    let query = NativeQuery {
        tenant: tenant.to_owned(),
        labels: collect_borrowed(&pairs),
        terms,
        start_timestamp_unix_nanos: if start == u64::MAX {
            None
        } else {
            Some(start)
        },
        end_timestamp_unix_nanos: if end == u64::MAX {
            None
        } else {
            Some(end)
        },
        limit,
        direction,
    };
    match validate_query(&query) {
        Ok(_) => Ok(query),
        Err(error) => Err(error),
    }
}

proof fn lemma_parse_terms(bytes: Seq<u8>, at: int, terms: Seq<Seq<char>>)
    requires
        forall|i: int|
            0 <= i < terms.len() ==> (#[trigger] terms[i]).len() > 0 && fits_text16(terms[i]),
        holds_at(bytes, at, wire_terms(terms)),
    ensures
        parse_terms(bytes, at, terms.len()) == Ok::<_, NativeProtocolError>(
            (terms, at + wire_terms(terms).len()),
        ),
    decreases terms.len(),
{
    if terms.len() > 0 {
        let front = terms.drop_last();
        assert forall|i: int| 0 <= i < front.len() implies (#[trigger] front[i]).len() > 0
            && fits_text16(front[i]) by {
            assert(front[i] == terms[i]);
        }
        lemma_holds_split(bytes, at, wire_terms(front), wire_text16(terms.last()));
        lemma_parse_terms(bytes, at, front);
        assert(fits_text16(terms[terms.len() - 1]));
        lemma_parse_text16(
            bytes,
            at + wire_terms(front).len(),
            terms.last(),
            NativeField::QueryTerm,
        );
        assert(front.push(terms.last()) =~= terms);
    } else {
        assert(terms =~= Seq::empty());
    }
}

/// A query that may be sent reads back as it was, unless it uses the largest
/// timestamp as a bound: that number stands for no bound.
#[verifier::spinoff_prover]
#[verifier::rlimit(60)]
pub proof fn query_round_trip(query: QueryModel)
    requires
        query_error(query) is None,
        ascending(query.labels),
        query.start != Some(u64::MAX),
        query.end != Some(u64::MAX),
    ensures
        parse_query(wire_query(query)) == Ok::<_, NativeProtocolError>(query),
{
    let bytes = wire_query(query);
    let tenant = encode_utf8(query.tenant);
    let head = wire_query_header(query);
    let labels = wire_pairs(query.labels);
    let terms = wire_terms(query.terms);
    lemma_pow256_values();
    lemma_le_bytes_len(tenant.len(), 2);
    lemma_le_bytes_len(query.labels.len(), 2);
    lemma_le_bytes_len(query.terms.len(), 2);
    lemma_le_bytes_len(query.limit as nat, 4);
    lemma_le_bytes_len(wire_bound(query.start), 8);
    lemma_le_bytes_len(wire_bound(query.end), 8);
    lemma_le_round_trip(tenant.len(), 2);
    lemma_le_round_trip(query.labels.len(), 2);
    lemma_le_round_trip(query.terms.len(), 2);
    lemma_le_round_trip(query.limit as nat, 4);
    lemma_le_round_trip(wire_bound(query.start), 8);
    lemma_le_round_trip(wire_bound(query.end), 8);
    assert(bytes.subrange(0, 4) =~= query_magic());
    assert(bytes.subrange(4, 6) =~= le_bytes(tenant.len(), 2));
    assert(bytes.subrange(6, 8) =~= le_bytes(query.labels.len(), 2));
    assert(bytes.subrange(8, 10) =~= le_bytes(query.terms.len(), 2));
    assert(bytes.subrange(12, 16) =~= le_bytes(query.limit as nat, 4));
    assert(bytes.subrange(16, 24) =~= le_bytes(wire_bound(query.start), 8));
    assert(bytes.subrange(24, 32) =~= le_bytes(wire_bound(query.end), 8));
    assert(bytes[10] == direction_byte(query.direction));
    assert(bytes[11] == 0);
    assert(head.len() == 32);
    assert(bytes.subrange(0, bytes.len() as int) =~= bytes);
    assert(holds_at(bytes, 0, head + tenant + labels + terms));
    lemma_holds_split(bytes, 0, head + tenant + labels, terms);
    lemma_holds_split(bytes, 0, head + tenant, labels);
    lemma_holds_split(bytes, 0, head, tenant);
    lemma_parse_text(bytes, 32, query.tenant, NativeField::QueryTenant);
    lemma_query_labels_fit(query.labels);
    lemma_query_terms_fit(query.terms);
    assert(wire_ready(query.labels)) by {
        assert forall|i: int, j: int| 0 <= i < j < query.labels.len() implies (
        #[trigger] query.labels[i]).0 != (#[trigger] query.labels[j]).0 by {
            if query.labels[i].0 == query.labels[j].0 {
                lemma_ascending_unique(query.labels, i, j);
            }
        }
    }
    lemma_parse_pairs(
        bytes,
        32int + tenant.len(),
        query.labels,
        NativeField::QueryLabelKey,
        NativeField::QueryLabelValue,
        NativeProtocolError::BadQueryLabel,
    );
    lemma_parse_terms(bytes, 32int + tenant.len() + labels.len(), query.terms);
    lemma_collect_ascending(query.labels);
}

} // verus!
