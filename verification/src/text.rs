//! Text as sequences of characters.
use vstd::prelude::*;

use crate::codec::push_char;
use crate::native_query::strings_view;

verus! {

broadcast use {vstd::seq_lib::group_seq_properties, vstd::string::axiom_spec_iter};

/// The characters of a text.
pub fn chars_of(text: &str) -> (characters: Vec<char>)
    ensures
        characters@ == text@,
{
    let mut characters: Vec<char> = Vec::new();
    for character in iter: text.chars()
        invariant
            characters@ == iter.seq().subrange(0, iter.index() as int),
            iter.seq() == text@,
    {
        proof {
            assert(iter.seq().subrange(0, iter.index() + 1) =~= iter.seq().subrange(
                0,
                iter.index() as int,
            ).push(character));
        }
        characters.push(character);
    }
    proof {
        assert(characters@ =~= text@);
    }
    characters
}

/// The characters `[start, end)` as a text.
pub fn text_between(characters: &Vec<char>, start: usize, end: usize) -> (text: String)
    requires
        start <= end <= characters@.len(),
    ensures
        text@ == characters@.subrange(start as int, end as int),
{
    let mut text = String::new();
    let mut index: usize = start;
    proof {
        assert(characters@.subrange(start as int, start as int) =~= Seq::<char>::empty());
    }
    while index < end
        invariant
            start <= index <= end <= characters@.len(),
            text@ == characters@.subrange(start as int, index as int),
        decreases end - index,
    {
        proof {
            assert(characters@.subrange(start as int, index + 1) =~= characters@.subrange(
                start as int,
                index as int,
            ).push(characters@[index as int]));
        }
        push_char(&mut text, characters[index]);
        index = index + 1;
    }
    text
}

/// Characters as a text.
pub fn text_of(characters: &Vec<char>) -> (text: String)
    ensures
        text@ == characters@,
{
    let text = text_between(characters, 0, characters.len());
    proof {
        assert(characters@.subrange(0, characters@.len() as int) =~= characters@);
    }
    text
}

/// Whether a character is an uppercase letter.
pub uninterp spec fn uppercase_letter(character: char) -> bool;

/// A text in lowercase.
pub uninterp spec fn lowercase_text(text: Seq<char>) -> Seq<char>;

/// Whether a character is an uppercase letter.
///
/// Calls `char::is_uppercase`, which depends on the character alone.
#[verifier::external_body]
pub(crate) fn is_uppercase_letter(character: char) -> (uppercase: bool)
    ensures
        uppercase == uppercase_letter(character),
{
    character.is_uppercase()
}

/// A text in lowercase.
///
/// Calls `str::to_lowercase`, which depends on the text alone.
#[verifier::external_body]
pub(crate) fn to_lowercase_text(text: &str) -> (lowered: String)
    ensures
        lowered@ == lowercase_text(text@),
{
    text.to_lowercase()
}

/// Search form of a term: lowercase, where it holds an uppercase letter.
pub open spec fn normal_term(term: Seq<char>) -> Seq<char> {
    if exists|i: int| 0 <= i < term.len() && uppercase_letter(#[trigger] term[i]) {
        lowercase_text(term)
    } else {
        term
    }
}

/// Search form of a term.
pub fn normalize_term(term: &str) -> (normalized: String)
    ensures
        normalized@ == normal_term(term@),
{
    let characters = chars_of(term);
    let mut index: usize = 0;
    while index < characters.len()
        invariant
            index <= characters@.len(),
            characters@ == term@,
            forall|i: int| 0 <= i < index ==> !uppercase_letter(#[trigger] characters@[i]),
        decreases characters@.len() - index,
    {
        if is_uppercase_letter(characters[index]) {
            proof {
                assert(uppercase_letter(term@[index as int]));
            }
            return to_lowercase_text(term);
        }
        index = index + 1;
    }
    proof {
        assert forall|i: int| 0 <= i < term@.len() implies !uppercase_letter(
            #[trigger] term@[i],
        ) by {
            assert(characters@[i] == term@[i]);
        }
    }
    term.to_owned()
}

/// Search forms of terms.
pub open spec fn normal_terms(terms: Seq<Seq<char>>) -> Seq<Seq<char>> {
    terms.map_values(|term: Seq<char>| normal_term(term))
}

/// Puts terms into search form.
pub fn normalize_terms(terms: &Vec<String>) -> (normalized: Vec<String>)
    ensures
        strings_view(normalized@) == normal_terms(strings_view(terms@)),
{
    let mut normalized: Vec<String> = Vec::new();
    let mut index: usize = 0;
    while index < terms.len()
        invariant
            index <= terms@.len(),
            normalized@.len() == index,
            forall|i: int|
                0 <= i < index ==> (#[trigger] normalized@[i])@ == normal_term(terms@[i]@),
        decreases terms@.len() - index,
    {
        normalized.push(normalize_term(&terms[index]));
        index = index + 1;
    }
    proof {
        assert(strings_view(normalized@) =~= normal_terms(strings_view(terms@)));
    }
    normalized
}

/// Whether a character has the Unicode property `White_Space`.
pub open spec fn white_space(character: char) -> bool {
    let code = character as u32;
    ||| 0x9 <= code <= 0xd
    ||| code == 0x20 || code == 0x85 || code == 0xa0 || code == 0x1680
    ||| 0x2000 <= code <= 0x200a
    ||| code == 0x2028 || code == 0x2029 || code == 0x202f || code == 0x205f || code == 0x3000
}

/// A text as the debug format shows it, in quotes.
pub uninterp spec fn debug_text(text: Seq<char>) -> Seq<char>;

/// Whether a character is white space.
pub fn is_white_space(character: char) -> (white: bool)
    ensures
        white == white_space(character),
{
    let code: u32 = character as u32;
    (0x9 <= code && code <= 0xd) || code == 0x20 || code == 0x85 || code == 0xa0 || code == 0x1680
        || (0x2000 <= code && code <= 0x200a) || code == 0x2028 || code == 0x2029 || code == 0x202f
        || code == 0x205f || code == 0x3000
}

/// A text as the debug format shows it, in quotes.
///
/// Calls `format!` with the debug format of `str`, which depends on the text alone.
#[verifier::external_body]
pub(crate) fn debug_string(text: &str) -> (shown: String)
    ensures
        shown@ == debug_text(text@),
{
    format!("{text:?}")
}

/// First place from `at` on that is not white space, or the end.
pub open spec fn skip_space(text: Seq<char>, at: int) -> int
    decreases text.len() - at,
{
    if at >= text.len() {
        text.len() as int
    } else if white_space(text[at]) {
        skip_space(text, at + 1)
    } else {
        at
    }
}

/// The end of a text without the white space before `end`.
pub open spec fn trim_end(text: Seq<char>, end: int) -> int
    decreases end,
{
    if end <= 0 {
        0
    } else if white_space(text[end - 1]) {
        trim_end(text, end - 1)
    } else {
        end
    }
}

/// A text without white space around it.
pub open spec fn trimmed(text: Seq<char>) -> Seq<char> {
    let start = skip_space(text, 0);
    let end = trim_end(text, text.len() as int);
    if start < end {
        text.subrange(start, end)
    } else {
        Seq::empty()
    }
}

pub proof fn lemma_skip_space(text: Seq<char>, at: int)
    requires
        0 <= at <= text.len(),
    ensures
        at <= skip_space(text, at) <= text.len(),
        forall|i: int| at <= i < skip_space(text, at) ==> white_space(#[trigger] text[i]),
        skip_space(text, at) < text.len() ==> !white_space(text[skip_space(text, at)]),
    decreases text.len() - at,
{
    if at < text.len() && white_space(text[at]) {
        lemma_skip_space(text, at + 1);
    }
}

/// First place from `at` on that is not white space, or the end.
pub fn skip_spaces(text: &Vec<char>, at: usize) -> (next: usize)
    requires
        at <= text@.len(),
    ensures
        next == skip_space(text@, at as int),
        at <= next <= text@.len(),
{
    let mut next: usize = at;
    while next < text.len() && is_white_space(text[next])
        invariant
            at <= next <= text@.len(),
            skip_space(text@, at as int) == skip_space(text@, next as int),
        decreases text@.len() - next,
    {
        next = next + 1;
    }
    next
}

/// A text without white space around it.
pub fn trim(text: &Vec<char>) -> (result: Vec<char>)
    ensures
        result@ == trimmed(text@),
{
    let start: usize = skip_spaces(text, 0);
    let mut end: usize = text.len();
    while end > 0 && is_white_space(text[end - 1])
        invariant
            end <= text@.len(),
            trim_end(text@, text@.len() as int) == trim_end(text@, end as int),
        decreases end,
    {
        end = end - 1;
    }
    if start >= end {
        let none: Vec<char> = Vec::new();
        proof {
            assert(none@ =~= trimmed(text@));
        }
        return none;
    }
    chars_between(text, start, end)
}

/// The characters `[start, end)`.
pub fn chars_between(text: &Vec<char>, start: usize, end: usize) -> (part: Vec<char>)
    requires
        start <= end <= text@.len(),
    ensures
        part@ == text@.subrange(start as int, end as int),
{
    let mut part: Vec<char> = Vec::new();
    let mut index: usize = start;
    proof {
        assert(text@.subrange(start as int, start as int) =~= Seq::<char>::empty());
    }
    while index < end
        invariant
            start <= index <= end <= text@.len(),
            part@ == text@.subrange(start as int, index as int),
        decreases end - index,
    {
        proof {
            assert(text@.subrange(start as int, index + 1) =~= text@.subrange(
                start as int,
                index as int,
            ).push(text@[index as int]));
        }
        part.push(text[index]);
        index = index + 1;
    }
    part
}

/// Whether a text holds a part at a place.
pub open spec fn part_at(text: Seq<char>, at: int, part: Seq<char>) -> bool {
    0 <= at && at + part.len() <= text.len() && text.subrange(at, at + part.len()) == part
}

/// Whether a text holds a part somewhere.
pub open spec fn contains_text(text: Seq<char>, part: Seq<char>) -> bool {
    exists|at: int| #[trigger] part_at(text, at, part)
}

/// Whether a text holds a part at a place.
pub fn holds_part(text: &Vec<char>, at: usize, part: &Vec<char>) -> (holds: bool)
    requires
        at <= text@.len(),
    ensures
        holds == part_at(text@, at as int, part@),
{
    let total: usize = text.len();
    if total - at < part.len() {
        return false;
    }
    let mut index: usize = 0;
    while index < part.len()
        invariant
            index <= part@.len(),
            total == text@.len(),
            at + part@.len() <= total,
            forall|i: int| 0 <= i < index ==> text@[at + i] == part@[i],
        decreases part@.len() - index,
    {
        if text[at + index] != part[index] {
            proof {
                assert(text@.subrange(at as int, at + part@.len())[index as int]
                    != part@[index as int]);
            }
            return false;
        }
        index = index + 1;
    }
    proof {
        assert(text@.subrange(at as int, at + part@.len()) =~= part@);
    }
    true
}

/// Whether a text holds a part somewhere.
pub fn text_contains(text: &Vec<char>, part: &Vec<char>) -> (holds: bool)
    ensures
        holds == contains_text(text@, part@),
{
    let mut at: usize = 0;
    while at < text.len()
        invariant
            at <= text@.len(),
            forall|i: int| 0 <= i < at ==> !#[trigger] part_at(text@, i, part@),
        decreases text@.len() - at,
    {
        if holds_part(text, at, part) {
            return true;
        }
        at = at + 1;
    }
    let last = holds_part(text, at, part);
    proof {
        if !last {
            assert forall|i: int| !#[trigger] part_at(text@, i, part@) by {}
        }
    }
    last
}

/// ASCII letter.
pub open spec fn ascii_letter(character: char) -> bool {
    'a' <= character <= 'z' || 'A' <= character <= 'Z'
}

/// ASCII digit.
pub open spec fn ascii_digit(character: char) -> bool {
    '0' <= character <= '9'
}

/// Whether a character is an ASCII letter.
pub fn is_ascii_letter(character: char) -> (letter: bool)
    ensures
        letter == ascii_letter(character),
{
    ('a' <= character && character <= 'z') || ('A' <= character && character <= 'Z')
}

/// Whether a character is an ASCII digit.
pub fn is_ascii_digit(character: char) -> (digit: bool)
    ensures
        digit == ascii_digit(character),
{
    '0' <= character && character <= '9'
}

/// An uppercase ASCII letter in lowercase; other characters stay.
pub open spec fn ascii_lower(character: char) -> char {
    if 'A' <= character <= 'Z' {
        (character as u8 + 32) as char
    } else {
        character
    }
}

/// A text with its ASCII letters in lowercase.
pub open spec fn ascii_lowered(text: Seq<char>) -> Seq<char> {
    text.map_values(|character: char| ascii_lower(character))
}

/// An uppercase ASCII letter in lowercase; other characters stay.
pub fn to_ascii_lower(character: char) -> (lower: char)
    ensures
        lower == ascii_lower(character),
{
    if 'A' <= character && character <= 'Z' {
        (character as u8 + 32) as char
    } else {
        character
    }
}

/// A text with its ASCII letters in lowercase.
pub fn lower_ascii(text: &Vec<char>) -> (lower: Vec<char>)
    ensures
        lower@ == ascii_lowered(text@),
{
    let mut lower: Vec<char> = Vec::new();
    let mut index: usize = 0;
    while index < text.len()
        invariant
            index <= text@.len(),
            lower@.len() == index,
            forall|i: int| 0 <= i < index ==> lower@[i] == ascii_lowered(text@)[i],
        decreases text@.len() - index,
    {
        lower.push(to_ascii_lower(text[index]));
        index = index + 1;
    }
    proof {
        assert(lower@ =~= ascii_lowered(text@));
    }
    lower
}

} // verus!
