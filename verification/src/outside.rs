//! The functions of outside crates and of std that the library calls, each
//! with the contract that its callers rely on and that nothing here proves.
use vstd::prelude::*;

use bytes::BytesMut;
use std::collections::HashMap;

verus! {

/// `bytes::BytesMut`, a growable buffer of bytes.
#[verifier::external_type_specification]
#[verifier::external_body]
pub struct ExBytesMut(BytesMut);

/// The bytes that a buffer holds, in order.
pub uninterp spec fn buffer_bytes(buffer: BytesMut) -> Seq<u8>;

/// `BytesMut::len`: the number of bytes held.
pub assume_specification[ BytesMut::len ](buffer: &BytesMut) -> (len: usize)
    ensures
        len == buffer_bytes(*buffer).len(),
;

/// `BytesMut::split_to`: takes the first `at` bytes out of the buffer. It panics
/// when fewer are held.
pub assume_specification[ BytesMut::split_to ](buffer: &mut BytesMut, at: usize) -> (front: BytesMut)
    requires
        at <= buffer_bytes(*old(buffer)).len(),
    ensures
        buffer_bytes(front) == buffer_bytes(*old(buffer)).take(at as int),
        buffer_bytes(*final(buffer)) == buffer_bytes(*old(buffer)).skip(at as int),
;

/// `BytesMut` as a slice (`AsRef<[u8]>`): all of the bytes held.
#[verifier::external_body]
pub(crate) fn buffer_slice(buffer: &BytesMut) -> (slice: &[u8])
    ensures
        slice@ == buffer_bytes(*buffer),
{
    buffer.as_ref()
}

/// `BytesMut::from(&[u8])`: a buffer that holds a copy of the slice.
#[verifier::external_body]
pub(crate) fn buffer_from(slice: &[u8]) -> (buffer: BytesMut)
    ensures
        buffer_bytes(buffer) == slice@,
{
    BytesMut::from(slice)
}

/// `BytesMut::clone`: a buffer that holds the same bytes.
pub assume_specification[ <BytesMut as Clone>::clone ](buffer: &BytesMut) -> (copy: BytesMut)
    ensures
        buffer_bytes(copy) == buffer_bytes(*buffer),
;

/// `BytesMut::capacity`: at least the number of bytes held. How much more the
/// buffer has room for is up to the allocator.
pub assume_specification[ BytesMut::capacity ](buffer: &BytesMut) -> (capacity: usize)
    ensures
        capacity >= buffer_bytes(*buffer).len(),
;

/// `Vec::capacity`: at least the number of elements. How much more the vector
/// has room for is up to the allocator.
#[verifier::external_body]
pub(crate) fn list_capacity(list: &Vec<u128>) -> (capacity: usize)
    ensures
        capacity >= list@.len(),
{
    list.capacity()
}

/// `HashMap::capacity`: at least the number of entries. How much more the map
/// has room for is up to its implementation.
#[verifier::external_body]
pub(crate) fn map_capacity<V>(map: &HashMap<u128, V>) -> (capacity: usize)
    ensures
        capacity >= map@.dom().len(),
{
    map.capacity()
}

/// `SystemTime::elapsed` since the epoch: the milliseconds that the clock shows,
/// `None` where it stands before the epoch. Nothing is known of the clock.
#[verifier::external_body]
pub(crate) fn clock_millis() -> (now: Option<u64>) {
    std::time::UNIX_EPOCH.elapsed().ok().map(|passed| passed.as_millis() as u64)
}

/// `std::string::FromUtf8Error`, the error of `String::from_utf8`.
#[verifier::external_type_specification]
#[verifier::external_body]
pub struct ExFromUtf8Error(std::string::FromUtf8Error);

/// `String::from_utf8`: the text that the bytes encode, or an error where they
/// are not UTF-8.
pub assume_specification[ String::from_utf8 ](bytes: Vec<u8>) -> (result: Result<
    String,
    std::string::FromUtf8Error,
>)
    ensures
        match result {
            Ok(text) => vstd::utf8::valid_utf8(bytes@) && text@ == vstd::utf8::decode_utf8(bytes@),
            Err(_) => !vstd::utf8::valid_utf8(bytes@),
        },
;

/// `text` without the `c` that it ends in, however often.
pub open spec fn without_trailing(text: Seq<char>, c: char) -> Seq<char>
    decreases text.len(),
{
    if text.len() > 0 && text.last() == c {
        without_trailing(text.drop_last(), c)
    } else {
        text
    }
}

/// `str::trim_end_matches` with a character: the text without that character at
/// its end, however often it stands there.
#[verifier::external_body]
pub(crate) fn trim_end<'a>(text: &'a str, c: char) -> (trimmed: &'a str)
    ensures
        trimmed@ == without_trailing(text@, c),
{
    text.trim_end_matches(c)
}

/// Whether a number is a random UUID: version 4, variant 1.
pub open spec fn is_random_uuid(id: u128) -> bool {
    id & 0x0000_0000_0000_F000_C000_0000_0000_0000 == 0x0000_0000_0000_4000_8000_0000_0000_0000
}

/// `uuid::Uuid::new_v4`: a random UUID, as a number. Nothing is known of it but
/// its version and variant.
#[verifier::external_body]
pub(crate) fn random_uuid() -> (id: u128)
    ensures
        is_random_uuid(id),
{
    uuid::Uuid::new_v4().as_u128()
}

/// The text of a capture group that took part in a match.
pub open spec fn group_text(group: Option<String>) -> Option<Seq<char>> {
    match group {
        Some(text) => Some(text@),
        None => None,
    }
}

/// The groups of each match, as plain text.
pub open spec fn match_texts(found: Seq<Vec<Option<String>>>) -> Seq<Seq<Option<Seq<char>>>> {
    found.map_values(
        |groups: Vec<Option<String>>| groups@.map_values(|group: Option<String>| group_text(group)),
    )
}

/// What `regex::Regex::captures_iter` finds in `text`: the groups of each match,
/// from group 0 on; `None` where `pattern` is no regular expression.
pub uninterp spec fn regex_matches(pattern: Seq<char>, text: Seq<char>) -> Option<
    Seq<Seq<Option<Seq<char>>>>,
>;

/// `regex::Regex::new` with `pattern`, and `Regex::captures_iter` on `text`: the
/// groups of each match in order, each with its text if it took part in the match;
/// `None` where the pattern is refused. What a pattern matches is left unsaid.
#[verifier::external_body]
pub(crate) fn find_matches(pattern: &str, text: &str) -> (found: Option<Vec<Vec<Option<String>>>>)
    ensures
        regex_matches(pattern@, text@) == match found {
            Some(list) => Some(match_texts(list@)),
            None => None,
        },
{
    let regex = regex::Regex::new(pattern).ok()?;
    let groups = |captures: regex::Captures| {
        captures.iter().map(|group| group.map(|part| part.as_str().to_string())).collect()
    };
    Some(regex.captures_iter(text).map(groups).collect())
}

/// The number that a text spells in decimal digits, with or without a plus in front.
pub open spec fn decimal(text: Seq<char>) -> Option<nat> {
    let digits = if text.len() > 0 && text[0] == '+' {
        text.skip(1)
    } else {
        text
    };
    if digits.len() > 0 && all_digits(digits) {
        Some(decimal_value(digits))
    } else {
        None
    }
}

/// Whether a text is made of decimal digits.
pub open spec fn all_digits(text: Seq<char>) -> bool {
    forall|i: int| 0 <= i < text.len() ==> '0' <= #[trigger] text[i] <= '9'
}

/// The number that decimal digits spell.
pub open spec fn decimal_value(digits: Seq<char>) -> nat
    decreases digits.len(),
{
    if digits.len() == 0 {
        0
    } else {
        decimal_value(digits.drop_last()) * 10 + (digits.last() as nat - '0' as nat) as nat
    }
}

/// `str::parse` to a `u64`: the number that the text spells, where it spells one and
/// that fits.
#[verifier::external_body]
pub(crate) fn parse_u64(text: &str) -> (number: Option<u64>)
    ensures
        match decimal(text@) {
            Some(value) => if value <= u64::MAX {
                number == Some(value as u64)
            } else {
                number is None
            },
            None => number is None,
        },
{
    text.parse::<u64>().ok()
}

/// The parts of `text` between the places where `c` stands.
pub open spec fn parts_between(text: Seq<char>, c: char) -> Seq<Seq<char>>
    decreases text.len(),
{
    match text.index_of_first(c) {
        Some(i) => if 0 <= i < text.len() {
            seq![text.take(i)] + parts_between(text.skip(i + 1), c)
        } else {
            seq![text]
        },
        None => seq![text],
    }
}

/// The texts of strings.
pub open spec fn texts(strings: Seq<String>) -> Seq<Seq<char>> {
    strings.map_values(|string: String| string@)
}

/// `str::split` with a character: the parts between its occurrences, empty ones too.
#[verifier::external_body]
pub(crate) fn split(text: &str, c: char) -> (parts: Vec<String>)
    ensures
        texts(parts@) == parts_between(text@, c),
{
    text.split(c).map(|part| part.to_string()).collect()
}

/// `str::split_once` with a character: what stands before its first occurrence and
/// what stands behind it; `None` where it does not occur.
#[verifier::external_body]
pub(crate) fn split_once(text: &str, c: char) -> (parts: Option<(String, String)>)
    ensures
        match text@.index_of_first(c) {
            Some(i) => {
                &&& parts matches Some((before, behind))
                &&& before@ == text@.take(i)
                &&& behind@ == text@.skip(i + 1)
            },
            None => parts is None,
        },
{
    text.split_once(c).map(|(before, behind)| (before.to_string(), behind.to_string()))
}

} // verus!
