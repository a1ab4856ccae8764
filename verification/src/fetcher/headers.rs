//! HTTP headers, as `reqwest` holds them.
//!
//! The functions of `reqwest::header` that the library calls, and what is relied upon of
//! each.
use crate::text::decimal;
use reqwest::header::{HeaderMap, HeaderValue, InvalidHeaderValue, ToStrError};
use reqwest::StatusCode;
use vstd::prelude::*;
use vstd::utf8::encode_utf8;

verus! {

/// `reqwest::header::HeaderMap`: a multimap from header names to values.
#[verifier::external_type_specification]
#[verifier::external_body]
#[verifier::reject_recursive_types(T)]
pub struct ExHeaderMap<T>(reqwest::header::HeaderMap<T>);

/// `reqwest::header::HeaderValue`: the bytes of one header value.
#[verifier::external_type_specification]
#[verifier::external_body]
pub struct ExHeaderValue(reqwest::header::HeaderValue);

/// `reqwest::header::InvalidHeaderValue`: a text cannot be a header value.
#[verifier::external_type_specification]
#[verifier::external_body]
pub struct ExInvalidHeaderValue(reqwest::header::InvalidHeaderValue);

/// `reqwest::header::ToStrError`: a header value is not a text.
#[verifier::external_type_specification]
#[verifier::external_body]
pub struct ExToStrError(reqwest::header::ToStrError);

/// The values that a header map holds under each name, the names in lower case, the values
/// of one name in the order in which they came. A name with no value is not in the map.
pub uninterp spec fn header_values(map: HeaderMap<HeaderValue>) -> Map<Seq<char>, Seq<Seq<u8>>>;

/// The bytes that a header value holds.
pub uninterp spec fn header_bytes(value: HeaderValue) -> Seq<u8>;

/// The reason that a status code prints behind its number.
pub uninterp spec fn status_reason(code: u16) -> Seq<char>;

/// Whether `name` can name a header: some lower-case letters and hyphens.
pub open spec fn is_header_name(name: Seq<char>) -> bool {
    &&& 0 < name.len() <= 64
    &&& forall|i: int| 0 <= i < name.len() ==> ('a' <= #[trigger] name[i] <= 'z' || name[i] == '-')
}

/// Whether a header value may hold the byte: no control character but the tab.
pub open spec fn is_value_byte(b: u8) -> bool {
    b >= 32 && b != 127 || b == 9
}

/// Whether the byte is a visible ASCII character, a space or a tab.
pub open spec fn is_visible_byte(b: u8) -> bool {
    32 <= b < 127 || b == 9
}

/// Whether `text` can be a header value.
pub open spec fn is_header_text(text: Seq<char>) -> bool {
    forall|i: int| 0 <= i < encode_utf8(text).len() ==> is_value_byte(#[trigger] encode_utf8(text)[i])
}

/// Whether all of `bytes` are visible.
pub open spec fn all_visible(bytes: Seq<u8>) -> bool {
    forall|i: int| 0 <= i < bytes.len() ==> is_visible_byte(#[trigger] bytes[i])
}

/// No header at all.
pub open spec fn no_headers() -> Map<Seq<char>, Seq<Seq<u8>>> {
    Map::empty()
}

/// `HeaderMap::new` gives a map without headers.
#[verifier::external_body]
pub(crate) fn header_map_new() -> (res: HeaderMap<HeaderValue>)
    ensures
        header_values(res) == no_headers(),
{
    HeaderMap::new()
}

/// `HeaderMap::insert` puts the value under the name in place of all values that were there.
/// It is called on small maps only: it panics where a map grows too large.
#[verifier::external_body]
pub(crate) fn header_map_insert(
    map: &mut HeaderMap<HeaderValue>,
    name: &'static str,
    value: HeaderValue,
)
    requires
        is_header_name(name@),
        header_values(*old(map)).dom().finite(),
        header_values(*old(map)).dom().len() < 1024,
    ensures
        header_values(*final(map)) == header_values(*old(map)).insert(
            name@,
            seq![header_bytes(value)],
        ),
{
    map.insert(name, value);
}

/// `HeaderMap::contains_key` says whether there is a value under the name.
#[verifier::external_body]
pub(crate) fn header_map_contains_key(map: &HeaderMap<HeaderValue>, name: &str) -> (res: bool)
    requires
        is_header_name(name@),
    ensures
        res == header_values(*map).contains_key(name@),
{
    map.contains_key(name)
}

/// `HeaderMap::get` gives the first value under the name, if there is one.
#[verifier::external_body]
pub(crate) fn header_map_get<'a>(map: &'a HeaderMap<HeaderValue>, name: &str) -> (res: Option<
    &'a HeaderValue,
>)
    requires
        is_header_name(name@),
    ensures
        res is Some <==> header_values(*map).contains_key(name@),
        res matches Some(value) ==> header_values(*map)[name@].len() > 0 && header_bytes(*value)
            == header_values(*map)[name@][0],
{
    map.get(name)
}

/// `HeaderValue::from_static` gives the value that holds the text. It panics on a text with
/// a character that is not visible ASCII.
#[verifier::external_body]
pub(crate) fn header_value_from_static(text: &'static str) -> (res: HeaderValue)
    requires
        all_visible(encode_utf8(text@)),
    ensures
        header_bytes(res) == encode_utf8(text@),
{
    HeaderValue::from_static(text)
}

/// `HeaderValue::from_str` gives the value that holds the text, and fails exactly if the
/// text has a control character other than the tab.
#[verifier::external_body]
pub(crate) fn header_value_from_str(text: &str) -> (res: Result<HeaderValue, InvalidHeaderValue>)
    ensures
        res is Ok <==> is_header_text(text@),
        res matches Ok(value) ==> header_bytes(value) == encode_utf8(text@),
{
    HeaderValue::from_str(text)
}

/// `HeaderValue::to_str` gives the text of a value, and fails exactly if the value has a
/// byte that is not visible ASCII.
#[verifier::external_body]
pub(crate) fn header_value_to_str(value: &HeaderValue) -> (res: Result<&str, ToStrError>)
    ensures
        res is Ok <==> all_visible(header_bytes(*value)),
        res matches Ok(text) ==> encode_utf8(text@) == header_bytes(*value),
{
    value.to_str()
}

/// `InvalidHeaderValue` prints one fixed sentence.
#[verifier::external_body]
pub(crate) fn invalid_header_value_text(e: &InvalidHeaderValue) -> (res: String)
    ensures
        res@ == "failed to parse header value"@,
{
    e.to_string()
}

/// `ToStrError` prints one fixed sentence.
#[verifier::external_body]
pub(crate) fn to_str_error_text(e: &ToStrError) -> (res: String)
    ensures
        res@ == "failed to convert header to a str"@,
{
    e.to_string()
}

/// `StatusCode` prints its number, a space and a reason, which depends on the number alone.
/// The numbers from 100 to 999 are those that `StatusCode::from_u16` accepts.
#[verifier::external_body]
pub(crate) fn status_code_text(code: u16) -> (res: String)
    requires
        100 <= code <= 999,
    ensures
        res@ == decimal(code as nat) + " "@ + status_reason(code),
{
    StatusCode::from_u16(code).unwrap().to_string()
}

} // verus!
