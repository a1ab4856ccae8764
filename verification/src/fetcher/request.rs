//! What is asked of a server, and what its answers mean for a download.
use crate::error::Error;
use crate::fetcher::headers::{
    all_visible, header_bytes, header_map_contains_key, header_map_get, header_map_insert,
    header_map_new, header_value_from_static, header_value_from_str, header_value_to_str,
    header_values, invalid_header_value_text, is_header_name, is_header_text, is_value_byte,
    is_visible_byte, no_headers, to_str_error_text,
};
use crate::text::{
    all_digits, decimal, grows_above, law_decimal_notation, law_decimal_round_trip,
    law_number_reading, lemma_decimal_is_digits, number_error_text, number_of, parse_u64,
    to_decimal, unsigned_part, value_of,
};
use reqwest::header::{HeaderMap, HeaderValue};
use vstd::prelude::*;
use vstd::string::StringExecFns;
use vstd::utf8::{encode_utf8, is_ascii_chars};

verus! {

/// The text that visible bytes spell.
pub open spec fn ascii_text(bytes: Seq<u8>) -> Seq<char> {
    Seq::new(bytes.len(), |i: int| bytes[i] as char)
}

/// Whether every character of `text` is visible ASCII, a space or a tab.
pub open spec fn is_visible_text(text: Seq<char>) -> bool {
    forall|i: int|
        0 <= i < text.len() ==> (32 <= #[trigger] text[i] as int && (text[i] as int) < 127)
            || text[i] as int == 9
}

/// Visible bytes spell what they encode.
proof fn lemma_ascii_text(text: Seq<char>, bytes: Seq<u8>)
    requires
        encode_utf8(text) == bytes,
        all_visible(bytes),
    ensures
        text == ascii_text(bytes),
{
    let spelled = ascii_text(bytes);
    assert forall|i: int| 0 <= i < spelled.len() implies (#[trigger] spelled[i] as int) < 128 by {
        assert(is_visible_byte(bytes[i]));
    }
    assert(is_ascii_chars(spelled));
    vstd::utf8::is_ascii_chars_encode_utf8(spelled);
    assert(encode_utf8(spelled) =~= bytes);
    vstd::utf8::encode_utf8_decode_utf8(spelled);
    vstd::utf8::encode_utf8_decode_utf8(text);
}

/// A visible text is encoded byte for byte, and can be a header value.
proof fn lemma_visible_text(text: Seq<char>)
    requires
        is_visible_text(text),
    ensures
        encode_utf8(text) == Seq::new(text.len(), |i: int| text[i] as u8),
        all_visible(encode_utf8(text)),
        is_header_text(text),
{
    assert(is_ascii_chars(text));
    vstd::utf8::is_ascii_chars_encode_utf8(text);
    let bytes = encode_utf8(text);
    assert(bytes =~= Seq::new(text.len(), |i: int| text[i] as u8));
    assert forall|i: int| 0 <= i < bytes.len() implies is_visible_byte(#[trigger] bytes[i])
        && is_value_byte(bytes[i]) by {
        assert(bytes[i] == text[i] as u8);
    }
}

/// The headers of a request for JSON: who asks, and with which token.
pub open spec fn json_header_values(token: Option<Seq<char>>) -> Map<Seq<char>, Seq<Seq<u8>>> {
    let asked = no_headers().insert("user-agent"@, seq![encode_utf8("rust-reqwest"@)]);
    match token {
        Some(t) => asked.insert("authorization"@, seq![encode_utf8("Bearer "@ + t)]),
        None => asked,
    }
}

/// The headers of a request for JSON. A token that cannot stand in a header is an error.
pub fn json_headers(auth_token: Option<String>) -> (res: Result<HeaderMap<HeaderValue>, Error>)
    ensures
        match auth_token {
            Some(token) => if is_header_text("Bearer "@ + token@) {
                res matches Ok(map) && header_values(map) == json_header_values(Some(token@))
            } else {
                res matches Err(Error::Unknown(text)) && text@ == "failed to parse header value"@
            },
            None => res matches Ok(map) && header_values(map) == json_header_values(None),
        },
{
    proof {
        reveal_strlit("user-agent");
        reveal_strlit("authorization");
        reveal_strlit("rust-reqwest");
        lemma_visible_text("rust-reqwest"@);
    }
    let mut headers = header_map_new();
    header_map_insert(&mut headers, "user-agent", header_value_from_static("rust-reqwest"));
    match auth_token {
        Some(token) => {
            let mut bearer = "Bearer ".to_string();
            bearer.append(token.as_str());
            match header_value_from_str(bearer.as_str()) {
                Ok(value) => {
                    header_map_insert(&mut headers, "authorization", value);
                    Ok(headers)
                },
                Err(e) => Err(Error::Unknown(invalid_header_value_text(&e))),
            }
        },
        None => Ok(headers),
    }
}

/// How an asset is to be fetched.
#[derive(Debug, Clone, Copy, PartialEq, Eq, Structural)]
pub enum FetchPlan {
    /// In one piece.
    Simple,
    /// Not at all: the file is already there.
    AlreadyDownloaded,
    /// In segments, into the existing file or into a new one.
    Segmented {
        /// The size of the asset in bytes.
        content_length: u64,
        /// Whether to write into the file that exists.
        reuse_file: bool,
    },
}

/// How to fetch an asset, given whether the server serves ranges, which size it states,
/// whether there is a file at the destination and of which size, and whether a record of
/// downloaded segments lies beside it.
pub open spec fn fetch_plan(
    accepts_ranges: bool,
    content_length: Option<u64>,
    file_exists: bool,
    file_size: Option<u64>,
    has_record: bool,
) -> FetchPlan {
    match content_length {
        Some(length) => if !accepts_ranges {
            FetchPlan::Simple
        } else if file_size == Some(length) && !has_record {
            FetchPlan::AlreadyDownloaded
        } else {
            FetchPlan::Segmented {
                content_length: length,
                reuse_file: file_exists && file_size is Some,
            }
        },
        None => FetchPlan::Simple,
    }
}

/// Decides how to fetch an asset. A server that does not serve ranges, or does not state a
/// size, is asked for the whole. A file of the stated size is taken as downloaded, unless a
/// record lies beside it: a file has its full size from the first segment on, and its
/// record stays until the last one is there.
pub fn decide_fetch(
    accepts_ranges: bool,
    content_length: Option<u64>,
    file_exists: bool,
    file_size: Option<u64>,
    has_record: bool,
) -> (res: FetchPlan)
    ensures
        res == fetch_plan(accepts_ranges, content_length, file_exists, file_size, has_record),
{
    if !accepts_ranges {
        return FetchPlan::Simple;
    }
    let content_length = match content_length {
        Some(length) => length,
        None => {
            return FetchPlan::Simple;
        },
    };
    if let Some(size) = file_size {
        if size == content_length && !has_record {
            return FetchPlan::AlreadyDownloaded;
        }
    }
    FetchPlan::Segmented { content_length, reuse_file: file_exists && file_size.is_some() }
}

/// The size that the bytes of a `content-length` header state, or what is wrong with them.
pub open spec fn stated_length(bytes: Seq<u8>) -> Result<nat, Seq<char>> {
    if !all_visible(bytes) {
        Err("failed to convert header to a str"@)
    } else {
        match number_of(ascii_text(bytes), u64::MAX as nat) {
            Ok(n) => Ok(n),
            Err(e) => Err(number_error_text(e)),
        }
    }
}

/// Reads the value of a `content-length` header.
pub fn parse_content_length(value: &HeaderValue) -> (res: Result<u64, Error>)
    ensures
        match stated_length(header_bytes(*value)) {
            Ok(n) => res matches Ok(length) && length == n,
            Err(message) => res matches Err(Error::Unknown(text)) && text@ == message,
        },
{
    match header_value_to_str(value) {
        Ok(text) => {
            proof {
                lemma_ascii_text(text@, header_bytes(*value));
            }
            match parse_u64(text) {
                Ok(length) => Ok(length),
                Err(e) => Err(Error::Unknown(e.message())),
            }
        },
        Err(e) => Err(Error::Unknown(to_str_error_text(&e))),
    }
}

/// Decides how to fetch an asset from the headers that the server answered with, the file at
/// the destination, and whether a record of downloaded segments lies beside it. A stated
/// size that is not a number is an error, if the server serves ranges.
pub fn plan_fetch(
    headers: &HeaderMap<HeaderValue>,
    file_exists: bool,
    file_size: Option<u64>,
    has_record: bool,
) -> (res: Result<FetchPlan, Error>)
    ensures
        ({
            let values = header_values(*headers);
            let ranges = values.contains_key("accept-ranges"@);
            if !ranges || !values.contains_key("content-length"@) {
                res == Ok::<FetchPlan, Error>(FetchPlan::Simple)
            } else {
                match stated_length(values["content-length"@][0]) {
                    Ok(n) => res == Ok::<FetchPlan, Error>(
                        fetch_plan(true, Some(n as u64), file_exists, file_size, has_record),
                    ),
                    Err(message) => res matches Err(Error::Unknown(text)) && text@ == message,
                }
            }
        }),
{
    proof {
        reveal_strlit("accept-ranges");
        reveal_strlit("content-length");
    }
    let accepts_ranges = header_map_contains_key(headers, "accept-ranges");
    if !accepts_ranges {
        return Ok(decide_fetch(false, None, file_exists, file_size, has_record));
    }
    let content_length = match header_map_get(headers, "content-length") {
        Some(value) => match parse_content_length(value) {
            Ok(length) => Some(length),
            Err(e) => {
                return Err(e);
            },
        },
        None => None,
    };
    Ok(decide_fetch(true, content_length, file_exists, file_size, has_record))
}

/// A range of bytes, both ends included.
#[derive(Debug, Clone, Copy, PartialEq, Eq, Structural)]
pub struct ByteRange {
    /// The first byte.
    pub start: u64,
    /// The last byte.
    pub end: u64,
}

/// The header value that asks for the bytes from `start` to `end`.
pub open spec fn range_value(start: nat, end: nat) -> Seq<char> {
    "bytes="@ + decimal(start) + "-"@ + decimal(end)
}

/// The header value that asks for all bytes from `start` on.
pub open spec fn resume_value(start: nat) -> Seq<char> {
    "bytes="@ + decimal(start) + "-"@
}

proof fn lemma_decimal_visible(n: nat)
    ensures
        is_visible_text(decimal(n)),
{
    lemma_decimal_is_digits(n);
}

proof fn lemma_visible_concat(a: Seq<char>, b: Seq<char>)
    requires
        is_visible_text(a),
        is_visible_text(b),
    ensures
        is_visible_text(a + b),
{
}

proof fn lemma_range_values_visible(start: nat, end: nat)
    ensures
        is_visible_text(resume_value(start)),
        is_visible_text(range_value(start, end)),
{
    reveal_strlit("bytes=");
    reveal_strlit("-");
    lemma_decimal_visible(start);
    lemma_decimal_visible(end);
    lemma_visible_concat("bytes="@, decimal(start));
    lemma_visible_concat("bytes="@ + decimal(start), "-"@);
    lemma_visible_concat("bytes="@ + decimal(start) + "-"@, decimal(end));
}

/// Puts a visible text under a name.
fn insert_text(headers: &mut HeaderMap<HeaderValue>, name: &'static str, text: &str)
    requires
        is_header_name(name@),
        is_visible_text(text@),
        header_values(*old(headers)).dom().finite(),
        header_values(*old(headers)).dom().len() < 1024,
    ensures
        header_values(*final(headers)) == header_values(*old(headers)).insert(
            name@,
            seq![encode_utf8(text@)],
        ),
{
    proof {
        lemma_visible_text(text@);
    }
    match header_value_from_str(text) {
        Ok(value) => {
            header_map_insert(headers, name, value);
        },
        Err(_) => {},
    }
}

/// The headers of a request for one segment of an asset.
pub fn segment_headers(range: ByteRange) -> (res: HeaderMap<HeaderValue>)
    ensures
        header_values(res) == no_headers().insert(
            "range"@,
            seq![encode_utf8(range_value(range.start as nat, range.end as nat))],
        ),
{
    proof {
        reveal_strlit("range");
        lemma_range_values_visible(range.start as nat, range.end as nat);
    }
    let mut value = "bytes=".to_string();
    value.append(to_decimal(range.start).as_str());
    value.append("-");
    value.append(to_decimal(range.end).as_str());
    let mut headers = header_map_new();
    insert_text(&mut headers, "range", value.as_str());
    headers
}

/// The name under which a simple download introduces itself.
pub open spec fn browser_name() -> Seq<char> {
    "Mozilla/5.0 (Windows NT 10.0; Win64; x64) AppleWebKit/537.36 (KHTML, like Gecko) Chrome/91.0.4472.124 Safari/537.36"@
}

/// The headers of a request for a whole asset, of which `file_size` bytes may be there.
pub open spec fn simple_header_values(file_size: Option<u64>) -> Map<Seq<char>, Seq<Seq<u8>>> {
    let asked = match file_size {
        Some(size) if size > 0 => no_headers().insert(
            "range"@,
            seq![encode_utf8(resume_value(size as nat))],
        ),
        _ => no_headers(),
    };
    asked.insert("user-agent"@, seq![encode_utf8(browser_name())])
}

/// The headers of a request for a whole asset. Where a part of it is there already, only
/// the rest is asked for.
pub fn simple_headers(file_size: Option<u64>) -> (res: HeaderMap<HeaderValue>)
    ensures
        header_values(res) == simple_header_values(file_size),
{
    proof {
        reveal_strlit("range");
        reveal_strlit("user-agent");
        reveal_strlit(
            "Mozilla/5.0 (Windows NT 10.0; Win64; x64) AppleWebKit/537.36 (KHTML, like Gecko) Chrome/91.0.4472.124 Safari/537.36",
        );
    }
    let mut headers = header_map_new();
    if let Some(size) = file_size {
        if size > 0 {
            proof {
                lemma_range_values_visible(size as nat, 0);
            }
            let mut value = "bytes=".to_string();
            value.append(to_decimal(size).as_str());
            value.append("-");
            insert_text(&mut headers, "range", value.as_str());
        }
    }
    insert_text(
        &mut headers,
        "user-agent",
        "Mozilla/5.0 (Windows NT 10.0; Win64; x64) AppleWebKit/537.36 (KHTML, like Gecko) Chrome/91.0.4472.124 Safari/537.36",
    );
    headers
}

/// Whether `text`, with its dash at `dash`, asks for the bytes from `first` to `last`, both
/// included.
pub open spec fn asks_for_range(text: Seq<char>, dash: int, first: nat, last: nat) -> bool {
    &&& 6 < dash < text.len() - 1
    &&& text.take(6) == "bytes="@
    &&& text[dash] == '-'
    &&& all_digits(text.subrange(6, dash))
    &&& value_of(text.subrange(6, dash)) == first
    &&& all_digits(text.skip(dash + 1))
    &&& value_of(text.skip(dash + 1)) == last
}

/// Whether `text`, which ends in its dash, asks for all bytes from `first` on.
pub open spec fn asks_for_rest(text: Seq<char>, first: nat) -> bool {
    &&& 7 < text.len()
    &&& text.take(6) == "bytes="@
    &&& text.last() == '-'
    &&& all_digits(text.subrange(6, text.len() - 1))
    &&& value_of(text.subrange(6, text.len() - 1)) == first
}

/// The header of a segment asks for exactly the bytes of the segment: read as a range, it
/// gives the first and the last byte back, and it can be read in no other way.
pub proof fn law_range_header_asks_for_the_segment(start: nat, end: nat)
    ensures
        exists|dash: int| asks_for_range(range_value(start, end), dash, start, end),
        forall|dash: int, first: nat, last: nat|
            asks_for_range(range_value(start, end), dash, first, last) ==> first == start && last
                == end,
        forall|first: nat| !asks_for_rest(range_value(start, end), first),
        ascii_text(encode_utf8(range_value(start, end))) == range_value(start, end),
{
    let text = range_value(start, end);
    let d: int = 6 + decimal(start).len() as int;
    law_decimal_notation(start);
    law_decimal_notation(end);
    reveal_strlit("bytes=");
    reveal_strlit("-");
    assert(text.take(6) =~= "bytes="@);
    assert(text.subrange(6, d) =~= decimal(start));
    assert(text.skip(d + 1) =~= decimal(end));
    assert(text[d] == '-');
    assert(asks_for_range(text, d, start, end));
    assert forall|dash: int, first: nat, last: nat|
        asks_for_range(text, dash, first, last) implies first == start && last == end by {
        if dash < d {
            assert(decimal(start)[dash - 6] == text[dash]);
        } else if dash > d {
            assert(text.subrange(6, dash)[d - 6] == text[d]);
        }
    }
    assert forall|first: nat| !asks_for_rest(text, first) by {
        assert(decimal(end)[decimal(end).len() - 1] == text.last());
    }
    lemma_range_values_visible(start, end);
    lemma_visible_text(text);
    lemma_ascii_text(text, encode_utf8(text));
}

proof fn lemma_resume_value(start: nat)
    ensures
        asks_for_rest(resume_value(start), start),
        forall|first: nat| asks_for_rest(resume_value(start), first) ==> first == start,
        ascii_text(encode_utf8(resume_value(start))) == resume_value(start),
{
    let text = resume_value(start);
    law_decimal_notation(start);
    reveal_strlit("bytes=");
    reveal_strlit("-");
    assert(text.take(6) =~= "bytes="@);
    assert(text.subrange(6, text.len() - 1) =~= decimal(start));
    lemma_range_values_visible(start, 0);
    lemma_visible_text(text);
    lemma_ascii_text(text, encode_utf8(text));
}

/// A request for a whole asset asks for the rest from exactly the byte that the file ends at,
/// where the file holds something, and for everything where it does not. It introduces
/// itself, always in the same way, and has no other header.
pub proof fn law_simple_request_asks_for_the_rest(file_size: Option<u64>, other: Option<u64>)
    ensures
        ({
            let asked = simple_header_values(file_size);
            &&& asked.contains_key("range"@) <==> (file_size matches Some(size) && size > 0)
            &&& asked.contains_key("range"@) ==> asked["range"@].len() == 1 && asks_for_rest(
                ascii_text(asked["range"@][0]),
                file_size->0 as nat,
            )
            &&& forall|first: nat|
                asked.contains_key("range"@) && #[trigger] asks_for_rest(
                    ascii_text(asked["range"@][0]),
                    first,
                ) ==> first == file_size->0
            &&& asked.contains_key("user-agent"@)
            &&& asked["user-agent"@].len() == 1
            &&& asked["user-agent"@] == simple_header_values(other)["user-agent"@]
            &&& forall|name: Seq<char>| #[trigger]
                asked.contains_key(name) ==> name == "range"@ || name == "user-agent"@
        }),
{
    reveal_strlit("range");
    reveal_strlit("user-agent");
    assert("range"@.len() != "user-agent"@.len());
    if let Some(size) = file_size {
        if size > 0 {
            lemma_resume_value(size as nat);
        }
    }
}

proof fn lemma_encode_concat(a: Seq<char>, b: Seq<char>)
    ensures
        encode_utf8(a + b) == encode_utf8(a) + encode_utf8(b),
    decreases a.len(),
{
    if a.len() == 0 {
        assert(a + b =~= b);
        assert(encode_utf8(a) + encode_utf8(b) =~= encode_utf8(b));
    } else {
        lemma_encode_concat(a.drop_first(), b);
        assert((a + b).drop_first() =~= a.drop_first() + b);
        assert(encode_utf8(a + b) =~= encode_utf8(a) + encode_utf8(b));
    }
}

/// A request for JSON introduces itself in the same way with and without a token. It carries
/// the whole token behind the word `Bearer`, if there is one, and has no other header.
pub proof fn law_json_request_carries_the_token(token: Seq<char>)
    ensures
        ({
            let asked = json_header_values(Some(token));
            let plain = json_header_values(None);
            &&& asked["authorization"@].len() == 1
            &&& asked["authorization"@][0] == encode_utf8("Bearer "@) + encode_utf8(token)
            &&& asked.dom() == set!["user-agent"@, "authorization"@]
            &&& plain.dom() == set!["user-agent"@]
            &&& asked["user-agent"@] == plain["user-agent"@]
            &&& plain["user-agent"@].len() == 1
        }),
{
    reveal_strlit("user-agent");
    reveal_strlit("authorization");
    assert("user-agent"@.len() != "authorization"@.len());
    lemma_encode_concat("Bearer "@, token);
    assert(json_header_values(Some(token)).dom() =~= set!["user-agent"@, "authorization"@]);
    assert(json_header_values(None).dom() =~= set!["user-agent"@]);
}

/// When an asset is fetched in which way. It is fetched whole exactly if the server does not
/// serve ranges or states no size. It is taken as downloaded exactly if neither holds, a file
/// of exactly the stated size is there, and no record says that it is unfinished. In every
/// other case it is fetched in segments, all of the stated size, and into the file that is
/// there if its size is known.
pub proof fn law_fetch_plan(
    accepts_ranges: bool,
    content_length: Option<u64>,
    file_exists: bool,
    file_size: Option<u64>,
    has_record: bool,
)
    ensures
        ({
            let plan = fetch_plan(
                accepts_ranges,
                content_length,
                file_exists,
                file_size,
                has_record,
            );
            &&& plan is Simple <==> !accepts_ranges || content_length is None
            &&& plan is AlreadyDownloaded <==> accepts_ranges && content_length is Some
                && file_size == content_length && !has_record
            &&& plan matches FetchPlan::Segmented { content_length: length, reuse_file }
                ==> content_length == Some(length) && (reuse_file <==> file_exists
                && file_size is Some)
        }),
{
}

/// The size that a `content-length` header states: one or more digits, with at most one plus
/// sign in front, and no more than 64 bits hold. Every size is read back from its digits. What
/// is wrong with any other value is told: that it is not a text, that it is empty, that its
/// first digits are too large a number, or that it holds something else than digits.
pub proof fn law_stated_length(bytes: Seq<u8>, n: nat)
    ensures
        stated_length(bytes) == Ok::<nat, Seq<char>>(n) <==> n <= u64::MAX && unsigned_part(
            ascii_text(bytes),
        ).len() > 0 && all_digits(unsigned_part(ascii_text(bytes))) && value_of(
            unsigned_part(ascii_text(bytes)),
        ) == n,
        n <= u64::MAX ==> stated_length(encode_utf8(decimal(n))) == Ok::<nat, Seq<char>>(n),
        !all_visible(bytes) <==> stated_length(bytes) == Err::<nat, Seq<char>>(
            "failed to convert header to a str"@,
        ),
        bytes.len() == 0 ==> stated_length(bytes) == Err::<nat, Seq<char>>(
            "cannot parse integer from empty string"@,
        ),
        all_visible(bytes) && grows_above(unsigned_part(ascii_text(bytes)), u64::MAX as nat)
            ==> stated_length(bytes) == Err::<nat, Seq<char>>(
            "number too large to fit in target type"@,
        ),
        all_visible(bytes) && bytes.len() > 0 && !grows_above(
            unsigned_part(ascii_text(bytes)),
            u64::MAX as nat,
        ) && stated_length(bytes) is Err ==> stated_length(bytes) == Err::<nat, Seq<char>>(
            "invalid digit found in string"@,
        ),
        ascii_text(bytes).len() == bytes.len(),
        forall|i: int| 0 <= i < bytes.len() ==> #[trigger] ascii_text(bytes)[i] as int == bytes[i],
{
    reveal_strlit("failed to convert header to a str");
    reveal_strlit("cannot parse integer from empty string");
    reveal_strlit("number too large to fit in target type");
    reveal_strlit("invalid digit found in string");
    assert("failed to convert header to a str"@[0] == 'f');
    assert("cannot parse integer from empty string"@[0] == 'c');
    assert("number too large to fit in target type"@[0] == 'n');
    assert("invalid digit found in string"@[0] == 'i');
    let text = ascii_text(bytes);
    law_number_reading(text, u64::MAX as nat, n);
    if unsigned_part(text).len() > 0 && all_digits(unsigned_part(text)) {
        assert forall|i: int| 0 <= i < bytes.len() implies is_visible_byte(#[trigger] bytes[i]) by {
            assert(text[i] == bytes[i] as char);
            if text[0] == '+' {
                if i > 0 {
                    assert(unsigned_part(text)[i - 1] == text[i]);
                }
            } else {
                assert(unsigned_part(text)[i] == text[i]);
            }
        }
    }
    lemma_decimal_visible(n);
    lemma_visible_text(decimal(n));
    lemma_ascii_text(decimal(n), encode_utf8(decimal(n)));
    if n <= u64::MAX {
        law_decimal_round_trip(n, u64::MAX as nat);
    }
}

} // verus!
