use reqwest::header::{HeaderMap, HeaderValue};
use yt_fetcher::error::Error;
use yt_fetcher::fetcher::request::{
    decide_fetch, json_headers, parse_content_length, plan_fetch, segment_headers, simple_headers,
    ByteRange, FetchPlan,
};
use yt_fetcher::fetcher::Fetcher;

const BROWSER: &str = "Mozilla/5.0 (Windows NT 10.0; Win64; x64) AppleWebKit/537.36 (KHTML, like Gecko) Chrome/91.0.4472.124 Safari/537.36";

fn unknown<T>(text: &str) -> Result<T, Error> {
    Err(Error::Unknown(text.to_string()))
}

fn answer(pairs: &[(&'static str, &str)]) -> HeaderMap {
    let mut map = HeaderMap::new();
    for (name, value) in pairs {
        map.append(*name, HeaderValue::from_str(value).unwrap());
    }
    map
}

#[test]
fn fetcher_defaults() {
    let fetcher = Fetcher::<u8>::new("http://a/b");
    assert_eq!(fetcher.url, "http://a/b");
    assert_eq!(fetcher.parallel_segments, 4);
    assert_eq!(fetcher.segment_size, 1024 * 1024 * 5);
    assert_eq!(fetcher.retry_attempts, 3);
    assert!(fetcher.progress_callback.is_none());
}

#[test]
fn fetcher_settings() {
    let fetcher = Fetcher::new("u")
        .with_parallel_segments(7)
        .with_segment_size(99)
        .with_retry_attempts(2)
        .with_progress_callback(|done: u64, total: u64| done + total);
    assert_eq!(fetcher.url, "u");
    assert_eq!(fetcher.parallel_segments, 7);
    assert_eq!(fetcher.segment_size, 99);
    assert_eq!(fetcher.retry_attempts, 2);
    assert_eq!(fetcher.progress_callback.map(|f| f(1, 2)), Some(3));
}

#[test]
fn fetcher_in_words() {
    let fetcher = Fetcher::<()>::new("http://a/b").with_parallel_segments(12);
    assert_eq!(fetcher.to_text(), "Fetcher(url=http://a/b, segments=12)");
}

#[test]
fn json_headers_without_a_token() {
    let headers = json_headers(None).unwrap();
    assert_eq!(headers.len(), 1);
    assert_eq!(headers.get("user-agent").unwrap(), "rust-reqwest");
}

#[test]
fn json_headers_with_a_token() {
    let headers = json_headers(Some("abc".to_string())).unwrap();
    assert_eq!(headers.len(), 2);
    assert_eq!(headers.get("user-agent").unwrap(), "rust-reqwest");
    assert_eq!(headers.get("authorization").unwrap(), "Bearer abc");
}

#[test]
fn token_that_cannot_stand_in_a_header() {
    for token in ["a\nb", "\u{7f}", "a\u{0}"] {
        assert_eq!(
            json_headers(Some(token.to_string())).map(|_| ()),
            unknown("failed to parse header value")
        );
    }
    assert!(json_headers(Some("tab\tand \u{e9}".to_string())).is_ok());
}

#[test]
fn plan_without_ranges_is_simple() {
    let headers = answer(&[("content-length", "100")]);
    assert_eq!(plan_fetch(&headers, true, Some(100), false), Ok(FetchPlan::Simple));
    let wrong = answer(&[("content-length", "x")]);
    assert_eq!(plan_fetch(&wrong, false, None, false), Ok(FetchPlan::Simple));
}

#[test]
fn plan_without_a_length_is_simple() {
    let headers = answer(&[("accept-ranges", "bytes")]);
    assert_eq!(plan_fetch(&headers, true, Some(100), false), Ok(FetchPlan::Simple));
}

#[test]
fn plan_with_a_complete_file_is_to_do_nothing() {
    let headers = answer(&[("accept-ranges", "bytes"), ("content-length", "100")]);
    assert_eq!(plan_fetch(&headers, true, Some(100), false), Ok(FetchPlan::AlreadyDownloaded));
}

#[test]
fn plan_with_an_unfinished_file_is_to_resume() {
    let headers = answer(&[("accept-ranges", "bytes"), ("content-length", "100")]);
    let resumed = FetchPlan::Segmented { content_length: 100, reuse_file: true };
    assert_eq!(plan_fetch(&headers, true, Some(100), true), Ok(resumed));
    assert_eq!(plan_fetch(&headers, true, Some(40), true), Ok(resumed));
    assert_eq!(
        plan_fetch(&headers, false, None, true),
        Ok(FetchPlan::Segmented { content_length: 100, reuse_file: false })
    );
    assert_eq!(plan_fetch(&answer(&[]), true, Some(100), true), Ok(FetchPlan::Simple));
    assert_eq!(decide_fetch(true, Some(100), true, Some(100), true), resumed);
}

#[test]
fn plan_in_segments() {
    let headers = answer(&[("accept-ranges", "none"), ("content-length", "100")]);
    let plan = |reuse_file| Ok(FetchPlan::Segmented { content_length: 100, reuse_file });
    assert_eq!(plan_fetch(&headers, true, Some(40), false), plan(true));
    assert_eq!(plan_fetch(&headers, true, None, false), plan(false));
    assert_eq!(plan_fetch(&headers, false, None, false), plan(false));
}

#[test]
fn plan_takes_the_first_length() {
    let headers =
        answer(&[("accept-ranges", "bytes"), ("content-length", "7"), ("content-length", "8")]);
    assert_eq!(
        plan_fetch(&headers, false, None, false),
        Ok(FetchPlan::Segmented { content_length: 7, reuse_file: false })
    );
}

#[test]
fn plan_with_a_wrong_length_is_an_error() {
    for (text, message) in [
        ("", "cannot parse integer from empty string"),
        ("12 bytes", "invalid digit found in string"),
        ("18446744073709551616", "number too large to fit in target type"),
        ("\u{e9}", "failed to convert header to a str"),
    ] {
        let headers = answer(&[("accept-ranges", "bytes"), ("content-length", text)]);
        assert_eq!(plan_fetch(&headers, false, None, false), unknown(message));
    }
}

#[test]
fn content_length_values() {
    let read = |text: &str| parse_content_length(&HeaderValue::from_str(text).unwrap());
    assert_eq!(read("123"), Ok(123));
    assert_eq!(read("+123"), Ok(123));
    assert_eq!(read("0"), Ok(0));
    assert_eq!(read("-1"), unknown("invalid digit found in string"));
}

#[test]
fn decisions_on_plain_values() {
    assert_eq!(decide_fetch(false, Some(5), true, Some(5), false), FetchPlan::Simple);
    assert_eq!(decide_fetch(true, None, true, Some(5), false), FetchPlan::Simple);
    assert_eq!(decide_fetch(true, Some(5), true, Some(5), false), FetchPlan::AlreadyDownloaded);
    assert_eq!(
        decide_fetch(true, Some(5), false, Some(4), false),
        FetchPlan::Segmented { content_length: 5, reuse_file: false }
    );
}

#[test]
fn segment_is_asked_for_by_its_range() {
    let headers = segment_headers(ByteRange { start: 10, end: 19 });
    assert_eq!(headers.len(), 1);
    assert_eq!(headers.get("range").unwrap(), "bytes=10-19");
}

#[test]
fn simple_request_continues_a_file() {
    let headers = simple_headers(Some(512));
    assert_eq!(headers.len(), 2);
    assert_eq!(headers.get("range").unwrap(), "bytes=512-");
    assert_eq!(headers.get("user-agent").unwrap(), BROWSER);
}

#[test]
fn simple_request_without_a_file() {
    for size in [None, Some(0)] {
        let headers = simple_headers(size);
        assert_eq!(headers.len(), 1);
        assert_eq!(headers.get("user-agent").unwrap(), BROWSER);
    }
}
