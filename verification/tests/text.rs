use std::path::Path;
use yt_fetcher::text::{
    chars_of, file_stem, last_segment, parse_number, parse_u64, same_text, to_decimal, NumberError,
};

#[test]
fn decimal_of_some_numbers() {
    assert_eq!(to_decimal(0), "0");
    assert_eq!(to_decimal(9), "9");
    assert_eq!(to_decimal(10), "10");
    assert_eq!(to_decimal(1_048_576), "1048576");
    assert_eq!(to_decimal(u64::MAX), "18446744073709551615");
}

#[test]
fn decimal_is_read_back() {
    for n in [0u64, 1, 9, 10, 99, 100, 12345678901234567890, u64::MAX] {
        assert_eq!(parse_u64(&to_decimal(n)), Ok(n));
    }
}

#[test]
fn numbers_are_read_as_std_reads_them() {
    let texts = [
        "", "+", "-", "0", "007", "+5", "-5", "++5", "12x", "x12", " 1", "1 ", "1\r", "\u{e9}",
        "18446744073709551615", "18446744073709551616", "99999999999999999999999x",
        "1844674407370955161x", "\u{661}",
    ];
    for text in texts {
        match (parse_u64(text), text.parse::<u64>()) {
            (Ok(ours), Ok(theirs)) => assert_eq!(ours, theirs),
            (Err(ours), Err(theirs)) => assert_eq!(ours.message(), theirs.to_string()),
            (ours, theirs) => panic!("{:?}: {:?} and {:?}", text, ours, theirs),
        }
    }
}

#[test]
fn each_number_error() {
    assert_eq!(parse_u64(""), Err(NumberError::Empty));
    assert_eq!(parse_u64("1a"), Err(NumberError::InvalidDigit));
    assert_eq!(parse_u64("18446744073709551616"), Err(NumberError::Overflow));
    assert_eq!(NumberError::Empty.message(), "cannot parse integer from empty string");
    assert_eq!(NumberError::InvalidDigit.message(), "invalid digit found in string");
    assert_eq!(NumberError::Overflow.message(), "number too large to fit in target type");
}

#[test]
fn number_within_a_limit() {
    let chars = chars_of("a255b256");
    assert_eq!(parse_number(&chars, 1, 4, 255), Ok(255));
    assert_eq!(parse_number(&chars, 5, 8, 255), Err(NumberError::Overflow));
    assert_eq!(parse_number(&chars, 2, 2, 255), Err(NumberError::Empty));
}

#[test]
fn last_segment_of_a_url() {
    assert_eq!(last_segment("https://a.b/c/d.zip"), "d.zip");
    assert_eq!(last_segment("plain"), "plain");
    assert_eq!(last_segment("ends/"), "");
    assert_eq!(last_segment(""), "");
    assert_eq!(last_segment("\u{e9}/\u{fc}x"), "\u{fc}x");
}

#[test]
fn stem_of_a_file_name() {
    assert_eq!(file_stem("ffmpeg.zip"), "ffmpeg");
    assert_eq!(file_stem("a.tar.xz"), "a.tar");
    assert_eq!(file_stem("plain"), "plain");
    assert_eq!(file_stem(".hidden"), ".hidden");
    assert_eq!(file_stem(""), "");
    for name in ["ffmpeg.zip", "a.tar.xz", "plain", ".hidden", "dot.", "\u{e9}.\u{fc}", ".a.b"] {
        assert_eq!(Path::new(name).with_extension(""), Path::new(&file_stem(name)));
    }
}

#[test]
fn same_texts() {
    assert!(same_text("", ""));
    assert!(same_text("a\u{e9}", "a\u{e9}"));
    assert!(!same_text("a", "ab"));
    assert!(!same_text("ab", "ac"));
}
