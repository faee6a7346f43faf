use slowlog::number::{parse_count, parse_micros};
use slowlog::text::{char_len, chars_of, count_fitting, is_space_char, takes_more_than, trimmed};

fn chars(s: &str) -> Vec<char> {
    s.chars().collect()
}

#[test]
fn counts_are_read_in_base_ten() {
    assert_eq!(parse_count(&chars("0")), 0);
    assert_eq!(parse_count(&chars("100")), 100);
    assert_eq!(parse_count(&chars("007")), 7);
    assert_eq!(parse_count(&chars("18446744073709551615")), u64::MAX);
}

#[test]
fn counts_that_cannot_be_read_are_zero() {
    assert_eq!(parse_count(&chars("")), 0);
    assert_eq!(parse_count(&chars("12a")), 0);
    assert_eq!(parse_count(&chars("-1")), 0);
    assert_eq!(parse_count(&chars("18446744073709551616")), 0);
    assert_eq!(parse_count(&chars("\u{0661}\u{0662}")), 0);
}

#[test]
fn times_are_read_as_microseconds() {
    assert_eq!(parse_micros(&chars("0.001234")), 1234);
    assert_eq!(parse_micros(&chars("1.0")), 1_000_000);
    assert_eq!(parse_micros(&chars("1")), 1_000_000);
    assert_eq!(parse_micros(&chars("1.")), 1_000_000);
    assert_eq!(parse_micros(&chars(".5")), 500_000);
    assert_eq!(parse_micros(&chars("12.345678")), 12_345_678);
    assert_eq!(parse_micros(&chars("0.12")), 120_000);
    assert_eq!(parse_micros(&chars("18446744073709.551615")), u64::MAX);
}

#[test]
fn digits_beyond_microseconds_are_dropped() {
    assert_eq!(parse_micros(&chars("0.0000019")), 1);
    assert_eq!(parse_micros(&chars("0.9999999")), 999_999);
}

#[test]
fn times_that_cannot_be_read_are_zero() {
    assert_eq!(parse_micros(&chars("")), 0);
    assert_eq!(parse_micros(&chars(".")), 0);
    assert_eq!(parse_micros(&chars("1.2.3")), 0);
    assert_eq!(parse_micros(&chars("1e3")), 0);
    assert_eq!(parse_micros(&chars("0.123456x")), 0);
    assert_eq!(parse_micros(&chars("18446744073709.551616")), 0);
}

#[test]
fn white_space_is_the_unicode_set() {
    for c in [' ', '\t', '\n', '\r', '\u{0B}', '\u{0C}', '\u{85}', '\u{A0}', '\u{3000}', '\u{2028}'] {
        assert!(is_space_char(c));
        assert_eq!(is_space_char(c), c.is_whitespace());
    }
    for c in ['a', '0', '#', '\u{200B}', '\0'] {
        assert!(!is_space_char(c));
        assert_eq!(is_space_char(c), c.is_whitespace());
    }
}

#[test]
fn trimming_takes_both_ends() {
    assert_eq!(trimmed(&chars(" \t a b \r\n")), chars("a b"));
    assert_eq!(trimmed(&chars("   ")), chars(""));
    assert_eq!(trimmed(&chars("ab")), chars("ab"));
    assert_eq!(chars_of("h\u{e9}llo"), chars("h\u{e9}llo"));
}

#[test]
fn bytes_are_counted_as_in_utf8() {
    for c in ['a', '\u{7f}', '\u{80}', '\u{e9}', '\u{7ff}', '\u{800}', '\u{20ac}', '\u{ffff}', '\u{10000}', '\u{1f600}'] {
        assert_eq!(char_len(c), c.len_utf8());
    }
    let text = chars("a\u{e9}\u{20ac}\u{1f600}b");
    assert!(takes_more_than(&text, 10));
    assert!(!takes_more_than(&text, 11));
    assert_eq!(count_fitting(&text, 0), 0);
    assert_eq!(count_fitting(&text, 2), 1);
    assert_eq!(count_fitting(&text, 3), 2);
    assert_eq!(count_fitting(&text, 9), 3);
    assert_eq!(count_fitting(&text, 10), 4);
    assert_eq!(count_fitting(&text, 11), 5);
    assert_eq!(count_fitting(&text, 100), 5);
}
