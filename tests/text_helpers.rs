use zedis::text::{bytes_lt, contains_chars, fast_contains_ignore_case, starts_with, str_eq};
use zedis::validate::{
    parse_unsigned, parses_as_usize, validate_common_string, validate_host, validate_long_string, validate_ttl,
};

#[test]
fn length_limits() {
    assert!(validate_long_string(&"x".repeat(4096)));
    assert!(!validate_long_string(&"x".repeat(4097)));
    assert!(validate_common_string(&"x".repeat(255)));
    assert!(!validate_common_string(&"x".repeat(256)));
    // the limit counts bytes: 128 two-byte characters are 256 bytes
    assert!(!validate_common_string(&"é".repeat(128)));
}

#[test]
fn host_must_be_short_ascii() {
    assert!(validate_host("redis.example.com"));
    assert!(!validate_host("rédis"));
    assert!(!validate_host(&"h".repeat(256)));
}

#[test]
fn ttl_accepts_empty_seconds_and_durations() {
    assert!(validate_ttl(""));
    assert!(validate_ttl("3600"));
    assert!(validate_ttl("+5"));
    assert!(validate_ttl("1h 30m"));
    assert!(validate_ttl("0"));
    assert!(!validate_ttl("soon"));
    assert!(!validate_ttl("-5"));
}

#[test]
fn ttl_durations_longer_than_the_bound_are_refused() {
    assert!(validate_ttl("1 hour 30 minutes 20 sec"));
    assert!(!validate_ttl("1 hour 30 minutes 20 secs"));
    // a text whose seconds reach u64::MAX with one more second of nanoseconds
    assert!(!validate_ttl("18446744073709551615s 1000000000ns"));
    assert!(!validate_ttl("5124095576030431h15s1000ms"));
}

#[test]
fn unsigned_parsing() {
    assert_eq!(parse_unsigned("65535", 65535), Some(65535));
    assert_eq!(parse_unsigned("65536", 65535), None);
    assert_eq!(parse_unsigned("+7", 10), Some(7));
    assert_eq!(parse_unsigned("+", 10), None);
    assert_eq!(parse_unsigned("", 10), None);
    assert_eq!(parse_unsigned("1a", 100), None);
    assert!(parses_as_usize(&usize::MAX.to_string()));
    assert!(!parses_as_usize("18446744073709551616"));
}

#[test]
fn contains_ignore_case_ascii_and_unicode() {
    assert!(fast_contains_ignore_case("Hello World", "world"));
    assert!(fast_contains_ignore_case("Hello", ""));
    assert!(!fast_contains_ignore_case("Hi", "hello"));
    // non-ASCII text is lower-cased through the standard library
    assert!(fast_contains_ignore_case("GRÜẞE aus Köln", "köln"));
    assert!(fast_contains_ignore_case("ÄRGER", "ärger"));
    assert!(!fast_contains_ignore_case("ÄRGER", "arger"));
}

#[test]
fn small_text_helpers() {
    assert!(contains_chars("abcdef", "cde"));
    assert!(!contains_chars("abc", "abcd"));
    assert!(str_eq("ä", "ä"));
    assert!(!str_eq("a", "b"));
    assert!(starts_with("user:1", "user:"));
    assert!(!starts_with("us", "user:"));
    assert!(bytes_lt(b"abc", b"abd"));
    assert!(bytes_lt(b"ab", b"abc"));
    assert!(!bytes_lt(b"abc", b"abc"));
    assert!(!bytes_lt(b"b", b"abc"));
}
