use guildbot::decimal::{parse_i64, parse_u64, parse_usize, u64_to_decimal};
use guildbot::leet::{leet_reply, snowflake_unix_seconds};
use guildbot::owners::parse_owner_ids;

#[test]
fn parse_u64_reads_plain_and_signed_numerals() {
    assert_eq!(parse_u64("42"), Some(42));
    assert_eq!(parse_u64("+7"), Some(7));
    assert_eq!(parse_u64("007"), Some(7));
    assert_eq!(parse_u64("0"), Some(0));
}

#[test]
fn parse_u64_rejects_what_from_str_rejects() {
    assert_eq!(parse_u64(""), None);
    assert_eq!(parse_u64("+"), None);
    assert_eq!(parse_u64("-1"), None);
    assert_eq!(parse_u64("-0"), None);
    assert_eq!(parse_u64("1a"), None);
    assert_eq!(parse_u64(" 1"), None);
    assert_eq!(parse_u64("++1"), None);
}

#[test]
fn parse_u64_range_edges() {
    assert_eq!(parse_u64("18446744073709551615"), Some(u64::MAX));
    assert_eq!(parse_u64("18446744073709551616"), None);
    assert_eq!(parse_u64("99999999999999999999999"), None);
    assert_eq!(parse_u64("99999999999999999999999x"), None);
}

#[test]
fn parse_u64_agrees_with_std() {
    for s in ["", "0", "+", "+0", "-0", "12", "1_0", "18446744073709551615", "18446744073709551616", "٣"] {
        assert_eq!(parse_u64(s), s.parse::<u64>().ok(), "input {:?}", s);
    }
}

#[test]
fn parse_i64_reads_signs_and_edges() {
    assert_eq!(parse_i64("-5"), Some(-5));
    assert_eq!(parse_i64("+5"), Some(5));
    assert_eq!(parse_i64("1700000000"), Some(1700000000));
    assert_eq!(parse_i64("-9223372036854775808"), Some(i64::MIN));
    assert_eq!(parse_i64("9223372036854775807"), Some(i64::MAX));
    assert_eq!(parse_i64("-9223372036854775809"), None);
    assert_eq!(parse_i64("9223372036854775808"), None);
    assert_eq!(parse_i64("-"), None);
    assert_eq!(parse_i64("+-1"), None);
    assert_eq!(parse_i64("-+1"), None);
    assert_eq!(parse_i64(""), None);
}

#[test]
fn parse_usize_reads_server_ids() {
    assert_eq!(parse_usize("1"), Some(1));
    assert_eq!(parse_usize("x"), None);
}

#[test]
fn decimal_writes_like_to_string() {
    assert_eq!(u64_to_decimal(0), "0");
    assert_eq!(u64_to_decimal(9), "9");
    assert_eq!(u64_to_decimal(10), "10");
    assert_eq!(u64_to_decimal(1234567890), "1234567890");
    assert_eq!(u64_to_decimal(u64::MAX), u64::MAX.to_string());
}

#[test]
fn decimal_round_trip() {
    for n in [0u64, 1, 9, 10, 99, 100, 65535, 1420070400000, u64::MAX - 1, u64::MAX] {
        assert_eq!(parse_u64(&u64_to_decimal(n)), Some(n));
    }
}

#[test]
fn snowflake_time_of_documented_example() {
    // 175928847299117063 was created at 1462015105796 ms after the Unix epoch.
    assert_eq!(snowflake_unix_seconds(175928847299117063), 1462015105);
    assert_eq!(snowflake_unix_seconds(0), 1420070400);
    assert_eq!(snowflake_unix_seconds(u64::MAX), (u64::MAX / 4194304 + 1420070400000) / 1000);
}

#[test]
fn leet_reply_is_a_timestamp_tag() {
    assert_eq!(leet_reply(175928847299117063), "<t:1462015105>");
    assert_eq!(leet_reply(0), "<t:1420070400>");
}

fn sorted(mut v: Vec<u64>) -> Vec<u64> {
    v.sort();
    v
}

#[test]
fn owners_are_read_as_a_set() {
    assert_eq!(parse_owner_ids("1,2,3").map(sorted), Some(vec![1, 2, 3]));
    assert_eq!(parse_owner_ids("5,5").map(sorted), Some(vec![5]));
    assert_eq!(parse_owner_ids("3,+1,3,2").map(sorted), Some(vec![1, 2, 3]));
    assert_eq!(parse_owner_ids("42"), Some(vec![42]));
}

#[test]
fn owners_reject_bad_pieces() {
    assert_eq!(parse_owner_ids(""), None);
    assert_eq!(parse_owner_ids("1,,2"), None);
    assert_eq!(parse_owner_ids("1, 2"), None);
    assert_eq!(parse_owner_ids("1,"), None);
    assert_eq!(parse_owner_ids(",1"), None);
    assert_eq!(parse_owner_ids("abc"), None);
}
