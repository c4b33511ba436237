//! The history record line: exact rendering, round trips, and a check that
//! every line is honest JSON as an independent reader sees it.

use pwpick::record::{encode_record, parse_record};
use pwpick::timestamp::{parse_ts, Timestamp};

fn example_ts() -> Timestamp {
    Timestamp {
        year: 2024,
        month: 3,
        day: 11,
        hour: 14,
        minute: 2,
        second: 31,
        nanosecond: 500000000,
        offset_seconds: -18000,
    }
}

#[test]
fn record_renders_the_documented_line() {
    let line = encode_record(b"Tr7kLm2Qp9Rx", &example_ts());
    assert_eq!(
        String::from_utf8(line).unwrap(),
        "{\"pw\":\"Tr7kLm2Qp9Rx\",\"created_at\":\"2024-03-11T14:02:31.500000000-05:00\"}"
    );
}

#[test]
fn record_round_trips() {
    let ts = example_ts();
    let line = encode_record(b"Tr7kLm2Qp9Rx", &ts);
    let (value, parsed) = parse_record(&line).unwrap();
    assert_eq!(value, b"Tr7kLm2Qp9Rx".to_vec());
    assert_eq!(parsed, ts);
}

#[test]
fn record_round_trips_with_escapes() {
    let ts = example_ts();
    let awkward: &[u8] = b"a\"b\\c\nd\x01e";
    let line = encode_record(awkward, &ts);
    let (value, parsed) = parse_record(&line).unwrap();
    assert_eq!(value, awkward.to_vec());
    assert_eq!(parsed, ts);
}

#[test]
fn record_round_trips_odd_timestamps() {
    // a positive offset with seconds, a leap second, and an early year
    let ts = Timestamp {
        year: 7,
        month: 12,
        day: 31,
        hour: 23,
        minute: 59,
        second: 59,
        nanosecond: 1500000000,
        offset_seconds: 3661,
    };
    let line = encode_record(b"pw", &ts);
    let (value, parsed) = parse_record(&line).unwrap();
    assert_eq!(value, b"pw".to_vec());
    assert_eq!(parsed, ts);
    let text = String::from_utf8(line).unwrap();
    assert!(text.contains("0007-12-31T23:59:59.1500000000+01:01:01"));
}

#[test]
fn record_round_trips_negative_year_and_zero_offset() {
    let ts = Timestamp {
        year: -44,
        month: 1,
        day: 1,
        hour: 0,
        minute: 0,
        second: 0,
        nanosecond: 0,
        offset_seconds: 0,
    };
    let line = encode_record(b"x", &ts);
    let (_, parsed) = parse_record(&line).unwrap();
    assert_eq!(parsed, ts);
    let text = String::from_utf8(line).unwrap();
    assert!(text.contains("-0044-01-01T00:00:00.000000000+00:00"));
}

#[test]
fn record_rejects_garbage() {
    assert!(parse_record(b"").is_none());
    assert!(parse_record(b"nonsense").is_none());
    assert!(parse_record(b"{\"pw\":\"abc\"}").is_none());
    // truncated and trailing-junk forms of a good line
    let line = encode_record(b"abc", &example_ts());
    assert!(parse_record(&line[..line.len() - 1]).is_none());
    let mut longer = line.clone();
    longer.push(b' ');
    assert!(parse_record(&longer).is_none());
}

#[test]
fn timestamp_parser_reads_plain_renderings() {
    let bytes = b"2024-03-11T14:02:31.500000000-05:00";
    let (ts, used) = parse_ts(bytes, 0).unwrap();
    assert_eq!(used, bytes.len());
    assert_eq!(ts, example_ts());
}

#[test]
fn the_line_is_json_to_an_independent_reader() {
    let pw: &[u8] = b"a\"b\\c\nd";
    let line = encode_record(pw, &example_ts());
    let text = String::from_utf8(line).unwrap();
    let v: serde_json::Value = serde_json::from_str(&text).unwrap();
    assert_eq!(v["pw"].as_str().unwrap().as_bytes(), pw);
    assert_eq!(
        v["created_at"].as_str().unwrap(),
        "2024-03-11T14:02:31.500000000-05:00"
    );
}
