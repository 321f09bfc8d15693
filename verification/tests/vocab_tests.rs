use stt_core::errors::SttError;
use stt_core::vocab::{parse_i64, Vocabulary};

#[test]
fn parse_i64_plain_and_signed() {
    assert_eq!(parse_i64(b"123"), Some(123));
    assert_eq!(parse_i64(b"+42"), Some(42));
    assert_eq!(parse_i64(b"-7"), Some(-7));
    assert_eq!(parse_i64(b"0"), Some(0));
    assert_eq!(parse_i64(b"007"), Some(7));
}

#[test]
fn parse_i64_limits() {
    assert_eq!(parse_i64(b"9223372036854775807"), Some(i64::MAX));
    assert_eq!(parse_i64(b"-9223372036854775808"), Some(i64::MIN));
    assert_eq!(parse_i64(b"9223372036854775808"), None);
    assert_eq!(parse_i64(b"-9223372036854775809"), None);
    assert_eq!(parse_i64(b"99999999999999999999"), None);
}

#[test]
fn parse_i64_rejects_malformed() {
    assert_eq!(parse_i64(b""), None);
    assert_eq!(parse_i64(b"-"), None);
    assert_eq!(parse_i64(b"+"), None);
    assert_eq!(parse_i64(b"12a"), None);
    assert_eq!(parse_i64(b" 5"), None);
    assert_eq!(parse_i64(b"5 "), None);
}

#[test]
fn round_trip_marker_becomes_space() {
    // "hi 5" and "\u{2581}world 6": id 5 maps to "hi", id 6 to " world",
    // and [5, 6] detokenizes to "hi world".
    let text = format!("hi 5\n{}world 6\n", '\u{2581}');
    let v = Vocabulary::parse(text.as_bytes()).unwrap();
    assert_eq!(v.size(), 2);
    assert_eq!(v.decode(&vec![5]), b"hi".to_vec());
    assert_eq!(v.decode(&vec![6]), b"world".to_vec()); // leading space trimmed
    assert_eq!(v.decode(&vec![5, 6]), b"hi world".to_vec());
}

#[test]
fn unknown_ids_are_silently_dropped() {
    let text = format!("hi 5\n{}world 6\n", '\u{2581}');
    let v = Vocabulary::parse(text.as_bytes()).unwrap();
    assert_eq!(v.decode(&vec![5, 999, 6]), b"hi world".to_vec());
    assert_eq!(v.decode(&vec![999]), b"".to_vec());
    assert_eq!(v.decode(&vec![]), b"".to_vec());
}

#[test]
fn blank_token_sets_blank_id() {
    let v = Vocabulary::parse(b"a 1\n<blk> 3\nb 2\n").unwrap();
    assert_eq!(v.blank_id(), 3);
    assert_eq!(v.size(), 3);
}

#[test]
fn blank_id_defaults_to_zero() {
    let v = Vocabulary::parse(b"a 1\n").unwrap();
    assert_eq!(v.blank_id(), 0);
}

#[test]
fn short_lines_are_skipped() {
    let v = Vocabulary::parse(b"justatoken\n\n   \na 1\n").unwrap();
    assert_eq!(v.size(), 1);
    assert_eq!(v.decode(&vec![1]), b"a".to_vec());
}

#[test]
fn bad_id_field_is_refused() {
    let r = Vocabulary::parse(b"a 1\nb xyz\nc 2\n");
    match r {
        Err(SttError::InvalidVocabEntry { field }) => assert_eq!(field, b"xyz".to_vec()),
        _ => panic!("expected InvalidVocabEntry"),
    }
}

#[test]
fn later_entry_overwrites_earlier_id() {
    let v = Vocabulary::parse(b"a 1\nb 1\n").unwrap();
    assert_eq!(v.size(), 1);
    assert_eq!(v.decode(&vec![1]), b"b".to_vec());
}

#[test]
fn negative_ids_are_accepted() {
    let v = Vocabulary::parse(b"neg -5\n").unwrap();
    assert_eq!(v.decode(&vec![-5]), b"neg".to_vec());
}

#[test]
fn whitespace_runs_collapse_in_decoded_text() {
    let text = format!("{m}a 1\n{m}{m}b 2\n", m = '\u{2581}');
    let v = Vocabulary::parse(text.as_bytes()).unwrap();
    // " a" + "  b" normalizes to "a b".
    assert_eq!(v.decode(&vec![1, 2]), b"a b".to_vec());
}

#[test]
fn lines_are_trimmed_and_tabs_separate_fields() {
    let v = Vocabulary::parse(b"  a\t1  \r\n").unwrap();
    assert_eq!(v.size(), 1);
    assert_eq!(v.decode(&vec![1]), b"a".to_vec());
}

#[test]
fn marker_inside_token_becomes_inner_space() {
    let text = format!("x{}y 4\n", '\u{2581}');
    let v = Vocabulary::parse(text.as_bytes()).unwrap();
    assert_eq!(v.decode(&vec![4]), b"x y".to_vec());
}
