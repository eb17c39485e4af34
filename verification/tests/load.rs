use tiktoken::catalog::CoreBPEConstructor;
use tiktoken::load::{parse_line, parse_rank};
use tiktoken::TiktokenError;

#[test]
fn payload_gives_its_entries() {
    let table = CoreBPEConstructor::parse_bfe("YQ== 0\nYg== 1\nYWI= 2\n").unwrap();
    assert_eq!(table.len(), 3);
    assert_eq!(table.get(&b"a".to_vec()), Some(&0));
    assert_eq!(table.get(&b"b".to_vec()), Some(&1));
    assert_eq!(table.get(&b"ab".to_vec()), Some(&2));
}

#[test]
fn payload_may_end_without_a_line_feed() {
    let table = CoreBPEConstructor::parse_bfe("YQ== 0\nYg== 17").unwrap();
    assert_eq!(table.len(), 2);
    assert_eq!(table.get(&b"b".to_vec()), Some(&17));
}

#[test]
fn payload_may_use_carriage_returns() {
    let table = CoreBPEConstructor::parse_bfe("YQ== 0\r\nYg== 1\r\n").unwrap();
    assert_eq!(table.len(), 2);
    assert_eq!(table.get(&b"a".to_vec()), Some(&0));
}

#[test]
fn empty_payload_gives_an_empty_table() {
    let table = CoreBPEConstructor::parse_bfe("").unwrap();
    assert_eq!(table.len(), 0);
}

#[test]
fn payload_with_a_field_that_is_no_base64_is_refused() {
    assert_eq!(CoreBPEConstructor::parse_bfe("YQ== 0\n!!!! 1\n").err(), Some(TiktokenError::MalformedMergeTable));
}

#[test]
fn payload_with_a_rank_that_is_no_number_is_refused() {
    assert_eq!(CoreBPEConstructor::parse_bfe("YQ== x\n").err(), Some(TiktokenError::MalformedMergeTable));
    assert_eq!(CoreBPEConstructor::parse_bfe("YQ== \n").err(), Some(TiktokenError::MalformedMergeTable));
    assert_eq!(CoreBPEConstructor::parse_bfe("YQ== -1\n").err(), Some(TiktokenError::MalformedMergeTable));
}

#[test]
fn payload_with_a_byte_string_twice_is_refused() {
    assert_eq!(CoreBPEConstructor::parse_bfe("YQ== 0\nYQ== 1\n").err(), Some(TiktokenError::MalformedMergeTable));
}

#[test]
fn payload_with_a_rank_twice_is_refused() {
    assert_eq!(CoreBPEConstructor::parse_bfe("YQ== 0\nYg== 0\n").err(), Some(TiktokenError::MalformedMergeTable));
}

#[test]
fn payload_with_an_empty_byte_string_is_refused() {
    assert_eq!(CoreBPEConstructor::parse_bfe(" 0\n").err(), Some(TiktokenError::MalformedMergeTable));
}

#[test]
fn payload_with_a_blank_line_is_refused() {
    assert_eq!(CoreBPEConstructor::parse_bfe("YQ== 0\n\nYg== 1\n").err(), Some(TiktokenError::MalformedMergeTable));
}

#[test]
fn payload_with_a_line_without_rank_is_refused() {
    assert_eq!(CoreBPEConstructor::parse_bfe("YQ==\n").err(), Some(TiktokenError::MalformedMergeTable));
}

#[test]
fn rank_is_read_in_decimal() {
    assert_eq!(parse_rank(b"0"), Some(0));
    assert_eq!(parse_rank(b"100257"), Some(100257));
    assert_eq!(parse_rank(b"007"), Some(7));
    assert_eq!(parse_rank(b""), None);
    assert_eq!(parse_rank(b"12a"), None);
    assert_eq!(parse_rank(b"+5"), None);
}

#[test]
fn rank_that_no_usize_holds_is_refused() {
    let max = usize::MAX.to_string();
    assert_eq!(parse_rank(max.as_bytes()), Some(usize::MAX));
    let over = format!("{}0", max);
    assert_eq!(parse_rank(over.as_bytes()), None);
    assert_eq!(parse_rank(b"99999999999999999999999999999999999999999"), None);
}

#[test]
fn line_is_read_as_key_and_rank() {
    assert_eq!(parse_line(b"aGVsbG8= 42"), Some((b"hello".to_vec(), 42)));
    assert_eq!(parse_line(b"aGVsbG8=42"), None);
    assert_eq!(parse_line(b"aGVsbG8= 42 7"), None);
}
