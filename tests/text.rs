use mrdm::text::{decimal, parse_id, split_commas};

#[test]
fn parse_id_reads_decimal_digits() {
    assert_eq!(parse_id("0"), Some(0));
    assert_eq!(parse_id("42"), Some(42));
    assert_eq!(parse_id("007"), Some(7));
    assert_eq!(parse_id("18446744073709551615"), Some(u64::MAX));
}

#[test]
fn parse_id_rejects_other_text() {
    assert_eq!(parse_id(""), None);
    assert_eq!(parse_id("4a"), None);
    assert_eq!(parse_id("-1"), None);
    assert_eq!(parse_id("18446744073709551616"), None);
}

#[test]
fn split_commas_keeps_empty_pieces() {
    assert_eq!(split_commas("a,b"), vec!["a".to_string(), "b".to_string()]);
    assert_eq!(split_commas(""), vec!["".to_string()]);
    assert_eq!(split_commas(",x,"), vec!["".to_string(), "x".to_string(), "".to_string()]);
    assert_eq!(split_commas("é,ü"), vec!["é".to_string(), "ü".to_string()]);
}

#[test]
fn decimal_writes_plain_digits() {
    assert_eq!(decimal(0), "0");
    assert_eq!(decimal(7), "7");
    assert_eq!(decimal(1203), "1203");
    assert_eq!(decimal(u64::MAX), "18446744073709551615");
}
