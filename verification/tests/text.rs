use redextract::text::{decimal_bytes, ends_with, push_all, starts_with};

#[test]
fn decimal_rendering() {
    assert_eq!(decimal_bytes(0), b"0");
    assert_eq!(decimal_bytes(7), b"7");
    assert_eq!(decimal_bytes(10), b"10");
    assert_eq!(decimal_bytes(65536), b"65536");
    assert_eq!(decimal_bytes(u64::MAX as u128 + 1), b"18446744073709551616");
}

#[test]
fn suffix_and_prefix_tests() {
    assert!(ends_with(b"tex.btf", b".btf"));
    assert!(!ends_with(b"tex.bt", b".btf"));
    assert!(!ends_with(b"bt", b".btf"));
    assert!(ends_with(b"", b""));
    assert!(starts_with(b"railbtm2a.btf", b"railbtm2"));
    assert!(!starts_with(b"rail", b"railbtm2"));
}

#[test]
fn push_all_appends() {
    let mut out = vec![1u8, 2];
    push_all(&mut out, &[3, 4]);
    assert_eq!(out, vec![1, 2, 3, 4]);
}
