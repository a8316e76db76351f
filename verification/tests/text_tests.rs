use zhtta::text::{decimal_bytes, ends_with, find, split_bytes, starts_with};

#[test]
fn decimal_of_zero_and_port() {
    assert_eq!(decimal_bytes(0), b"0".to_vec());
    assert_eq!(decimal_bytes(4414), b"4414".to_vec());
    assert_eq!(decimal_bytes(u64::MAX), u64::MAX.to_string().into_bytes());
}

#[test]
fn split_keeps_empty_pieces() {
    let pieces = split_bytes(b"a<!--b--><!--", b"<!--");
    assert_eq!(pieces, vec![b"a".to_vec(), b"b-->".to_vec(), b"".to_vec()]);
    let one = split_bytes(b"plain", b"<!--");
    assert_eq!(one, vec![b"plain".to_vec()]);
}

#[test]
fn split_is_non_overlapping() {
    let pieces = split_bytes(b"x----->y", b"-->");
    assert_eq!(pieces, vec![b"x---".to_vec(), b"y".to_vec()]);
}

#[test]
fn find_and_affixes() {
    assert_eq!(find(b"abcabc", b"bc", 0), Some(1));
    assert_eq!(find(b"abcabc", b"bc", 2), Some(4));
    assert_eq!(find(b"abcabc", b"x", 0), None);
    assert!(starts_with(b"#exec cmd=\"ls\"", b"#exec cmd="));
    assert!(ends_with(b"/www/index.html", b".html"));
    assert!(!ends_with(b"html", b".html"));
}
