use osmium::text;

#[test]
fn digits_in_decimal() {
    let mut out: Vec<u8> = Vec::new();
    text::put_digits(&mut out, 0);
    text::put_str(&mut out, " ");
    text::put_digits(&mut out, u64::MAX);
    assert_eq!(out, b"0 18446744073709551615".to_vec());
}

#[test]
fn numbers_in_columns() {
    let mut out: Vec<u8> = Vec::new();
    text::put_right(&mut out, 45, 6);
    text::put_left(&mut out, 7, 3);
    text::put_right(&mut out, 1234567, 3);
    text::put_left(&mut out, 890, 1);
    text::put_blanks(&mut out, 2);
    assert_eq!(out, b"    457  1234567890  ".to_vec());
}

#[test]
fn ascii_bytes_are_text() {
    assert_eq!(text::ascii(b"ls -l"), "ls -l");
    assert!(text::same("abc", "abc"));
    assert!(!text::same("abc", "abd"));
}
