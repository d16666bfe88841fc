use supplychain::encoding::{append_bytes, push_decimal, push_decimal_text};

#[test]
fn decimal_of_single_digit() {
    let mut out = Vec::new();
    push_decimal(&mut out, 0);
    assert_eq!(out, b"0".to_vec());
    let mut out = Vec::new();
    push_decimal(&mut out, 9);
    assert_eq!(out, b"9".to_vec());
}

#[test]
fn decimal_of_larger_numbers() {
    let mut out = b"x=".to_vec();
    push_decimal(&mut out, 10);
    assert_eq!(out, b"x=10".to_vec());
    let mut out = Vec::new();
    push_decimal(&mut out, u64::MAX);
    assert_eq!(out, b"18446744073709551615".to_vec());
}

#[test]
fn decimal_text_appends_digits() {
    let mut text = String::from("PoW: ");
    push_decimal_text(&mut text, 1234567890);
    assert_eq!(text, "PoW: 1234567890");
}

#[test]
fn append_bytes_concatenates() {
    let mut out = vec![1u8, 2];
    append_bytes(&mut out, &[3, 4, 5]);
    assert_eq!(out, vec![1, 2, 3, 4, 5]);
    append_bytes(&mut out, &[]);
    assert_eq!(out, vec![1, 2, 3, 4, 5]);
}
