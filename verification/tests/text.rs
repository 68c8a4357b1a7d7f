use rsoup::text::{decimal_string, signed_decimal_string, str_equal, utf8_to_string};

#[test]
fn decimal_rendering() {
    assert_eq!(decimal_string(0), "0");
    assert_eq!(decimal_string(7), "7");
    assert_eq!(decimal_string(1234567890), "1234567890");
    assert_eq!(decimal_string(u64::MAX), u64::MAX.to_string());
    assert_eq!(signed_decimal_string(-5), "-5");
    assert_eq!(signed_decimal_string(i32::MIN as i64), "-2147483648");
    assert_eq!(signed_decimal_string(42), "42");
}

#[test]
fn string_slices_compare_by_characters() {
    assert!(str_equal("ping", "ping"));
    assert!(!str_equal("ping", "pin"));
    assert!(!str_equal("ping", "pong"));
    assert!(str_equal("", ""));
}

#[test]
fn utf8_decoding() {
    assert_eq!(utf8_to_string("año".as_bytes()).unwrap(), "año");
    assert_eq!(
        utf8_to_string(&[b'a', 0xFF]).unwrap_err(),
        "invalid utf-8 sequence of 1 bytes from index 1"
    );
}
