use prtoolbar::text::{parse_u64, push_decimal, str_eq, trim};

#[test]
fn decimal_formatting() {
    let mut s = String::from("n=");
    push_decimal(&mut s, 0);
    assert_eq!(s, "n=0");
    let mut s = String::new();
    push_decimal(&mut s, 1_234_567_890);
    assert_eq!(s, "1234567890");
    let mut s = String::new();
    push_decimal(&mut s, u64::MAX);
    assert_eq!(s, u64::MAX.to_string());
}

#[test]
fn trimming_matches_std() {
    for text in ["", "  ", " a ", "\u{85}x\u{1680}", "\u{200b}x", "ä ö", "\n\t z\r\n"] {
        assert_eq!(trim(text), text.trim());
    }
}

#[test]
fn parsing_matches_std() {
    for text in ["", "0", "+7", "+", "-1", "42", " 1", "99999999999999999999", "12a", "٣"] {
        assert_eq!(parse_u64(text), text.parse::<u64>().ok(), "{text}");
    }
}

#[test]
fn string_equality_is_by_content() {
    assert!(str_eq("äb", "äb"));
    assert!(!str_eq("a", "ab"));
    assert!(!str_eq("é", "e"));
}
