use clipstack::text::{bytes_to_hex, i64_to_string, parse_i64_or_default, str_eq, make_preview};

#[test]
fn test_parse_matches_std() {
    let cases = [
        "0",
        "42",
        "-42",
        "+7",
        "",
        "-",
        "+",
        "12a",
        "a12",
        " 12",
        "00042",
        "-00012",
        "9223372036854775807",
        "-9223372036854775808",
        "9223372036854775808",
        "-9223372036854775809",
        "99999999999999999999999999",
    ];
    for s in cases {
        assert_eq!(
            parse_i64_or_default(s),
            s.parse::<i64>().unwrap_or(0),
            "parsing {:?}",
            s
        );
    }
}

#[test]
fn test_decimal_matches_std() {
    let cases = [0i64, 7, -7, 10, 99, -100, 1000, i64::MAX, i64::MIN];
    for n in cases {
        assert_eq!(i64_to_string(n), n.to_string());
    }
}

#[test]
fn test_bytes_to_hex() {
    assert_eq!(bytes_to_hex(&vec![]), "");
    assert_eq!(bytes_to_hex(&vec![0x00, 0xff, 0x1a]), "00ff1a");
    assert_eq!(bytes_to_hex(&vec![0xab, 0xcd, 0xef]), "abcdef");
}

#[test]
fn test_str_eq_by_characters() {
    assert!(str_eq("", ""));
    assert!(str_eq("héllo 🎉", "héllo 🎉"));
    assert!(!str_eq("abc", "abd"));
    assert!(!str_eq("abc", "ab"));
}

#[test]
fn test_make_preview_sanitizes_and_cuts() {
    assert_eq!(make_preview("a\tb\nc"), "a b c");
    let long = "é".repeat(250);
    let preview = make_preview(&long);
    assert_eq!(preview.chars().count(), 100);
    assert_eq!(preview, "é".repeat(100));
    // The DEL and C1 control characters are sanitized too
    assert_eq!(make_preview("x\u{7f}y\u{9f}z"), "x y z");
    // But ordinary non-ASCII text is kept
    assert_eq!(make_preview("日本語"), "日本語");
}
