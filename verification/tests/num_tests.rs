use pombase_rnacentral::num::{check_float_text, parse_u32_text};

#[test]
fn test_unsigned_parsing() {
    assert_eq!(parse_u32_text("0"), Some(0));
    assert_eq!(parse_u32_text("7"), Some(7));
    assert_eq!(parse_u32_text("007"), Some(7));
    assert_eq!(parse_u32_text("+42"), Some(42));
    assert_eq!(parse_u32_text("4294967295"), Some(4294967295));
    assert_eq!(parse_u32_text("4294967296"), None);
    assert_eq!(parse_u32_text(""), None);
    assert_eq!(parse_u32_text("+"), None);
    assert_eq!(parse_u32_text("-1"), None);
    assert_eq!(parse_u32_text("1.0"), None);
    assert_eq!(parse_u32_text("12x"), None);
    assert_eq!(parse_u32_text(" 12"), None);
}

#[test]
fn test_float_literals_accepted() {
    assert!(check_float_text("0"));
    assert!(check_float_text("29.9"));
    assert!(check_float_text("-29.9"));
    assert!(check_float_text("+3.5"));
    assert!(check_float_text("1."));
    assert!(check_float_text(".5"));
    assert!(check_float_text("1e5"));
    assert!(check_float_text("1.1e-05"));
    assert!(check_float_text("2E+10"));
    assert!(check_float_text("inf"));
    assert!(check_float_text("-Inf"));
    assert!(check_float_text("Infinity"));
    assert!(check_float_text("NaN"));
    assert!(check_float_text("+nan"));
}

#[test]
fn test_float_literals_rejected() {
    assert!(!check_float_text(""));
    assert!(!check_float_text("."));
    assert!(!check_float_text("-"));
    assert!(!check_float_text("e5"));
    assert!(!check_float_text("1.2.3"));
    assert!(!check_float_text("1e"));
    assert!(!check_float_text("1e+"));
    assert!(!check_float_text("nanx"));
    assert!(!check_float_text("infinit"));
    assert!(!check_float_text("0x1"));
    assert!(!check_float_text("1 "));
    assert!(!check_float_text("--1"));
}
