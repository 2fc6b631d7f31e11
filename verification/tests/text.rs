use ttyseq::text::{
    chars_of, int_error_message, is_whitespace, parse_unsigned, parse_unsigned_trimmed, same_text,
    text_contains, trim_bounds, IntErrorKind,
};

fn std_kind(e: &std::num::ParseIntError) -> IntErrorKind {
    match e.kind() {
        std::num::IntErrorKind::Empty => IntErrorKind::Empty,
        std::num::IntErrorKind::InvalidDigit => IntErrorKind::InvalidDigit,
        std::num::IntErrorKind::PosOverflow => IntErrorKind::PosOverflow,
        other => panic!("unexpected kind {other:?}"),
    }
}

fn ours(s: &str, max: u64) -> Result<u64, IntErrorKind> {
    parse_unsigned(&chars_of(s), max)
}

#[test]
fn agrees_with_std_on_u32() {
    let cases = [
        "", "+", "-", "0", "12", "+12", "-12", "-0", "1a", "a1", " 1", "1 ", "4294967295",
        "4294967296", "99999999999x", "x99999999999", "00000000000000000000042", "++1", "+-1",
        "١٢", "3\u{00e9}", "+4294967295", "18446744073709551616",
    ];
    for s in cases {
        let expected = s.parse::<u32>().map(|v| v as u64).map_err(|e| std_kind(&e));
        assert_eq!(ours(s, u32::MAX as u64), expected, "input {s:?}");
    }
}

#[test]
fn agrees_with_std_on_u16_and_u64() {
    let cases = ["65535", "65536", "70000", "18446744073709551615", "18446744073709551616", "7"];
    for s in cases {
        let e16 = s.parse::<u16>().map(|v| v as u64).map_err(|e| std_kind(&e));
        assert_eq!(ours(s, u16::MAX as u64), e16, "u16 {s:?}");
        let e64 = s.parse::<u64>().map_err(|e| std_kind(&e));
        assert_eq!(ours(s, u64::MAX), e64, "u64 {s:?}");
    }
}

#[test]
fn error_messages_match_std() {
    for (s, kind) in [
        ("", IntErrorKind::Empty),
        ("x", IntErrorKind::InvalidDigit),
        ("99999999999", IntErrorKind::PosOverflow),
    ] {
        let e = s.parse::<u32>().unwrap_err();
        assert_eq!(std_kind(&e), kind);
        assert_eq!(int_error_message(kind), e.to_string());
    }
}

#[test]
fn trimming_follows_std() {
    for s in [" 4096\n", "\t\u{3000}12\u{a0}", "   ", "", "x y", "\u{2028}7\u{85}"] {
        let cs = chars_of(s);
        let (lo, hi) = trim_bounds(&cs);
        let got: String = cs[lo..hi].iter().collect();
        assert_eq!(got, s.trim(), "input {s:?}");
    }
    assert_eq!(parse_unsigned_trimmed(&chars_of(" 4096\n"), u64::MAX), Ok(4096));
    assert_eq!(parse_unsigned_trimmed(&chars_of(" \n "), u64::MAX), Err(IntErrorKind::Empty));
}

#[test]
fn whitespace_matches_std() {
    for u in 0u32..0x3100 {
        if let Some(c) = char::from_u32(u) {
            assert_eq!(is_whitespace(c), c.is_whitespace(), "char {u:#x}");
        }
    }
}

#[test]
fn text_search() {
    assert!(text_contains("x", ""));
    assert!(text_contains("plughw:CARD=Pro71993645,DEV=0", "Pro7199"));
    assert!(!text_contains("plughw", "plughw:"));
    assert!(text_contains("abc", "abc"));
    assert!(text_contains("abc", "c"));
    assert!(!text_contains("abc", "ac"));
    assert!(same_text("--list", "--list"));
    assert!(!same_text("--list", "--lis"));
    assert!(!same_text("--list", "--lisT"));
}
