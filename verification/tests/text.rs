use usbmon_collector::text::{
    chars_of, parse_unsigned, push_decimal, push_padded, starts_with, string_of, trim, white_space,
};

#[test]
fn trim_matches_the_standard_library() {
    for s in ["", " ", "a", " a ", "\ta b\n", "\u{a0}x\u{3000}", "\u{200b}x", "\u{85}\u{2028}", "1-1\n"] {
        assert_eq!(trim(s), s.trim());
        assert_eq!(trim(&trim(s)), s.trim());
    }
}

#[test]
fn white_space_matches_the_standard_library() {
    for code in 0..0x11_0000u32 {
        if let Some(c) = char::from_u32(code) {
            assert_eq!(white_space(c), c.is_whitespace(), "{:x}", code);
        }
    }
}

#[test]
fn unsigned_numbers_are_read() {
    assert_eq!(parse_unsigned("0", 255), Some(0));
    assert_eq!(parse_unsigned("+7", 255), Some(7));
    assert_eq!(parse_unsigned("00000000000000000000000255", 255), Some(255));
    assert_eq!(parse_unsigned("256", 255), None);
    assert_eq!(parse_unsigned("18446744073709551615", u64::MAX), Some(u64::MAX));
    assert_eq!(parse_unsigned("18446744073709551616", u64::MAX), None);
    for s in ["", "+", "-1", "-0", " 1", "1 ", "1_0", "0x1", "++1", "1+", "\u{663}"] {
        assert_eq!(parse_unsigned(s, u64::MAX), None);
    }
}

#[test]
fn unsigned_numbers_are_read_like_the_standard_library() {
    for s in ["", "+", "+1", "-1", "12", "65535", "65536", "065535", "9x", "4294967296"] {
        assert_eq!(parse_unsigned(s, u16::MAX as u64), s.parse::<u16>().ok().map(u64::from));
        assert_eq!(parse_unsigned(s, u8::MAX as u64), s.parse::<u8>().ok().map(u64::from));
        assert_eq!(parse_unsigned(s, u64::MAX), s.parse::<u64>().ok());
    }
}

#[test]
fn decimals_are_written_and_read_back() {
    for n in [0, 1, 9, 10, 99, 100, 12_345, u64::MAX - 1, u64::MAX] {
        let mut s = String::from("n=");
        push_decimal(&mut s, n);
        assert_eq!(s, format!("n={}", n));
        assert_eq!(parse_unsigned(&s[2..], u64::MAX), Some(n));
    }
}

#[test]
fn padding_fills_up_to_the_width() {
    for (n, width, expected) in [(7, 2, "07"), (0, 2, "00"), (123, 2, "123"), (987, 4, "0987"), (5, 0, "5")] {
        let mut s = String::new();
        push_padded(&mut s, n, width);
        assert_eq!(s, expected);
    }
}

#[test]
fn prefixes_are_recognised() {
    assert!(starts_with("usbmon1", "usbmon"));
    assert!(starts_with("usbmon", "usbmon"));
    assert!(starts_with("x", ""));
    assert!(!starts_with("usbmo", "usbmon"));
    assert!(!starts_with("Usbmon1", "usbmon"));
}

#[test]
fn characters_and_strings_convert() {
    let chars = chars_of("a\u{e9}\u{1f600}z");
    assert_eq!(chars, vec!['a', '\u{e9}', '\u{1f600}', 'z']);
    assert_eq!(string_of(&chars, 1, 3), "\u{e9}\u{1f600}");
}
