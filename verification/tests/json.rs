use usbmon_collector::json::{json_escape, json_string};

#[test]
fn special_characters_are_escaped() {
    assert_eq!(json_escape("\""), "\\\"");
    assert_eq!(json_escape("\\"), "\\\\");
    assert_eq!(json_escape("\n"), "\\n");
    assert_eq!(json_escape("\r"), "\\r");
    assert_eq!(json_escape("\t"), "\\t");
    assert_eq!(json_escape("a \"b\"\n\\c"), "a \\\"b\\\"\\n\\\\c");
}

#[test]
fn other_characters_are_kept() {
    for s in ["", "USB Audio Device", "caf\u{e9} \u{1f50c}", "/'{}[]:,", "\u{1}\u{7f}"] {
        assert_eq!(json_escape(s), s);
    }
}

#[test]
fn escaping_in_pieces_is_escaping_the_whole() {
    for (a, b) in [("x\"", "\ny"), ("", "\\"), ("plain", "\t")] {
        let whole = format!("{}{}", a, b);
        assert_eq!(json_escape(&whole), format!("{}{}", json_escape(a), json_escape(b)));
    }
}

#[test]
fn an_escaped_text_reads_back() {
    let text = "tab\there \"quoted\" back\\slash\r\n";
    let escaped = json_escape(text);
    assert!(!escaped.contains('\n') && !escaped.contains('\r') && !escaped.contains('\t'));
    let mut read = String::new();
    let mut chars = escaped.chars();
    while let Some(c) = chars.next() {
        read.push(match c {
            '\\' => match chars.next() {
                Some('n') => '\n',
                Some('r') => '\r',
                Some('t') => '\t',
                Some(other) => other,
                None => panic!("lone backslash"),
            },
            '"' => panic!("bare quotation mark"),
            other => other,
        });
    }
    assert_eq!(read, text);
}

#[test]
fn a_string_has_every_control_character_escaped() {
    assert_eq!(json_string("\u{0}"), "\\u0000");
    assert_eq!(json_string("\u{1}\u{f}\u{10}\u{1f}"), "\\u0001\\u000f\\u0010\\u001f");
    assert_eq!(json_string("a\n\r\t\"\\b"), "a\\n\\r\\t\\\"\\\\b");
    assert_eq!(json_string("\u{8}\u{c}"), "\\u0008\\u000c");
}

#[test]
fn a_string_without_other_control_characters_is_merely_escaped() {
    for s in ["", "raspberrypi", "caf\u{e9} \u{1f50c}", "a\"b\\c\nd\re\tf", " \u{7f}\u{9f}"] {
        assert_eq!(json_string(s), json_escape(s));
    }
}

#[test]
fn every_control_character_reads_back() {
    for code in 0..0x20u32 {
        let c = char::from_u32(code).unwrap();
        let text = json_string(&format!("<{}>", c));
        let inner = &text[1..text.len() - 1];
        let read = match inner {
            "\\n" => '\n',
            "\\r" => '\r',
            "\\t" => '\t',
            _ => {
                assert!(inner.starts_with("\\u") && inner.len() == 6);
                char::from_u32(u32::from_str_radix(&inner[2..], 16).unwrap()).unwrap()
            }
        };
        assert_eq!(read, c);
    }
}
