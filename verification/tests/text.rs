use sxhkd_visualiser::text::{strip_continuation, trim};

#[test]
fn trim_takes_white_space_from_both_ends() {
    assert_eq!(trim("  a b  "), "a b");
    assert_eq!(trim("a"), "a");
    assert_eq!(trim("\ta\n"), "a");
    assert_eq!(trim(" a"), "a");
    assert_eq!(trim("a "), "a");
}

#[test]
fn trim_of_nothing_but_white_space_is_empty() {
    assert_eq!(trim(""), "");
    assert_eq!(trim("   "), "");
    assert_eq!(trim("\u{2028}\u{85}"), "");
}

#[test]
fn trim_counts_characters_not_bytes() {
    assert_eq!(trim(" é "), "é");
    assert_eq!(trim("\u{3000}日本語 テキスト\u{a0}"), "日本語 テキスト");
    assert_eq!(trim("🦀 "), "🦀");
}

#[test]
fn trim_agrees_with_std() {
    for line in ["", " ", "x", " x", "x ", " x y ", "\u{a0}é\u{1680}", "\u{200b} ", "\r\n#\r\n"] {
        assert_eq!(trim(line), line.trim());
    }
}

#[test]
fn strip_continuation_takes_the_backslash_at_the_end() {
    assert_eq!(strip_continuation("value\\"), Some("value"));
    assert_eq!(strip_continuation("a\\\\"), Some("a\\"));
    assert_eq!(strip_continuation("\\\\\\"), Some("\\\\"));
    assert_eq!(strip_continuation("a\\b\\"), Some("a\\b"));
    assert_eq!(strip_continuation("a \\"), Some("a "));
    assert_eq!(strip_continuation("\\"), Some(""));
    assert_eq!(strip_continuation("é\\"), Some("é"));
}

#[test]
fn strip_continuation_of_a_closing_line_is_none() {
    assert_eq!(strip_continuation("value"), None);
    assert_eq!(strip_continuation(""), None);
    assert_eq!(strip_continuation("a\\b"), None);
    assert_eq!(strip_continuation("\\ "), None);
}

#[test]
fn strip_continuation_agrees_with_std() {
    for line in ["", "\\", "\\\\", "a", "a\\", "a\\\\\\", "\\a", "é\\ü\\", "a \\"] {
        assert_eq!(strip_continuation(line), line.strip_suffix('\\'));
    }
}

fn has_white_space_property(c: char) -> bool {
    matches!(
        c as u32,
        0x0009..=0x000D
            | 0x0020
            | 0x0085
            | 0x00A0
            | 0x1680
            | 0x2000..=0x200A
            | 0x2028
            | 0x2029
            | 0x202F
            | 0x205F
            | 0x3000
    )
}

#[test]
fn white_space_is_what_has_the_unicode_property() {
    let mut buffer = [0u8; 4];
    for code in 0..=0x10FFFFu32 {
        if let Some(c) = char::from_u32(code) {
            let line: &str = c.encode_utf8(&mut buffer);
            assert_eq!(trim(line).is_empty(), has_white_space_property(c), "U+{:04X}", code);
            assert_eq!(c.is_whitespace(), has_white_space_property(c), "U+{:04X}", code);
        }
    }
}

#[test]
fn characters_next_to_white_space_are_kept() {
    for line in ["\u{8}", "\u{e}", "\u{1f}", "!", "\u{84}", "\u{86}", "\u{180e}", "\u{200b}", "\u{feff}"] {
        assert_eq!(trim(line), line);
    }
}
