//! Character predicates.
use fast_wordpiece::{ascii_class, is_ascii_space, is_chinese_char, is_control, is_whitespace};

fn all_chars() -> Vec<char> {
    (0u32..0x110000).filter_map(char::from_u32).collect()
}

#[test]
fn white_space_is_the_unicode_property() {
    let listed = |c: char| {
        let r = c as u32;
        (0x9..=0xd).contains(&r)
            || [0x20, 0x85, 0xa0, 0x1680, 0x2028, 0x2029, 0x202f, 0x205f, 0x3000].contains(&r)
            || (0x2000..=0x200a).contains(&r)
    };
    for c in all_chars() {
        assert_eq!(is_whitespace(c), listed(c), "{c:?}");
        assert_eq!(is_whitespace(c), c.is_whitespace(), "{c:?}");
    }
}

#[test]
fn ascii_space_agrees_with_white_space() {
    for b in 0u8..=255 {
        let want = matches!(b, b' ' | b'\t' | b'\n' | 0x0b | 0x0c | b'\r');
        assert_eq!(is_ascii_space(b), want);
        if b < 0x80 {
            assert_eq!(is_ascii_space(b), is_whitespace(b as char));
        }
    }
}

#[test]
fn ascii_class_agrees_with_character_predicates() {
    for b in 0u8..0x80 {
        let c = b as char;
        let want = if c.is_whitespace() {
            1
        } else if c.is_ascii_punctuation() {
            2
        } else {
            0
        };
        assert_eq!(ascii_class(b), want, "{c:?}");
    }
    for b in 0x80u8..=255 {
        assert_eq!(ascii_class(b), 0);
    }
}

#[test]
fn control_characters() {
    for c in ['\t', '\n', '\r', ' ', 'a', '\u{a0}', '\u{fffd}', 'é', '中'] {
        assert!(!is_control(c), "{c:?}");
    }
    for c in ['\0', '\u{7}', '\u{b}', '\u{c}', '\u{1f}', '\u{7f}', '\u{85}', '\u{200b}', '\u{feff}', '\u{e000}'] {
        assert!(is_control(c), "{c:?}");
    }
    for b in 0u8..0x80 {
        let c = b as char;
        assert_eq!(is_control(c), c.is_ascii_control() && !matches!(c, '\t' | '\n' | '\r'));
    }
}

#[test]
fn ideograph_ranges() {
    for (from, to) in [
        (0x4E00, 0x9FFF),
        (0x3400, 0x4DBF),
        (0x20000, 0x2A6DF),
        (0x2A700, 0x2B73F),
        (0x2B740, 0x2B81F),
        (0x2B920, 0x2CEAF),
        (0xF900, 0xFAFF),
        (0x2F800, 0x2FA1F),
    ] {
        assert!(is_chinese_char(char::from_u32(from).unwrap()));
        assert!(is_chinese_char(char::from_u32(to).unwrap()));
    }
    for r in [0x33FF, 0x4DC0, 0x4DFF, 0xA000, 0xF8FF, 0xFB00, 0x1FFFF, 0x2A6E0, 0x2A6FF, 0x2B820, 0x2B91F, 0x2CEB0, 0x2F7FF, 0x2FA20] {
        assert!(!is_chinese_char(char::from_u32(r).unwrap()), "{r:x}");
    }
    assert!(!is_chinese_char('あ'));
    assert!(!is_chinese_char('안'));
}
