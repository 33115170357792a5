//! The string escape law.

use jqf_codec_json::json_escape::json_simple_unescape;
use jqf_codec_json::{json_escape_byte, push_json_escaped};

#[test]
fn json_simple_unescape_covers_the_short_forms() {
    assert_eq!(json_simple_unescape(b'"'), Some('"'));
    assert_eq!(json_simple_unescape(b'\\'), Some('\\'));
    assert_eq!(json_simple_unescape(b'/'), Some('/'));
    assert_eq!(json_simple_unescape(b'b'), Some('\u{8}'));
    assert_eq!(json_simple_unescape(b'f'), Some('\u{c}'));
    assert_eq!(json_simple_unescape(b'n'), Some('\n'));
    assert_eq!(json_simple_unescape(b'r'), Some('\r'));
    assert_eq!(json_simple_unescape(b't'), Some('\t'));
    assert_eq!(json_simple_unescape(b'u'), None);
    assert_eq!(json_simple_unescape(0x7f), None);
}

/// Every byte's escape matches the documented short forms, C0 `\u00XX`, and DEL `\u007f`.
#[test]
fn json_escape_table_matches_the_reference_law() {
    let digits = b"0123456789abcdef";
    for byte in 0_u8..=u8::MAX {
        let (len, text) = json_escape_byte(byte);
        let expected: &[u8] = match byte {
            b'"' => b"\\\"",
            b'\\' => b"\\\\",
            0x08 => b"\\b",
            0x09 => b"\\t",
            0x0a => b"\\n",
            0x0c => b"\\f",
            0x0d => b"\\r",
            0x00..=0x1f | 0x7f => {
                let hex = [
                    b'\\',
                    b'u',
                    b'0',
                    b'0',
                    digits[((byte >> 4) & 15) as usize],
                    digits[(byte & 15) as usize],
                ];
                assert_eq!(len, 6, "byte {byte:#04x}");
                assert_eq!(&text[..6], &hex, "byte {byte:#04x}");
                continue;
            }
            _ => {
                assert_eq!(len, 0, "byte {byte:#04x} passes through");
                continue;
            }
        };
        assert_eq!(len as usize, expected.len(), "byte {byte:#04x}");
        assert_eq!(&text[..expected.len()], expected, "byte {byte:#04x}");
    }
}

#[test]
fn escaping_appends_and_passes_plain_bytes_through() {
    let mut out = b"[".to_vec();
    push_json_escaped(&mut out, "a\"b\\c\n\u{7f}\u{e9}".as_bytes());
    assert_eq!(out, "[a\\\"b\\\\c\\n\\u007f\u{e9}".as_bytes());
}
