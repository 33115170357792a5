//! JSON5: what its lexical extensions accept, and its targets.

use jqf_codec_json::byte_scan::trivia_prefix_len;
use jqf_codec_json::encode::{FactPreservation, JsonEncoder};
use jqf_codec_json::error::CodecFailureKind;
use jqf_codec_json::factory::RequestOptions;
use jqf_codec_json::grammar::{commented_grammar, JsonGrammar};
use jqf_codec_json::json5::{
    create_factory, expect_target, json5_spec, DOCUMENT_DIALECT_ID, FORMAT_ID, JQF_1_0_DIALECT_ID, JQF_DIALECT_ID,
};
use jqf_codec_json::lex::{convert_hex_literal, nonfinite_literal, nonfinite_spelling_len, NonFinite, MAX_HEX_DIGITS};
use jqf_codec_json::value::{Item, Member, NumberText, Value};

fn json5_grammar() -> JsonGrammar {
    commented_grammar(true, true, false)
}

fn item(value: Value) -> Item {
    Item { comments: Vec::new(), value }
}

fn number(text: &str) -> Value {
    Value::Number(NumberText::Integer(String::from(text)))
}

fn encode_under(dialect: &str, value: Value) -> Vec<u8> {
    let config = create_factory(FORMAT_ID, dialect, RequestOptions::Absent, 64).expect("json5 factory");
    let mut encoder = JsonEncoder::new(config, FactPreservation::Exact);
    let mut bytes = Vec::new();
    encoder.encode(&item(value), b"", &mut bytes).expect("encode");
    bytes
}

/// JSON5's one rendering never writes a trailing comma.
#[test]
fn json5_encode_never_writes_a_trailing_comma() {
    let array = Value::Array(vec![item(number("1")), item(number("2"))]);
    assert_eq!(encode_under(DOCUMENT_DIALECT_ID, array), &b"[1,2]"[..]);
}

/// The output profile renders CANONICAL JSON: quoted keys, decimal numbers, no trailing commas.
#[test]
fn encode_via_the_jqf_dialect_round_trips_canonical_json() {
    let value = Value::Object(vec![
        Member { key: String::from("name"), item: item(Value::Text(String::from("ada"))) },
        Member { key: String::from("id"), item: item(number("16")) },
    ]);
    assert_eq!(encode_under(JQF_DIALECT_ID, value), &b"{\"name\":\"ada\",\"id\":16}"[..]);
}

/// The UTF-8 byte-order mark is JSON5 whitespace.
#[test]
fn a_byte_order_mark_is_whitespace() {
    let marked = b"\xef\xbb\xbf{'a':1}";
    assert_eq!(trivia_prefix_len(marked, json5_grammar(), None), Ok((3, false)));
    assert_eq!(trivia_prefix_len(b"{'a':1}", json5_grammar(), None), Ok((0, false)));
    assert_eq!(trivia_prefix_len(marked, JsonGrammar::strict(), None), Ok((0, false)));
}

/// U+2028/U+2029 join the JSON5 whitespace set beside U+FEFF: each separates tokens wherever RFC 8259 whitespace may
/// stand.
#[test]
fn line_separator_whitespace_is_accepted() {
    let text = "{\u{2028}\"a\": [1, 2]\u{2029}}".as_bytes();
    assert_eq!(trivia_prefix_len(&text[1..], json5_grammar(), None), Ok((3, false)));
    let tail = text.len() - 4;
    assert_eq!(trivia_prefix_len(&text[tail..], json5_grammar(), None), Ok((3, false)));
    assert_eq!(text[tail + 3], b'}');
    assert_eq!(
        trivia_prefix_len(" \u{2028}\u{2029} \u{feff}x".as_bytes(), json5_grammar(), None),
        Ok((11, false))
    );
}

/// A block comment that never closes leaves the scan inside it.
#[test]
fn tests_unterminated_comment_is_rejected() {
    let bytes = b"{\"a\": 1 /* never closes}";
    assert_eq!(trivia_prefix_len(&bytes[7..], json5_grammar(), None), Ok((bytes.len() - 7, true)));
    assert_eq!(
        trivia_prefix_len(&bytes[7..], commented_grammar(true, false, false), None),
        Ok((bytes.len() - 7, true))
    );
}

/// A complete non-finite spelling butted against a non-boundary byte is ONE malformed token (`nanx`), never NaN followed
/// by junk.
#[test]
fn nonfinite_spelling_butted_against_a_byte_is_one_malformed_token() {
    for bytes in [&b"nanx"[..], b"snanx", b"infx", b"infinityx", b"nan1"] {
        assert_eq!(nonfinite_spelling_len(bytes, 0), None, "{bytes:?}: one malformed token");
        assert_eq!(nonfinite_literal(bytes, 0, false), None, "{bytes:?}: one malformed token");
    }
}

/// The value of a whole non-finite token, sign included.
fn nonfinite(bytes: &[u8]) -> Option<NonFinite> {
    let negative = bytes[0] == b'-';
    let start = if negative || bytes[0] == b'+' { 1 } else { 0 };
    match nonfinite_literal(bytes, start, negative) {
        Some((value, len)) if start + len == bytes.len() => Some(value),
        _ => None,
    }
}

/// Every casing of `nan`, `snan`, `inf`, `infinity` is a spelling, signed forms included; every NaN spelling is the ONE
/// NaN regardless of sign, while the infinities are sign-sensitive and distinct from NaN.
#[test]
fn nonfinite_spelling_breadth_is_case_insensitive_and_sign_aware() {
    for bytes in [
        &b"nan"[..],
        b"NaN",
        b"NAN",
        b"nAn",
        b"snan",
        b"sNaN",
        b"SNAN",
        b"Snan",
        b"inf",
        b"INF",
        b"Infinity",
        b"iNFiNiTy",
        b"INFINITY",
        b"-nan",
        b"+nan",
        b"-sNaN",
        b"+Infinity",
        b"-INFINITY",
    ] {
        assert!(nonfinite(bytes).is_some(), "{bytes:?} must decode");
    }
    // One NaN value across every spelling.
    assert_eq!(nonfinite(b"nan"), nonfinite(b"NAN"));
    assert_eq!(nonfinite(b"nan"), nonfinite(b"sNaN"));
    assert_eq!(nonfinite(b"nan"), nonfinite(b"-SNAN"));
    // Infinities are sign-sensitive and not NaN.
    assert_eq!(nonfinite(b"inf"), nonfinite(b"+Infinity"));
    assert_eq!(nonfinite(b"-inf"), nonfinite(b"-INFINITY"));
    assert_ne!(nonfinite(b"inf"), nonfinite(b"-inf"));
    assert_ne!(nonfinite(b"inf"), nonfinite(b"nan"));
}

/// A hex integer is grammar-valid at any length, but the exact-conversion cap refuses beyond it — one refusal naming the
/// hex bound, never a silent rounding step.
#[test]
fn hex_literal_past_the_exact_conversion_cap_is_rejected() {
    let mut literal = Vec::from(&b"0x"[..]);
    literal.extend(vec![b'7'; MAX_HEX_DIGITS + 1]);
    let error = convert_hex_literal(&literal, 2, literal.len()).expect_err("past the cap");
    assert!(
        error.message.contains("hex literal"),
        "the refusal must name the hex bound: {error:?}"
    );
    assert!(convert_hex_literal(&literal, 3, literal.len()).is_ok());
    assert_eq!(convert_hex_literal(b"0x10", 2, 4).map_err(|error| error.code), Ok(String::from("16")));
}

#[test]
fn json5_targets_and_the_one_input_dialect() {
    for dialect in [DOCUMENT_DIALECT_ID, JQF_DIALECT_ID, JQF_1_0_DIALECT_ID] {
        assert_eq!(expect_target(FORMAT_ID, dialect), Ok(()));
    }
    assert_eq!(expect_target(FORMAT_ID, "json5.source@1"), Err(CodecFailureKind::RequirementMismatch));
    let spec = json5_spec(DOCUMENT_DIALECT_ID).expect("the document dialect");
    assert!(spec.trailing_commas && spec.json5 && !spec.consume_bom);
    assert_eq!(json5_spec(JQF_DIALECT_ID), Err(CodecFailureKind::RequirementMismatch));
    assert!(matches!(
        create_factory("jsonc", DOCUMENT_DIALECT_ID, RequestOptions::Absent, 64),
        Err(CodecFailureKind::RequirementMismatch)
    ));
    assert!(matches!(
        create_factory(FORMAT_ID, DOCUMENT_DIALECT_ID, RequestOptions::Foreign, 64),
        Err(CodecFailureKind::RequirementMismatch)
    ));
}
