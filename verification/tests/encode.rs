//! The encoder: bytes, styles, refusals and reports.

use jqf_codec_json::encode::{
    fact_preservation, FactPreservation, FactSource, JsonEncodeCursor, JsonEncoder, PreservationOutcome,
    PreservationReport,
};
use jqf_codec_json::error::CodecFailureKind;
use jqf_codec_json::factory::{
    create_compact_framed_factory, create_factory, create_prefixed_framed_factory, encode_options, RequestOptions,
};
use jqf_codec_json::options::{JsonEncodeOptions, JsonIndent};
use jqf_codec_json::value::{Item, Member, NumberText, Value};

fn item(value: Value) -> Item {
    Item { comments: Vec::new(), value }
}

fn text(text: &str) -> Value {
    Value::Text(String::from(text))
}

fn number(digits: &str) -> Value {
    Value::Number(NumberText::Integer(String::from(digits)))
}

fn member(key: &str, value: Value) -> Member {
    Member { key: String::from(key), item: item(value) }
}

fn encode_styled(value: Value, style: JsonEncodeOptions) -> Result<(Vec<u8>, PreservationReport), CodecFailureKind> {
    let config = create_prefixed_framed_factory(b"", b"", style, 64);
    let mut encoder = JsonEncoder::new(config, FactPreservation::Exact);
    let mut bytes = Vec::new();
    let report = encoder.encode(&item(value), b"", &mut bytes)?;
    Ok((bytes, report))
}

/// Encodes one owned value and returns the published bytes with the item's preservation report.
fn encode_owned(value: Value, style: JsonEncodeOptions) -> (Vec<u8>, PreservationReport) {
    encode_styled(value, style).expect("encode")
}

/// A tagged value publishes its payload bare, so the report must say the tag axis was NORMALIZED. The semantic axis stays
/// Exact: the payload's meaning is untouched.
#[test]
fn tagged_object_publish_reports_the_dropped_tag_normalized() {
    let payload = Value::Object(vec![member("amount", text("1"))]);
    let value = Value::Tagged(Box::new(payload));
    let (bytes, report) = encode_owned(value, JsonEncodeOptions::default());
    assert_eq!(bytes, br#"{"amount":"1"}"#);
    assert_eq!(report.semantic_values, PreservationOutcome::Exact);
    assert_eq!(report.tags_and_facts, PreservationOutcome::Normalized);
}

/// A non-finite float has no JSON literal; rendering it clamps the BYTES (`null` for NaN), so the semantic axis reads
/// Normalized while the tag axis stays Exact.
#[test]
fn non_finite_float_render_reports_semantic_values_normalized() {
    let value = Value::Number(NumberText::Float(String::from("null")));
    let (bytes, report) = encode_owned(value, JsonEncodeOptions::default());
    assert_eq!(bytes, b"null");
    assert_eq!(report.semantic_values, PreservationOutcome::Normalized);
    assert_eq!(report.tags_and_facts, PreservationOutcome::Exact);
}

/// A plain publish drops and normalizes nothing: both axes read Exact.
#[test]
fn plain_publish_reports_both_axes_exact() {
    let (bytes, report) = encode_owned(text("plain"), JsonEncodeOptions::default());
    assert_eq!(bytes, br#""plain""#);
    assert_eq!(report.semantic_values, PreservationOutcome::Exact);
    assert_eq!(report.tags_and_facts, PreservationOutcome::Exact);
}

/// The ascii arm spells a supplementary character as its SURROGATE PAIR, lowercase hex, high half first.
#[test]
fn ascii_output_escapes_an_astral_character_as_its_surrogate_pair() {
    let style = JsonEncodeOptions {
        ascii_output: true,
        ..JsonEncodeOptions::default()
    };
    let (bytes, _) = encode_owned(text("\u{1F600}"), style);
    assert_eq!(bytes, br#""\ud83d\ude00""#);
}

/// Two objects at the same depth each keep their own members.
#[test]
fn encoder_member_cache_distinguishes_objects_at_the_same_depth() {
    let value = Value::Object(vec![
        member("a", Value::Array(vec![item(Value::Object(vec![member("x", number("1"))]))])),
        member("f", Value::Array(vec![item(Value::Object(vec![member("y", number("2"))]))])),
    ]);
    let (bytes, _) = encode_owned(value, JsonEncodeOptions::default());
    assert_eq!(bytes, br#"{"a":[{"x":1}],"f":[{"y":2}]}"#);
}

fn nested() -> Value {
    Value::Object(vec![
        member("b", Value::Array(vec![item(number("1")), item(Value::Object(Vec::new())), item(Value::Array(Vec::new()))])),
        member("a", Value::Bool(false)),
        member("a", Value::Null),
    ])
}

#[test]
fn indentation_breaks_lines_and_leaves_empty_containers_closed() {
    let style = JsonEncodeOptions { indent: JsonIndent::Spaces(2), ..JsonEncodeOptions::default() };
    let (bytes, _) = encode_owned(nested(), style);
    assert_eq!(
        String::from_utf8(bytes).expect("utf8"),
        "{\n  \"b\": [\n    1,\n    {},\n    []\n  ],\n  \"a\": false,\n  \"a\": null\n}"
    );
    let style = JsonEncodeOptions { indent: JsonIndent::Tabs, ..JsonEncodeOptions::default() };
    let (bytes, _) = encode_owned(Value::Array(vec![item(number("7"))]), style);
    assert_eq!(bytes, b"[\n\t7\n]");
}

/// Sorted keys come in byte order, equal keys in document order, at every depth.
#[test]
fn sorted_keys_are_stable() {
    let style = JsonEncodeOptions { sort_keys: true, ..JsonEncodeOptions::default() };
    let (bytes, _) = encode_owned(nested(), style);
    assert_eq!(bytes, br#"{"a":false,"a":null,"b":[1,{},[]]}"#);
    let value = Value::Array(vec![item(Value::Object(vec![
        member("ab", number("1")),
        member("a", number("2")),
        member("B", number("3")),
        member("", number("4")),
    ]))]);
    let (bytes, _) = encode_owned(value, style);
    assert_eq!(bytes, br#"[{"":4,"B":3,"a":2,"ab":1}]"#);
}

#[test]
fn a_raw_root_string_is_verbatim_and_may_refuse_its_own_nul() {
    let style = JsonEncodeOptions { raw_strings: true, ..JsonEncodeOptions::default() };
    let (bytes, _) = encode_owned(text("a\"b\n"), style);
    assert_eq!(bytes, b"a\"b\n");
    let (bytes, _) = encode_owned(Value::Array(vec![item(text("a\"b"))]), style);
    assert_eq!(bytes, br#"["a\"b"]"#);
    let ascii = JsonEncodeOptions { ascii_output: true, ..style };
    let (bytes, _) = encode_owned(text("\u{e9}"), ascii);
    assert_eq!(bytes, br#""\u00e9""#);
    let guarded = JsonEncodeOptions { raw_output_nul: true, ..style };
    assert_eq!(encode_styled(text("a\0b"), guarded).map(|_| ()), Err(CodecFailureKind::RawNulByte));
    assert_eq!(encode_owned(text("ab"), guarded).0, b"ab");
    // Nothing of a refused text is staged or offered.
    let config = create_prefixed_framed_factory(b"\x1e", b"\n", guarded, 64);
    let mut encoder = JsonEncoder::new(config, FactPreservation::Exact);
    let refused = item(text("a\0b"));
    let mut sink = Vec::new();
    assert!(matches!(encoder.encode(&refused, b"", &mut sink), Err(CodecFailureKind::RawNulByte)));
    encoder.offer(&JsonEncodeCursor::new(&refused), &mut sink);
    assert!(sink.is_empty());
}

#[test]
fn nesting_past_the_limit_is_refused() {
    let config = create_compact_framed_factory(b"", 1);
    let mut encoder = JsonEncoder::new(config, FactPreservation::Exact);
    let mut bytes = Vec::new();
    assert!(encoder.encode(&item(Value::Array(vec![item(number("1"))])), b"", &mut bytes).is_ok());
    assert_eq!(bytes, b"[1]");
    encoder.reset(FactPreservation::Exact);
    let deep = item(Value::Array(vec![item(Value::Array(Vec::new()))]));
    assert!(matches!(encoder.encode(&deep, b"", &mut bytes), Err(CodecFailureKind::NestingLimit)));
    // The limit may be any number; only indentation that could not be addressed is refused.
    let style = JsonEncodeOptions { indent: JsonIndent::Spaces(255), ..JsonEncodeOptions::default() };
    let config = create_prefixed_framed_factory(b"", b"", style, usize::MAX);
    let mut wide = JsonEncoder::new(config, FactPreservation::Exact);
    bytes.clear();
    assert!(wide.encode(&deep, b"", &mut bytes).is_ok());
    assert_eq!(bytes, format!("[\n{}[]\n]", " ".repeat(255)).into_bytes());
}

/// Prefix and framing surround the root value; a raw-printed root string has no prefix.
#[test]
fn prefix_and_framing_surround_the_item() {
    let raw = JsonEncodeOptions { raw_strings: true, ..JsonEncodeOptions::default() };
    let mut encoder =
        JsonEncoder::new(create_prefixed_framed_factory(b"\x1e", b"\n", raw, 64), FactPreservation::Exact);
    let mut bytes = Vec::new();
    encoder.encode(&item(number("1")), b"", &mut bytes).expect("encode");
    encoder.reset(FactPreservation::Exact);
    encoder.encode(&item(text("s")), b"!", &mut bytes).expect("encode");
    assert_eq!(bytes, b"\x1e1\ns\n!");
}

/// A long text and a long number are written in many steps, with the bytes of one.
#[test]
fn stepping_writes_the_same_bytes() {
    let long = "x\u{e9}\"".repeat(9000);
    let value = Value::Object(vec![
        member(&long, text(&long)),
        member("n", Value::Number(NumberText::Decimal(vec![String::from("0."), "7".repeat(1000), String::from("E-3")]))),
    ]);
    let whole = encode_owned(value, JsonEncodeOptions::default()).0;
    let value = item(Value::Object(vec![
        member(&long, text(&long)),
        member("n", Value::Number(NumberText::Decimal(vec![String::from("0."), "7".repeat(1000), String::from("E-3")]))),
    ]));
    let config = create_compact_framed_factory(b"", 64);
    let mut encoder = JsonEncoder::new(config, FactPreservation::Exact);
    let mut cursor = JsonEncodeCursor::new(&value);
    let mut stepped = Vec::new();
    while !encoder.is_finished() {
        assert_eq!(encoder.run(&mut cursor, 1), Ok(1));
        encoder.offer(&cursor, &mut stepped);
    }
    assert_eq!(encoder.run(&mut cursor, 1), Ok(0));
    assert_eq!(stepped, whole);
}

/// A recycled encoder writes what a fresh one would, and one of another style is left alone.
#[test]
fn a_recycled_encoder_is_a_fresh_one() {
    let style = JsonEncodeOptions { indent: JsonIndent::Spaces(1), ..JsonEncodeOptions::default() };
    let config = create_prefixed_framed_factory(b"", b"\n", style, 1);
    let same = create_prefixed_framed_factory(b"", b"\n", style, 1);
    let other = create_prefixed_framed_factory(b"", b"\r\n", style, 1);
    let mut encoder = JsonEncoder::new(config, FactPreservation::Exact);
    let mut bytes = Vec::new();
    let deep = item(Value::Array(vec![item(number("5")), item(Value::Array(Vec::new()))]));
    assert!(encoder.encode(&deep, b"", &mut bytes).is_err());
    assert!(!encoder.restart(&other, FactPreservation::Exact));
    assert!(encoder.restart(&same, FactPreservation::Omitted));
    bytes.clear();
    let report = encoder.encode(&item(Value::Array(vec![item(number("5"))])), b"", &mut bytes).expect("encode");
    assert_eq!(bytes, b"[\n 5\n]\n");
    assert_eq!(report.tags_and_facts, PreservationOutcome::Omitted);
    // The nesting limit is the coming item's.
    let deeper = create_prefixed_framed_factory(b"", b"\n", style, 64);
    assert!(encoder.restart(&deeper, FactPreservation::Exact));
    bytes.clear();
    assert!(encoder.encode(&deep, b"", &mut bytes).is_ok());
    assert!(encoder.restart_commented(style, true, 1, FactPreservation::Exact));
    assert!(matches!(encoder.encode(&deep, b"", &mut bytes), Err(CodecFailureKind::NestingLimit)));
    assert!(encoder.restart_commented(style, true, 64, FactPreservation::Exact));
    bytes.clear();
    let commented = Item {
        comments: vec![String::from("lead")],
        value: Value::Array(vec![Item { comments: vec![String::from("one\n\ntwo")], value: number("5") }]),
    };
    encoder.encode(&commented, b"", &mut bytes).expect("encode");
    assert_eq!(
        String::from_utf8(bytes).expect("utf8"),
        "// lead\n[\n // one\n //\n // two\n 5,\n]\n"
    );
    assert!(!encoder.restart_commented(JsonEncodeOptions::default(), true, 64, FactPreservation::Exact));
}

#[test]
fn requests_name_their_target_and_options() {
    let style = JsonEncodeOptions { sort_keys: true, ..JsonEncodeOptions::default() };
    assert_eq!(encode_options(RequestOptions::Absent), Ok(JsonEncodeOptions::default()));
    assert_eq!(encode_options(RequestOptions::Json(style)), Ok(style));
    assert_eq!(encode_options(RequestOptions::Foreign), Err(CodecFailureKind::RequirementMismatch));
    let config = create_factory("f", "d", "f", "d", RequestOptions::Json(style), 8).expect("target");
    assert_eq!(config.render.options, style);
    assert!(!config.emits_canonical_form());
    assert!(create_factory("f", "d", "f", "d", RequestOptions::Absent, 8).expect("target").emits_canonical_form());
    assert!(matches!(
        create_factory("f", "d", "f", "e", RequestOptions::Absent, 8),
        Err(CodecFailureKind::RequirementMismatch)
    ));
    assert!(matches!(
        create_factory("f", "d", "f", "d", RequestOptions::Foreign, 8),
        Err(CodecFailureKind::RequirementMismatch)
    ));
}

#[test]
fn facts_are_exact_where_there_are_none() {
    assert_eq!(fact_preservation(FactSource::Owned), FactPreservation::Exact);
    assert_eq!(fact_preservation(FactSource::Located { count: None, root: true }), FactPreservation::Exact);
    assert_eq!(fact_preservation(FactSource::Located { count: Some(0), root: false }), FactPreservation::Exact);
    assert_eq!(fact_preservation(FactSource::Located { count: Some(2), root: true }), FactPreservation::Omitted);
    assert_eq!(fact_preservation(FactSource::Located { count: Some(2), root: false }), FactPreservation::Indeterminate);
}
