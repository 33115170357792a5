//! The option types: what they accept, and what they stand for.

use jqf_codec_json::error::CodecFailureKind;
use jqf_codec_json::options::{
    JsonEncodeOptions, JsonIndent, JsonSeqDecodeOptions, JsonSeqEncodeOptions, JsonSeqProfile, JsonSeqSuffix,
    NdjsonDecodeOptions, NdjsonEncodeOptions, NdjsonProfile, NdjsonTerminator, ValidationMode, VALUE_SEPARATORS,
};

#[test]
fn adjacent_value_skip_set_is_rfc_8259_whitespace() {
    assert_eq!(VALUE_SEPARATORS, b" \t\n\r");
}

#[test]
fn each_profile_pins_its_validation_mode() {
    assert_eq!(NdjsonProfile::Strict.validation(), ValidationMode::Strict);
    assert_eq!(NdjsonProfile::Recovering.validation(), ValidationMode::Recover);
    assert_eq!(JsonSeqProfile::Strict.validation(), ValidationMode::Strict);
    assert_eq!(JsonSeqProfile::Recovering.validation(), ValidationMode::Recover);
}

#[test]
fn only_lf_and_crlf_parse_as_ndjson_terminators() {
    assert_eq!(NdjsonTerminator::parse("lf"), Some(NdjsonTerminator::Lf));
    assert_eq!(NdjsonTerminator::parse("crlf"), Some(NdjsonTerminator::CrLf));
    assert_eq!(NdjsonTerminator::parse("cr"), None);
    assert_eq!(NdjsonTerminator::Lf.bytes(), b"\n");
    assert_eq!(NdjsonTerminator::CrLf.bytes(), b"\r\n");
}

#[test]
fn an_omitted_record_ceiling_defaults_to_the_input_ceiling() {
    assert_eq!(
        NdjsonDecodeOptions::try_new(None, 1024)
            .expect("default")
            .max_record_bytes(),
        1024
    );
    assert_eq!(
        JsonSeqDecodeOptions::try_new(None, 1024)
            .expect("default")
            .max_record_bytes(),
        1024
    );
}

#[test]
fn an_explicit_ceiling_may_shrink_but_never_grow() {
    assert!(NdjsonDecodeOptions::try_new(Some(2048), 1024).is_err());
    assert!(NdjsonDecodeOptions::try_new(Some(0), 1024).is_err());
    assert!(JsonSeqDecodeOptions::try_new(Some(2048), 1024).is_err());
}

#[test]
fn suffixes_are_closed() {
    assert_eq!(JsonSeqSuffix::default(), JsonSeqSuffix::Lf);
    assert_ne!(JsonSeqSuffix::NoSuffix, JsonSeqSuffix::Lf);
    assert_ne!(JsonSeqSuffix::Nul, JsonSeqSuffix::NoSuffix);
}

#[test]
fn json_canonical_form_is_compact_unsorted_and_unescaped() {
    assert!(JsonEncodeOptions::default().emits_canonical_form());
    assert!(
        !JsonEncodeOptions {
            indent: JsonIndent::Spaces(2),
            ..JsonEncodeOptions::default()
        }
        .emits_canonical_form()
    );
    assert!(
        !JsonEncodeOptions {
            sort_keys: true,
            ..JsonEncodeOptions::default()
        }
        .emits_canonical_form()
    );
    assert!(
        !JsonEncodeOptions {
            ascii_output: true,
            ..JsonEncodeOptions::default()
        }
        .emits_canonical_form()
    );
    assert!(
        !JsonEncodeOptions {
            raw_strings: true,
            ..JsonEncodeOptions::default()
        }
        .emits_canonical_form()
    );
}

#[test]
fn a_refused_ceiling_is_a_requirement_mismatch() {
    assert_eq!(NdjsonDecodeOptions::try_new(Some(2048), 1024), Err(CodecFailureKind::RequirementMismatch));
    assert_eq!(JsonSeqDecodeOptions::try_new(Some(0), 1024), Err(CodecFailureKind::RequirementMismatch));
    assert_eq!(NdjsonDecodeOptions::try_new(Some(1024), 1024).map(|options| options.max_record_bytes()), Ok(1024));
    assert_eq!(NdjsonDecodeOptions::try_new(Some(7), 1024).map(|options| options.max_record_bytes()), Ok(7));
}

#[test]
fn indents_fill_and_separate() {
    assert_eq!(JsonIndent::Compact.key_separator(), b":");
    assert_eq!(JsonIndent::Spaces(2).key_separator(), b": ");
    assert_eq!(JsonIndent::Tabs.key_separator(), b": ");
}

#[test]
fn profiles_and_encode_options_keep_what_they_are_given() {
    assert_eq!(NdjsonProfile::from_recovering(true), NdjsonProfile::Recovering);
    assert_eq!(JsonSeqProfile::from_recovering(false), JsonSeqProfile::Strict);
    assert_eq!(NdjsonEncodeOptions::default().canonical_terminator(), NdjsonTerminator::Lf);
    assert_eq!(NdjsonEncodeOptions::new(NdjsonTerminator::CrLf).canonical_terminator(), NdjsonTerminator::CrLf);
    let sequence = JsonSeqEncodeOptions::new(JsonEncodeOptions::default(), JsonSeqSuffix::Nul);
    assert_eq!(sequence.suffix, JsonSeqSuffix::Nul);
    assert_eq!(sequence.json, JsonEncodeOptions::default());
}
