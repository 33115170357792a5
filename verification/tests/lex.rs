//! Lexing: numbers, hex, escapes, and the byte-order mark.

use jqf_codec_json::error::{
    expected_key_message, expected_value_message, invalid, unsupported_hex_number, unsupported_number, CodecFailureKind,
    EXPECTED_COMMA, MSG_COLON,
};
use jqf_codec_json::lex::{
    apply_unicode_scalar, byte_order_mark_truncated, hex_to_decimal, is_value_boundary, key_fingerprint,
    nonfinite_spelling_truncated, reserve_hint, scalar_width_from_lead, single_quoted_run_end, starts_with_byte_order_mark,
    verbatim_integer_end, EscapeState, ReserveOutcome,
};
use jqf_codec_json::number::{
    advance_number, consume_digit_run, decimal_render_parts, decimal_source_is_canonical, number_finish_plan,
    number_is_verbatim_source, number_lex_complete, number_render_plan, number_survives_owned_round_trip, NumberState,
};

fn driven(bytes: &[u8], lenient: bool, json5: bool) -> NumberState {
    let mut state = NumberState::start_at(0, false).expect("state");
    for &byte in bytes {
        assert!(
            advance_number(&mut state, byte, lenient, json5).expect("advance"),
            "{bytes:?} fully consumed"
        );
        state.cursor += 1;
    }
    state
}

#[test]
fn the_zero_mantissa_plan_shares_the_nonzero_out_of_range_law() {
    // A plain zero integer keeps its unscaled plan.
    let state = driven(b"-0", true, false);
    assert_eq!(number_finish_plan(&state, true).expect("plan"), Some((0, 0, None)));

    // In range: the plan carries the REAL scale, matching the render plan.
    let state = driven(b"0e5", true, false);
    assert_eq!(number_finish_plan(&state, true).expect("plan"), Some((0, 0, Some(-5))));

    // Out of range: `None`, the same signal the nonzero arm returns.
    let mut state = driven(b"0e5", true, false);
    state.exponent_overflow = true;
    assert_eq!(number_finish_plan(&state, true).expect("plan"), None);
}

fn complete(bytes: &[u8], lenient: bool, json5: bool) -> bool {
    let mut state = NumberState::start_at(0, false).expect("state");
    for &byte in bytes {
        if !matches!(advance_number(&mut state, byte, lenient, json5), Ok(true)) {
            return false;
        }
    }
    number_lex_complete(state.lex, lenient, json5, state.digit_count as usize)
}

/// Strict numbers are RFC 8259's; the lenient and JSON5 spellings are theirs alone.
#[test]
fn number_grammars() {
    for good in ["0", "-0", "10", "1.5", "-1.25e+10", "0e5", "1E-9"] {
        assert!(complete(good.as_bytes(), false, false), "{good}");
    }
    for bad in ["", "-", "01", "1.", ".5", "+1", "1e", "1e+", "0x10", "1a"] {
        assert!(!complete(bad.as_bytes(), false, false), "{bad}");
    }
    for good in ["1.", ".5", "+1", "0x10", "-0xff", "1.e2"] {
        assert!(complete(good.as_bytes(), false, true), "{good} under JSON5");
    }
    for bad in [".e5", "-.e5", "+.e5", "0x"] {
        assert!(!complete(bad.as_bytes(), false, true), "{bad} under JSON5");
    }
}

/// The coefficient and scale of a completed decimal.
fn decimal_parts(bytes: &[u8], lenient: bool, json5: bool) -> (String, i64) {
    assert!(complete(bytes, lenient, json5), "{bytes:?} completes");
    let (coefficient, scale) = decimal_render_parts(bytes, &driven(bytes, lenient, json5)).expect("decimal");
    (String::from_utf8(coefficient).expect("digits"), scale)
}

// An exponent may follow a bare point only when a digit precedes it.

#[test]
fn bare_point_before_an_exponent_without_any_digit_rejects() {
    for spelling in [".e5", "-.e5", "+.e5"] {
        assert!(!complete(spelling.as_bytes(), true, false), "{spelling} under lenient");
        assert!(!complete(spelling.as_bytes(), false, true), "{spelling} under json5");
    }
}

#[test]
fn a_digit_before_the_exponent_keeps_the_point_spelling_accepted() {
    for (lenient, json5) in [(true, false), (false, true)] {
        assert_eq!(decimal_parts(b"0.e5", lenient, json5), (String::from("0"), -5));
    }
    assert_eq!(decimal_parts(b"1.e5", true, false), (String::from("1"), -5));
    assert_eq!(decimal_parts(b"-.5", true, false), (String::from("-5"), 1));
}

#[test]
fn strict_still_rejects_an_exponent_after_a_bare_point() {
    assert!(!complete(b"1.e5", false, false));
}

// A zero mantissa obeys the same out-of-range law as a nonzero one.

#[test]
fn documented_cap_spellings_render_their_own_bytes() {
    assert_eq!(decimal_parts(b"0E+999999999", true, false), (String::from("0"), -999_999_999));
    assert_eq!(decimal_parts(b"0E-1147483646", true, false), (String::from("0"), 1_147_483_646));
}

#[test]
fn mid_range_zero_exponents_keep_their_render_on_every_grammar() {
    for lenient in [false, true] {
        assert_eq!(decimal_parts(b"0e5", lenient, false), (String::from("0"), -5));
    }
}

#[test]
fn out_of_scale_zero_mantissa_refuses_off_lenient() {
    for huge in [format!("0e{}", "9".repeat(25)), format!("1e{}", "9".repeat(21))] {
        assert_eq!(number_finish_plan(&driven(huge.as_bytes(), false, false), false), Ok(None));
        let refusal = unsupported_number(0, huge.len());
        assert_eq!((refusal.kind, refusal.code), (CodecFailureKind::InvalidInput, "number-scale-out-of-range"));
    }
}

/// The plans name the coefficient's source bytes and the decimal scale.
#[test]
fn number_plans() {
    let state = driven(b"-12.500e1", false, false);
    // The canonical plan drops trailing zeroes; the render plan keeps them.
    assert_eq!(number_finish_plan(&state, false), Ok(Some((1, 5, Some(0)))));
    assert_eq!(number_render_plan(&state), Ok(Some((1, 7, 2))));
    assert!(!number_is_verbatim_source(&state));
    assert!(number_survives_owned_round_trip(&state));
    assert_eq!(decimal_render_parts(b"-12.500e1", &state), Some((b"-12500".to_vec(), 2)));
    let rendered = vec![b"-1".to_vec(), b"2.500".to_vec()];
    assert!(!decimal_source_is_canonical(b"-12.500e1", &state, Some(&rendered)));
    let plain = driven(b"-12.500", false, false);
    assert!(decimal_source_is_canonical(b"-12.500", &plain, Some(&rendered)));
    let integer = driven(b"120", false, false);
    assert_eq!(number_finish_plan(&integer, false), Ok(Some((0, 3, None))));
    assert!(number_is_verbatim_source(&integer));
    let negative_zero = driven(b"-0", false, false);
    assert!(!number_survives_owned_round_trip(&negative_zero));
    // An exponent past what can be carried leaves the range.
    let huge = driven(format!("1e{}", "9".repeat(40)).as_bytes(), false, false);
    assert_eq!(number_finish_plan(&huge, false), Ok(None));
    assert_eq!(number_render_plan(&huge), Ok(None));
}

/// A whole digit run taken at once is the same as its digits one by one.
#[test]
fn digit_runs_agree_with_single_digits() {
    let single = driven(b"7120034", false, false);
    let mut bulk = driven(b"7", false, false);
    assert_eq!(consume_digit_run(&mut bulk, b"120034", false), Ok(6));
    assert_eq!(number_finish_plan(&bulk, false), number_finish_plan(&single, false));
    assert_eq!(bulk.digit_count, single.digit_count);
    assert_eq!(bulk.cursor_usize(), single.cursor_usize());
}

#[test]
fn hex_is_exact() {
    assert_eq!(hex_to_decimal(b"10"), "16");
    assert_eq!(hex_to_decimal(b"fF"), "255");
    assert_eq!(hex_to_decimal(b"000"), "0");
    assert_eq!(hex_to_decimal(b"ffffffffffffffffffffffffffffffff"), "340282366920938463463374607431768211455");
    assert_eq!(verbatim_integer_end(b"-120,", 0), Some(4));
    assert_eq!(verbatim_integer_end(b"1.5", 0), None);
    assert_eq!(verbatim_integer_end(b"01", 0), None);
}

#[test]
fn unicode_units_pair_up() {
    let mut staged = String::new();
    assert!(matches!(apply_unicode_scalar(&mut staged, 0x61), EscapeState::Plain));
    let high = apply_unicode_scalar(&mut staged, 0xd83d);
    assert!(matches!(high, EscapeState::LowBackslash { high: 0xd83d }));
    assert_eq!(staged, "a");
    assert_eq!(scalar_width_from_lead(0xf0), Some(4));
    assert_eq!(scalar_width_from_lead(0x80), None);
    assert_eq!(single_quoted_run_end(b"a\"b'c", 0, 5), 3);
}

#[test]
fn marks_boundaries_and_fingerprints() {
    assert!(starts_with_byte_order_mark(b"\xef\xbb\xbf1"));
    assert!(!starts_with_byte_order_mark(b"\xef\xbb"));
    assert!(byte_order_mark_truncated(b"\xef\xbb"));
    assert!(!byte_order_mark_truncated(b"\xef\xbb\xbf"));
    assert!(nonfinite_spelling_truncated(b"infin", 0));
    assert!(!nonfinite_spelling_truncated(b"info", 0));
    assert!(is_value_boundary(b','));
    assert!(!is_value_boundary(b'x'));
    assert_eq!(key_fingerprint(b""), 0xcbf2_9ce4_8422_2325);
    assert_eq!(key_fingerprint(b"a"), 0xaf63_dc4c_8601_ec8c);
    assert_eq!(reserve_hint(ReserveOutcome::Reserved), Ok(()));
}

#[test]
fn diagnostics_name_the_dialect_that_would_accept_a_comment() {
    assert_eq!(expected_key_message(b"{x", 1), "expected an object string key");
    assert!(expected_key_message(b"{//", 1).contains("--input-format jsonc"));
    assert_eq!(expected_value_message(b"/", 0), "expected one complete JSON value");
    assert!(expected_value_message(b"/*", 0).contains("--input-format jsonc"));
    let inside = invalid(b"ab", 1, EXPECTED_COMMA, MSG_COLON);
    assert_eq!((inside.kind, inside.start, inside.end), (CodecFailureKind::InvalidInput, 1, 2));
    assert_eq!((inside.code, inside.message), ("expected-comma", "expected `:`"));
    let end = invalid(b"ab", 2, EXPECTED_COMMA, MSG_COLON);
    assert_eq!((end.start, end.end), (2, 2));
    assert_eq!(unsupported_number(1, 4).code, unsupported_hex_number(1, 4).code);
    assert!(unsupported_hex_number(1, 4).message.contains("hex literal"));
}
