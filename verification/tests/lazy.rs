//! Deferred spans: skipping, counting, filtered counting, and the batch walk.

use jqf_codec_json::count_filter::{
    classify_member, count_answers, count_array_span_filtered, count_span_filtered, object_member_contribution,
    CountMember,
};
use jqf_codec_json::element_batch::{
    fan_out_first_byte_provable, run_batches, start_walk, visit_array_span, ElementProbe, ElementRow, VisitPlan, WalkStep,
    ELEMENT_BATCH_BYTES,
};
use jqf_codec_json::lazy::{
    count_array_span, count_span, decimal_parts, decoded_is, read_string_content, skip_value, span_limits,
    unescape_string, ContainerSpanKind, CountStep, CountVerdict,
};

fn count(text: &str, probe: Vec<CountStep>) -> CountVerdict {
    count_array_span(text.as_bytes(), None, &probe)
}

fn key(name: &str) -> CountStep {
    CountStep::ObjectKey(String::from(name))
}

#[test]
fn empty_and_simple_arrays_count_every_element() {
    assert_eq!(count("[]", vec![]), CountVerdict::Count(0));
    assert_eq!(count("[ ]", vec![]), CountVerdict::Count(0));
    assert_eq!(count("[1,2,3]", vec![]), CountVerdict::Count(3));
    assert_eq!(
        count(r#"["a", true, null, [1, 2], {"x": 1}]"#, vec![]),
        CountVerdict::Count(5)
    );
    // Nested containers and strings with delimiters do not split elements.
    assert_eq!(
        count(r#"[{"a":[1,2,3]},"x,y",[{"z":"]"}]]"#, vec![]),
        CountVerdict::Count(3)
    );
}

#[test]
fn one_key_probe_counts_the_whole_object_domain_and_null() {
    // Every object element contributes 1 (an absent member is null — still exactly one output).
    assert_eq!(
        count(r#"[{"name":1},{"x":2},{"name":3}]"#, vec![key("name")]),
        CountVerdict::Count(3)
    );
    // Null elements count via the null precedence.
    assert_eq!(count(r#"[{"name":1}, null]"#, vec![key("name")]), CountVerdict::Count(2));
    // A non-object element raises on a type mismatch; decline.
    assert_eq!(count(r#"[{"name":1}, 5]"#, vec![key("name")]), CountVerdict::Decline);
    assert_eq!(count(r#"[{"name":1}, "s"]"#, vec![key("name")]), CountVerdict::Decline);
    assert_eq!(count(r#"[{"name":1}, [1]]"#, vec![key("name")]), CountVerdict::Decline);
}

#[test]
fn index_and_deep_probes_decline() {
    assert_eq!(count("[1,2]", vec![CountStep::ArrayIndex(0)]), CountVerdict::Decline);
    assert_eq!(count("[1,2]", vec![key("a"), key("b")]), CountVerdict::Decline);
}

fn count_span_limited(text: &str, range: Option<(Option<i64>, Option<i64>)>, probe: Vec<CountStep>) -> CountVerdict {
    count_array_span(text.as_bytes(), range, &probe)
}

#[test]
fn ranges_count_only_the_in_range_elements() {
    // `[a:b]` bounds the count to the in-range elements.
    assert_eq!(
        count_span_limited("[1,2,3,4,5]", Some((Some(1), Some(4))), vec![]),
        CountVerdict::Count(3)
    );
    // An open end runs to the container edge.
    assert_eq!(
        count_span_limited("[1,2,3]", Some((Some(1), None)), vec![]),
        CountVerdict::Count(2)
    );
    // A start past the end is zero.
    assert_eq!(
        count_span_limited("[1,2,3]", Some((Some(5), None)), vec![]),
        CountVerdict::Count(0)
    );
    // The one-key probe applies only to the in-range elements: an out-of-range scalar does not decline.
    assert_eq!(
        count_span_limited(
            "[5, {\"name\": 1}, {\"name\": 2}]",
            Some((Some(1), None)),
            vec![key("name")]
        ),
        CountVerdict::Count(2)
    );
    // An in-range foreign category still declines.
    assert_eq!(
        count_span_limited("[{\"name\": 1}, 5]", Some((Some(1), None)), vec![key("name")]),
        CountVerdict::Decline
    );
}

/// The filtered count of an array span under a predicate.
fn filtered(
    text: &str,
    range: Option<(Option<i64>, Option<i64>)>,
    name: &str,
    predicate: fn(&CountMember) -> Option<bool>,
) -> CountVerdict {
    match count_array_span_filtered(text.as_bytes(), range, &vec![key(name)]) {
        Some(members) => {
            let answers: Vec<Option<bool>> = members.iter().map(predicate).collect();
            count_answers(&answers)
        }
        None => CountVerdict::Decline,
    }
}

/// `> 0` under the value order: null and booleans rank below numbers, strings and containers above.
fn greater_zero(member: &CountMember) -> Option<bool> {
    Some(match member {
        CountMember::Null | CountMember::Bool(_) => false,
        CountMember::Decimal { negative, digits, .. } => !negative && digits.bytes().any(|digit| digit != b'0'),
        CountMember::Text(_) | CountMember::Array | CountMember::Object => true,
    })
}

/// Only false and null are falsy.
fn truthy(member: &CountMember) -> Option<bool> {
    Some(!matches!(member, CountMember::Null | CountMember::Bool(false)))
}

#[test]
fn counts_truthy_comparisons_per_element() {
    let text = r#"[{"stock":5},{"stock":-1},{"stock":0},{"other":9},{"stock":null},null]"#;
    assert_eq!(filtered(text, None, "stock", greater_zero), CountVerdict::Count(1));
}

#[test]
fn duplicate_keys_follow_last_value_wins() {
    let text = r#"[{"stock":1,"stock":-5},{"a":2,"stock":3,"stock":0}]"#;
    // First element: last value -5 -> excluded. Second: last value 0 -> excluded.
    assert_eq!(filtered(text, None, "stock", greater_zero), CountVerdict::Count(0));
}

#[test]
fn escaped_key_spellings_match_the_decoded_key() {
    let text = "[{\"st\\u006fck\":7}]";
    assert_eq!(filtered(text, None, "stock", greater_zero), CountVerdict::Count(1));
}

#[test]
fn cross_band_and_exact_decimal_laws_match_the_engine() {
    // Cross-band rank: string/array/object outrank numbers; -0 == 0 so `-0 > 0` is false; 1e999 is the exact decimal
    // (true), never an overflow.
    let text = r#"[{"stock":"many"},{"stock":1e999},{"stock":-0},{"stock":[1]},{"stock":{}}]"#;
    assert_eq!(filtered(text, None, "stock", greater_zero), CountVerdict::Count(4));
}

#[test]
fn nan_spellings_decline_to_the_floor() {
    // The non-finite spellings share the leading `n` with `null` but are numbers; the scan refuses to guess.
    let text = r#"[{"stock":nan},{"stock":NaN},{"stock":snan},{"stock":null}]"#;
    assert_eq!(filtered(text, None, "stock", greater_zero), CountVerdict::Decline);
}

/// An element that starts as null does and is none is a number: it neither counts nor is visited.
#[test]
fn nan_elements_are_no_nulls() {
    assert_eq!(count("[nan]", vec![key("a")]), CountVerdict::Decline);
    assert_eq!(count("[null]", vec![key("a")]), CountVerdict::Count(1));
    assert_eq!(count("[nan]", vec![]), CountVerdict::Count(1));
    let fan_out = |text: &str| visit_array_span(text.as_bytes(), ElementRow::FanOut, None, &path_probe(&["a"]));
    assert_eq!(fan_out(r#"[{"a":1},nan]"#), VisitPlan::Decline);
    assert_eq!(fan_out(r#"[{"a":1},null]"#), VisitPlan::Visit(1));
    assert_eq!(visit_array_span(b"[nan]", ElementRow::FanOut, None, &path_probe(&[])), VisitPlan::Visit(1));
}

#[test]
fn raising_elements_decline_whole_answer() {
    for text in [
        r#"[{"stock":1},[2]]"#,
        r#"[{"stock":1},"s"]"#,
        r#"[{"stock":1},7]"#,
        r#"[{"stock":1},true]"#,
    ] {
        assert_eq!(filtered(text, None, "stock", greater_zero), CountVerdict::Decline, "{text}");
    }
}

#[test]
fn ranges_count_only_in_range_elements() {
    let text = r#"[{"stock":-1},{"stock":2},{"stock":3},{"stock":4}]"#;
    assert_eq!(filtered(text, Some((Some(1), Some(3))), "stock", greater_zero), CountVerdict::Count(2));
}

#[test]
fn truthiness_answers_the_bare_key_form() {
    // Truthy: `""`, `[]`, `0`. The absent member reads null -> falsy.
    let text = r#"[{"k":false},{"k":null},{"k":""},{"k":[]},{},{"k":0}]"#;
    assert_eq!(filtered(text, None, "k", truthy), CountVerdict::Count(3));
}

#[test]
fn object_containers_decline() {
    let text = r#"{"a":{"stock":1}}"#;
    assert_eq!(
        count_span(text.as_bytes(), ContainerSpanKind::Object, None, &vec![]),
        CountVerdict::Decline
    );
    assert!(count_span_filtered(text.as_bytes(), ContainerSpanKind::Object, None, &vec![key("stock")]).is_none());
    let members = count_span_filtered(br#"[{"stock":1}]"#, ContainerSpanKind::Array, None, &vec![key("stock")]);
    assert_eq!(members.map(|members| members.len()), Some(1));
    assert_eq!(
        count_span(b"[1]", ContainerSpanKind::Array, None, &vec![]),
        CountVerdict::Count(1)
    );
}

/// A predicate that cannot rank one member declines the whole count, and a path of another shape is not scanned.
#[test]
fn an_unranked_member_declines() {
    assert_eq!(count_answers(&vec![Some(true), None]), CountVerdict::Decline);
    assert_eq!(count_answers(&vec![Some(true), Some(false), Some(true)]), CountVerdict::Count(2));
    assert!(count_array_span_filtered(b"[{}]", None, &vec![]).is_none());
    assert!(count_array_span_filtered(b"[{}]", None, &vec![CountStep::ArrayIndex(0)]).is_none());
    assert!(count_array_span_filtered(b"[]", None, &vec![]).expect("empty").is_empty());
}

/// What one drive collected.
struct Seen {
    completed: Option<u64>,
    elements: Vec<String>,
}

/// Splits one batch's array text into its elements.
fn elements_of(batch: &[u8]) -> Vec<String> {
    let mut elements = Vec::new();
    let mut at = 1;
    while batch[at] != b']' {
        let end = skip_value(batch, at);
        elements.push(String::from_utf8(batch[at..end].to_vec()).expect("utf8"));
        at = if batch[end] == b',' { end + 1 } else { end };
    }
    elements
}

/// Runs the batch pass, probing every element; `None` where an element or the walk declines.
fn pass(
    bytes: &[u8],
    at: usize,
    range: Option<(Option<i64>, Option<i64>)>,
    probe: fn(&str) -> Option<String>,
    seen: &mut Vec<String>,
) -> Option<u64> {
    let mut walk = match start_walk(bytes, at, range) {
        Ok(walk) => walk,
        Err(WalkStep::Completed(visited)) => return Some(visited),
        Err(_) => return None,
    };
    loop {
        match run_batches(bytes, &mut walk) {
            WalkStep::Batch(text) => {
                for element in elements_of(&text) {
                    seen.push(probe(&element)?);
                }
            }
            WalkStep::Completed(visited) => return Some(visited),
            WalkStep::Decline => return None,
        }
    }
}

fn drive(
    text: &str,
    row: ElementRow,
    range: Option<(Option<i64>, Option<i64>)>,
    steps: ElementProbe,
    probe: fn(&str) -> Option<String>,
) -> Seen {
    let bytes = text.as_bytes();
    let mut elements = Vec::new();
    let completed = match visit_array_span(bytes, row, range, &steps) {
        VisitPlan::Empty => Some(0),
        VisitPlan::Decline => None,
        VisitPlan::CheckThenVisit(at) => {
            let mut checked = Vec::new();
            match pass(bytes, at, range, probe, &mut checked) {
                Some(_) => pass(bytes, at, range, probe, &mut elements),
                None => None,
            }
        }
        VisitPlan::Visit(at) => pass(bytes, at, range, probe, &mut elements),
    };
    Seen { completed, elements }
}

fn path_probe(steps: &[&str]) -> ElementProbe {
    ElementProbe::Path(steps.iter().map(|name| key(name)).collect())
}

fn whole_element(element: &str) -> Option<String> {
    Some(String::from(element))
}

/// `.a.b` of `{"a":{"b":N}}`.
fn a_then_b(element: &str) -> Option<String> {
    let rest = element.strip_prefix("{\"a\":{\"b\":")?;
    Some(String::from(rest.strip_suffix("}}")?))
}

#[test]
fn batches_split_at_the_element_cap_and_visit_every_element_in_order() {
    // 600 elements = three batches (256/256/88); the visitor must see all of them, in span order, across every seam.
    let mut text = String::from("[");
    for n in 0..600 {
        if n > 0 {
            text.push(',');
        }
        text.push_str(&format!("{n}"));
    }
    text.push(']');
    let seen = drive(&text, ElementRow::FanOut, None, path_probe(&[]), whole_element);
    assert_eq!(seen.completed, Some(600));
    assert_eq!(seen.elements.len(), 600);
    assert_eq!(seen.elements[0], "0");
    assert_eq!(seen.elements[255], "255", "last element of the first batch");
    assert_eq!(seen.elements[256], "256", "first element of the second batch");
    assert_eq!(seen.elements[599], "599");
}

#[test]
fn a_batch_flushes_at_its_byte_budget_and_still_visits_every_element() {
    // One string larger than the byte budget fills the first batch by itself; the flush boundary must not lose or
    // duplicate either side.
    let big = "a".repeat(ELEMENT_BATCH_BYTES);
    let text = format!("[\"{big}\",\"b\"]");
    let seen = drive(&text, ElementRow::FanOut, None, path_probe(&[]), whole_element);
    assert_eq!(seen.completed, Some(2));
    assert_eq!(seen.elements.len(), 2);
    assert_eq!(seen.elements[0].len(), ELEMENT_BATCH_BYTES + 2);
    assert_eq!(seen.elements[1], "\"b\"");
}

#[test]
fn the_skip_phase_never_visits_out_of_range_elements() {
    // `[2:]` over five elements visits 2,3,4 — in order.
    let seen = drive("[0,1,2,3,4]", ElementRow::FanOut, Some((Some(2), None)), path_probe(&[]), whole_element);
    assert_eq!(seen.completed, Some(3));
    assert_eq!(seen.elements, vec!["2", "3", "4"]);

    // A start past the container's end is an EMPTY completion.
    let seen = drive("[0,1]", ElementRow::FanOut, Some((Some(9), None)), path_probe(&[]), whole_element);
    assert_eq!(seen.completed, Some(0));

    // A closed end bounds the visits.
    let seen = drive("[0,1,2,3,4]", ElementRow::FanOut, Some((Some(1), Some(3))), path_probe(&[]), whole_element);
    assert_eq!(seen.completed, Some(2));
    assert_eq!(seen.elements, vec!["1", "2"]);
}

#[test]
fn the_skip_phase_fails_closed_on_truncated_bytes() {
    // Two elements then a cut span: the walk DECLINES — never a partial element.
    let seen = drive("[0,1,", ElementRow::FanOut, Some((Some(2), None)), path_probe(&[]), whole_element);
    assert_eq!(seen.completed, None);
    assert!(seen.elements.is_empty());
    let seen = drive("[0,1,", ElementRow::ReduceFold, Some((Some(2), None)), path_probe(&[]), whole_element);
    assert_eq!(seen.completed, None);
    assert!(seen.elements.is_empty());
}

#[test]
fn a_two_step_key_probe_prepasses_and_publishes_nothing_on_a_late_miss() {
    // A two-step key path defeats the first-byte pre-pass, so FanOut falls to the build-and-check pass — which succeeds
    // on fully provable elements...
    let seen = drive(
        r#"[{"a":{"b":10}},{"a":{"b":20}}]"#,
        ElementRow::FanOut,
        None,
        path_probe(&["a", "b"]),
        a_then_b,
    );
    assert_eq!(seen.completed, Some(2));
    assert_eq!(seen.elements, vec!["10", "20"]);

    // ...and declines on a late miss (the SECOND element's deep step lands on a number) with ZERO published elements.
    let seen = drive(r#"[{"a":{"b":10}},{"a":5}]"#, ElementRow::FanOut, None, path_probe(&["a", "b"]), a_then_b);
    assert_eq!(seen.completed, None);
    assert!(seen.elements.is_empty(), "the visit-all-or-none contract");
}

#[test]
fn a_fold_demand_runs_no_prepass_and_may_decline_mid_fold() {
    // A fold publishes nothing until it completes, so it needs no pre-pass: earlier elements ARE visited before a later
    // miss declines.
    let seen = drive(r#"[{"a":{"b":10}},{"a":5}]"#, ElementRow::ReduceFold, None, path_probe(&["a", "b"]), a_then_b);
    assert_eq!(seen.completed, None);
    assert_eq!(seen.elements, vec!["10"]);
}

#[test]
fn first_byte_provability_table() {
    let proves = |probe: &ElementProbe| fan_out_first_byte_provable(probe).expect("provable");
    // Empty path: the element itself — every first byte.
    assert!(proves(&path_probe(&[])).proves(b'"'));
    // One object-key step: object or null.
    let key_step = proves(&path_probe(&["k"]));
    assert!(key_step.proves(b'{') && key_step.proves(b'n'));
    assert!(!key_step.proves(b'['));
    assert!(!key_step.proves(b'5'));
    // One index step: array or null.
    let index_step = proves(&ElementProbe::Path(vec![CountStep::ArrayIndex(0)]));
    assert!(index_step.proves(b'[') && index_step.proves(b'n'));
    assert!(!index_step.proves(b'{'));
    // Length: any container or null; scalars decline.
    let length = proves(&ElementProbe::Length);
    assert!(length.proves(b'[') && length.proves(b'{') && length.proves(b'n'));
    assert!(!length.proves(b'"') && !length.proves(b'5'));
    // A deeper path is NOT provable from the first byte alone.
    assert!(fan_out_first_byte_provable(&path_probe(&["a", "b"])).is_none());
    let two_indices = ElementProbe::Path(vec![CountStep::ArrayIndex(0), CountStep::ArrayIndex(0)]);
    assert!(fan_out_first_byte_provable(&two_indices).is_none());
}

#[test]
fn span_limits_normalize_bounds_to_a_clamped_window() {
    assert_eq!(span_limits(None), (0, None));
    assert_eq!(span_limits(Some((None, None))), (0, None));
    assert_eq!(span_limits(Some((Some(2), Some(5)))), (2, Some(5)));
    // A negative bound normalizes to the window start rather than wrapping.
    assert_eq!(span_limits(Some((Some(-3), Some(4)))), (0, Some(4)));
}

#[test]
fn number_members_keep_their_coefficient_and_scale() {
    assert_eq!(decimal_parts(b"-12.50e-3"), Some((true, 5)));
    assert_eq!(decimal_parts(b"1E+2"), Some((false, -2)));
    assert_eq!(decimal_parts(b"7"), Some((false, 0)));
    assert_eq!(decimal_parts(b"1e"), None);
    assert_eq!(decimal_parts(b"1x"), None);
    assert_eq!(decimal_parts(b"1e1000000000000"), Some((false, -1_000_000_000_000)));
    assert_eq!(decimal_parts(b"1e1000000000001"), None);
    match classify_member(b"-12.50e-3,", 0) {
        Some(CountMember::Decimal { negative, digits, scale }) => {
            assert_eq!((negative, digits.as_str(), scale), (true, "1250", 5));
        }
        other => panic!("unexpected {other:?}"),
    }
    assert!(classify_member(b"nan", 0).is_none());
    assert!(matches!(classify_member(b"null", 0), Some(CountMember::Null)));
}

#[test]
fn an_object_member_is_read_with_the_objects_end() {
    let bytes = br#"{"a" : "xA", "b":[1]} tail"#;
    match object_member_contribution(bytes, 0, "a") {
        Some((CountMember::Text(text), end)) => assert_eq!((text.as_str(), &bytes[end..]), ("xA", &b" tail"[..])),
        other => panic!("unexpected {other:?}"),
    }
    assert!(matches!(object_member_contribution(bytes, 0, "z"), Some((CountMember::Null, 21))));
    assert!(object_member_contribution(b"{\"a\":1", 0, "a").is_none());
}

/// Reading a written string gives back the text; a broken escape gives nothing.
#[test]
fn strings_are_read_back() {
    assert_eq!(unescape_string("\\u0061\\n\\ud83d\\ude00\u{e9}".as_bytes()), Some(String::from("a\n\u{1f600}\u{e9}")));
    assert_eq!(unescape_string(b"\\udc00"), Some(String::from("\u{fffd}")));
    assert_eq!(unescape_string(b"\\ud800x"), None);
    assert_eq!(unescape_string(b"\\q"), None);
    assert_eq!(unescape_string(b"\xff"), None);
    assert_eq!(unescape_string(b"\x7f\x01"), Some(String::from("\u{7f}\u{1}")));
    assert!(decoded_is(b"st\\u006fck", "stock"));
    assert!(!decoded_is(b"st\\u006fc", "stock"));
    assert!(decoded_is("\u{e9}".as_bytes(), "\u{e9}"));
    assert_eq!(read_string_content(b"x\"a\\\"b\"]", 1), Some((7, &b"a\\\"b"[..])));
    assert_eq!(read_string_content(b"\"open", 0), None);
    assert_eq!(read_string_content(b"\"a\\", 0), None);
}
