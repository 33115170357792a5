//! What the library promises as a whole, on concrete values.

use jqf_codec_json::byte_scan::trivia_prefix_len;
use jqf_codec_json::count_filter::{count_answers, count_array_span_filtered, CountMember};
use jqf_codec_json::edit::{
    container_close, last_value_end, render_edit_append, render_edit_remove, EditAppendMembers, EditRemoveMembers, Span,
};
use jqf_codec_json::element_batch::{
    run_batches, start_walk, visit_array_span, ElementProbe, ElementRow, VisitPlan, WalkStep,
};
use jqf_codec_json::encode::{FactPreservation, JsonEncoder};
use jqf_codec_json::factory::{create_commented_factory, create_prefixed_framed_factory};
use jqf_codec_json::grammar::{commented_grammar, JsonGrammar};
use jqf_codec_json::jsonc::encode::{jsonc_container_scan, jsonc_render_edit_append, jsonc_render_edit_remove};
use jqf_codec_json::lazy::{
    count_array_span, read_string_content, skip_value, unescape_string, CountStep, CountVerdict,
};
use jqf_codec_json::number::{advance_number, number_lex_complete, NumberState};
use jqf_codec_json::options::{JsonEncodeOptions, JsonIndent};
use jqf_codec_json::value::{Item, Member, NumberText, Value};

fn item(value: Value) -> Item {
    Item { comments: Vec::new(), value }
}

fn text(text: &str) -> Value {
    Value::Text(String::from(text))
}

fn number(digits: &str) -> Value {
    Value::Number(NumberText::Integer(String::from(digits)))
}

fn member(key: &str, value: Value) -> Member {
    Member { key: String::from(key), item: item(value) }
}

fn styles() -> Vec<JsonEncodeOptions> {
    let plain = JsonEncodeOptions::default();
    vec![
        plain,
        JsonEncodeOptions { indent: JsonIndent::Spaces(3), ..plain },
        JsonEncodeOptions { indent: JsonIndent::Tabs, sort_keys: true, ..plain },
        JsonEncodeOptions { ascii_output: true, ..plain },
    ]
}

fn rendered(value: Value, style: JsonEncodeOptions) -> Vec<u8> {
    let config = create_prefixed_framed_factory(b"", b"", style, 64);
    let mut encoder = JsonEncoder::new(config, FactPreservation::Exact);
    let mut bytes = Vec::new();
    encoder.encode(&item(value), b"", &mut bytes).expect("encode");
    bytes
}

fn elements() -> Vec<Item> {
    vec![
        item(Value::Object(vec![
            member("k", text("a]\"}\u{e9}\u{1f600}\n")),
            member("x", Value::Array(vec![item(Value::Null)])),
            member("k", number("-12")),
        ])),
        item(Value::Null),
        item(Value::Object(vec![member("other", Value::Bool(true))])),
        item(Value::Object(vec![member("k", text("\u{7f}\\"))])),
    ]
}

/// A written string is read back, raw or ASCII only.
#[test]
fn written_strings_are_read_back() {
    for style in styles() {
        for content in ["", "plain", "q\"b\\n\nt\t\u{0}\u{7f}", "\u{e9}\u{20ac}\u{1f600}", "\\u0041"] {
            let bytes = rendered(text(content), style);
            let (end, raw) = read_string_content(&bytes, 0).expect("a string");
            assert_eq!(end, bytes.len());
            assert_eq!(unescape_string(raw).as_deref(), Some(content));
        }
    }
}

/// A rendered value is skipped to its end, its container closes there, and its elements are counted.
#[test]
fn rendered_values_end_where_they_were_ended() {
    for style in styles() {
        let mut bytes = rendered(Value::Array(elements()), style);
        let len = bytes.len();
        assert_eq!(count_array_span(&bytes, None, &Vec::new()), CountVerdict::Count(4));
        bytes.extend_from_slice(b" ,{\"tail\":[1]}");
        assert_eq!(skip_value(&bytes, 0), len);
        assert_eq!(container_close(&bytes, 0), Some(len));
    }
}

/// A filter reads the members that were written: the last of a name, null where there is none.
#[test]
fn filters_read_what_was_rendered() {
    for style in styles() {
        let bytes = rendered(Value::Array(elements()), style);
        let path = vec![CountStep::ObjectKey(String::from("k"))];
        let members = count_array_span_filtered(&bytes, None, &path).expect("objects and nulls");
        assert_eq!(members.len(), 4);
        match &members[0] {
            CountMember::Decimal { negative, digits, scale } => {
                assert_eq!((*negative, digits.as_str(), *scale), (true, "12", 0));
            }
            other => panic!("unexpected {other:?}"),
        }
        assert!(matches!(members[1], CountMember::Null));
        assert!(matches!(members[2], CountMember::Null));
        assert!(matches!(&members[3], CountMember::Text(content) if content == "\u{7f}\\"));
        let mixed = rendered(Value::Array(vec![item(Value::Null), item(number("1"))]), style);
        assert!(count_array_span_filtered(&mixed, None, &path).is_none());
    }
}

/// Written comments are trivia up to the value they lead, and are read back line by line.
#[test]
fn written_comments_are_trivia() {
    for style in styles() {
        let config = create_commented_factory(style, true, 64);
        let mut encoder = JsonEncoder::new(config, FactPreservation::Exact);
        let commented = Item {
            comments: vec![String::from("first */ \"\nsecond // [\n"), String::from("third")],
            value: number("7"),
        };
        let mut bytes = Vec::new();
        encoder.encode(&commented, b"", &mut bytes).expect("encode");
        let mut texts = Vec::new();
        let grammar = commented_grammar(true, false, false);
        let (len, open) = trivia_prefix_len(&bytes, grammar, Some(&mut texts)).expect("reserved");
        assert_eq!(&bytes[len..], b"7");
        assert!(!open);
        assert_eq!(texts, vec!["first */ \"", "second // [", "", "third"]);
    }
}

/// A grown container is still one container.
#[test]
fn grown_containers_close_once() {
    let members = vec![member("x", text("]}\"")), member("y", Value::Array(elements()))];
    for source in [&b"{}"[..], b"{ \"a\": [1, {}] }", b"{\n  \"a\": \"}\"\n} , [2]", b"{\r\n\t\"a\": 1\r\n}"] {
        let before = container_close(source, 0).expect("a container");
        let insertions =
            render_edit_append(Some(Span { start: 0, end: 1 }), source, EditAppendMembers::Table(&members), 64)
                .expect("renders");
        let mut grown = source[..insertions[0].at].to_vec();
        grown.extend_from_slice(&insertions[0].bytes);
        grown.extend_from_slice(&source[insertions[0].at..]);
        assert_eq!(container_close(&grown, 0), Some(before + insertions[0].bytes.len()));
    }
}

fn accepts(bytes: &[u8], lenient: bool, json5: bool) -> bool {
    let mut state = NumberState::start_at(0, false).expect("state");
    for &byte in bytes {
        if !matches!(advance_number(&mut state, byte, lenient, json5), Ok(true)) {
            return false;
        }
        state.cursor += 1;
    }
    number_lex_complete(state.lex, lenient, json5, state.digit_count as usize)
}

/// Every dialect accepts strict JSON's numbers and passes over strict JSON's whitespace.
#[test]
fn dialects_extend_strict_json() {
    for good in ["0", "-0", "12", "-1.50", "3e4", "0.0E-1"] {
        for (lenient, json5) in [(false, false), (true, false), (false, true), (true, true)] {
            assert!(accepts(good.as_bytes(), lenient, json5), "{good}");
        }
    }
    for bytes in [&b" \t\r\n1"[..], b"  //x\n1", b"\xef\xbb\xbf 1", b""] {
        let (strict, _) = trivia_prefix_len(bytes, JsonGrammar::strict(), None).expect("reserved");
        for grammar in [commented_grammar(false, false, false), commented_grammar(true, true, true)] {
            assert!(trivia_prefix_len(bytes, grammar, None).expect("reserved").0 >= strict);
        }
    }
}

/// On strict text the two container scans name one region.
#[test]
fn both_scans_name_one_region() {
    for text in ["[]", "{ }", "[1, [2, \"]\"] ]x", "{\"a\": {\"b\": \"//\"}\n}", "[\"\\u0022\", null]"] {
        let source = text.as_bytes();
        let close = container_close(source, 0).expect("closes");
        let (end, empty) = last_value_end(source, 0, close).expect("ends");
        let named = if empty { 0 } else { end };
        assert_eq!(jsonc_container_scan(source, 0), Some((close, named, empty)), "{text}");
        // The close is the container's own: nothing behind it matters, and nothing shorter has one.
        assert_eq!(container_close(&source[..close], 0), Some(close), "{text}");
        for end in 0..close {
            assert_eq!(container_close(&source[..end], 0), None, "{text}");
        }
    }
}

/// A filter tests one member of each element that is counted.
#[test]
fn a_filter_counts_no_more_than_the_walk() {
    let text = br#"[{"a":1}, null, {"b":[{}]}, {"a":{"a":2}}]"#;
    for range in [None, Some((Some(1), Some(3))), Some((Some(3), None)), Some((Some(9), None))] {
        let path = vec![CountStep::ObjectKey(String::from("a"))];
        let members = count_array_span_filtered(text, range, &path).expect("readable");
        assert_eq!(count_array_span(text, range, &Vec::new()), CountVerdict::Count(members.len() as u64));
        let answers = members.iter().map(|member| Some(!matches!(member, CountMember::Null))).collect();
        let CountVerdict::Count(counted) = count_answers(&answers) else { panic!("counts") };
        assert!(counted <= members.len() as u64);
    }
}

/// A grown array holds its old elements and the new ones.
#[test]
fn grown_arrays_hold_old_and_new() {
    let items = vec![item(number("7")), item(Value::Array(vec![item(number("8")), item(number("9"))]))];
    for text in ["[]", "[ 1,[2,3] ]", "[\n  1,\n  2\n]"] {
        let source = text.as_bytes();
        let old = count_array_span(source, None, &Vec::new());
        let insertions =
            render_edit_append(Some(Span { start: 0, end: 1 }), source, EditAppendMembers::Array(&items), 64).expect("grows");
        let mut grown = source[..insertions[0].at].to_vec();
        grown.extend_from_slice(&insertions[0].bytes);
        grown.extend_from_slice(&source[insertions[0].at..]);
        let CountVerdict::Count(before) = old else { panic!("counts") };
        assert_eq!(count_array_span(&grown, None, &Vec::new()), CountVerdict::Count(before + 2), "{text}");
    }
}

/// The texts of a strict container's members.
fn members_of(source: &[u8]) -> Vec<String> {
    let mut members = Vec::new();
    let blank = |byte: u8| matches!(byte, b' ' | b'\t' | b'\n' | b'\r');
    let mut at = 1;
    loop {
        while blank(source[at]) || source[at] == b',' {
            at += 1;
        }
        if source[at] == b']' || source[at] == b'}' {
            return members;
        }
        let start = at;
        at = skip_value(source, at);
        let mut next = at;
        while blank(source[next]) {
            next += 1;
        }
        if source[next] == b':' {
            next += 1;
            while blank(source[next]) {
                next += 1;
            }
            at = skip_value(source, next);
        }
        members.push(String::from_utf8(source[start..at].to_vec()).expect("utf8"));
    }
}

/// A shrunk container holds its members without the one that was removed, whichever that is.
#[test]
fn a_shrunk_container_loses_exactly_one_member() {
    let sources: [(&str, bool, &[&str]); 4] = [
        ("[1, {\"a\": [2, 3]} ,\n \"x,]\"]", false, &["1", "{\"a\": [2, 3]}", "\"x,]\""]),
        ("[ 7 ]", false, &["7"]),
        ("{\"a\\\"\": 1, \"b\" : [\":\"],\n  \"c\":{}}", true, &["1", "[\":\"]", "{}"]),
        ("{\n  \"a\": true\n}", true, &["true"]),
    ];
    for (source, keyed, values) in sources {
        let whole = members_of(source.as_bytes());
        assert_eq!(whole.len(), values.len());
        for index in 0..values.len() {
            let start = source.find(values[index]).expect("value");
            let removed = EditRemoveMembers {
                spans: vec![Some(Span { start, end: start + values[index].len() })],
                keyed,
            };
            let cuts = render_edit_remove(Some(Span { start: 0, end: 1 }), source.as_bytes(), &removed);
            assert_eq!(cuts.len(), 1, "{source}");
            let mut bytes = source.as_bytes().to_vec();
            bytes.splice(cuts[0].start..cuts[0].end, cuts[0].replacement.iter().copied());
            let mut left = whole.clone();
            left.remove(index);
            assert_eq!(members_of(&bytes), left, "{source} without {index}");
        }
    }
}

fn grown_commented(source: &str, members: EditAppendMembers) -> String {
    let insertions =
        jsonc_render_edit_append(Some(Span { start: 0, end: 1 }), source.as_bytes(), members, 64).expect("append");
    let mut patched = source.as_bytes()[..insertions[0].at].to_vec();
    patched.extend_from_slice(&insertions[0].bytes);
    patched.extend_from_slice(&source.as_bytes()[insertions[0].at..]);
    String::from_utf8(patched).expect("utf8")
}

/// A grown commented container holds its old members and then the new ones, and its comments stay where they were.
#[test]
fn a_grown_commented_container_holds_old_and_new() {
    let items = vec![item(number("8")), item(text("// 9"))];
    let array = |source| grown_commented(source, EditAppendMembers::Array(&items));
    assert_eq!(array("[1 /* one */]"), "[1,8,\"// 9\" /* one */]");
    assert_eq!(array("[1, /* one */]"), "[1,8,\"// 9\", /* one */]");
    assert_eq!(array("[/* none */]"), "[8,\"// 9\"/* none */]");
    assert_eq!(array("[[1, // ]\n 2]\n]"), "[[1, // ]\n 2],\n 8,\n \"// 9\"\n]");
    let pairs = vec![member("k:", Value::Array(vec![item(number("1")), item(number("2"))]))];
    let object = |source| grown_commented(source, EditAppendMembers::Table(&pairs));
    assert_eq!(object("{a: 'x,}' /* } */,}"), "{a: 'x,}',\"k:\":[1,2] /* } */,}");
    assert_eq!(object("{\n  a: 1, // }\n}"), "{\n  a: 1, \"k:\": [1,2], // }\n}");
}

/// A fan-out that visits at all visits every element of its range.
#[test]
fn a_fan_out_visits_all_or_none() {
    let source = b"[10, 11, 12, 13, 14, 15, 16, 17, 18, 19]";
    let ranges: [(Option<(Option<i64>, Option<i64>)>, u64); 4] =
        [(None, 10), (Some((Some(2), Some(5))), 3), (Some((Some(9), None)), 1), (Some((Some(4), Some(4))), 0)];
    for (range, expected) in ranges {
        let at = match visit_array_span(source, ElementRow::FanOut, range, &ElementProbe::Path(Vec::new())) {
            VisitPlan::Visit(at) | VisitPlan::CheckThenVisit(at) => at,
            VisitPlan::Empty => {
                assert_eq!(expected, 0);
                continue;
            }
            VisitPlan::Decline => panic!("a strict array is visited"),
        };
        let visited = match start_walk(source, at, range) {
            Ok(mut walk) => loop {
                match run_batches(source, &mut walk) {
                    WalkStep::Batch(_) => {}
                    WalkStep::Completed(visited) => break visited,
                    WalkStep::Decline => panic!("a visit that was begun is ended"),
                }
            },
            Err(WalkStep::Completed(visited)) => visited,
            Err(_) => panic!("a strict array is walked"),
        };
        assert_eq!(visited, expected);
    }
}

/// A shrunk commented container loses one member, and no comment but those before it.
#[test]
fn a_shrunk_commented_container_loses_exactly_one_member() {
    let source = "{ /* a */ a: 1, // b\n 'b': [2, /* ] */ 3], // c\n \"c\": ',' /* d */ }";
    let without = |value: &str| {
        let start = source.find(value).expect("value");
        let removed = EditRemoveMembers { spans: vec![Some(Span { start, end: start + value.len() })], keyed: true };
        let cuts = jsonc_render_edit_remove(Some(Span { start: 0, end: 1 }), source.as_bytes(), &removed);
        if cuts.is_empty() {
            return String::from("declined");
        }
        let mut bytes = source.as_bytes().to_vec();
        bytes.splice(cuts[0].start..cuts[0].end, cuts[0].replacement.iter().copied());
        String::from_utf8(bytes).expect("utf8")
    };
    // A block comment before the member is a seam that is not cut.
    assert_eq!(without("1"), "declined");
    assert_eq!(without("[2, /* ] */ 3]"), "{ /* a */ a: 1, // c\n \"c\": ',' /* d */ }");
    assert_eq!(without("','"), "{ /* a */ a: 1, // b\n 'b': [2, /* ] */ 3] /* d */ }");
}
