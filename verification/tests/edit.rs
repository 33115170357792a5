//! Source-preserving edits of strict JSON.

use jqf_codec_json::edit::{
    container_close, member_key_start, member_separator, render_edit_append, render_edit_remove, render_value_bytes,
    value_extent, EditAppendMembers, EditRemoveMembers, EditRemoval, Span,
};
use jqf_codec_json::error::CodecFailureKind;
use jqf_codec_json::value::{Item, Member, NumberText, Value};

fn span(start: usize, end: usize) -> Span {
    Span { start, end }
}

fn item(value: Value) -> Item {
    Item { comments: Vec::new(), value }
}

fn number(text: &str) -> Value {
    Value::Number(NumberText::Integer(String::from(text)))
}

fn member(key: &str, value: Value) -> Member {
    Member { key: String::from(key), item: item(value) }
}

/// A grown nested container's new member lands at the last member's indentation, not at closer-indent + member-indent:
/// the run between the last value and the closer ends in the CLOSER's column, and only its final line break is the
/// observed wrap.
#[test]
fn nested_append_separator_lands_at_member_indent() {
    let source = b"{\n  \"outer\": {\n    \"a\": 1\n  }\n}";
    // The inner container: `{` at 13, `1` ends at 24, closer `}` at 28.
    let separator = member_separator(source, 13, 25, 29, false, true);
    assert_eq!(separator, b",\n    ", "nested object append: {separator:?}");

    let source = b"[\n  1,\n  [\n    2\n  ]\n]";
    // The inner array: `[` at 7, `2` ends at 15, closer `]` at 19.
    let separator = member_separator(source, 7, 16, 20, false, true);
    assert_eq!(separator, b",\n    ", "nested array append: {separator:?}");
}

/// A single-quoted JSON5 string widens across its quote pair exactly like a double-quoted one.
#[test]
fn value_extent_widens_across_a_single_quote_pair() {
    // `{a: 'x', b: 2}` — the value's inner span is `x` at [5, 6).
    let source = b"{a: 'x', b: 2}";
    assert_eq!(value_extent(source, span(5, 6)), Some((4, 7)));
    // The double-quoted twin keeps its answer.
    let source = b"{a: \"x\", b: 2}";
    assert_eq!(value_extent(source, span(5, 6)), Some((4, 7)));
    // An escaped quote inside the body cannot confuse the pair check.
    let source = b"['it\\'s']";
    assert_eq!(value_extent(source, span(2, 7)), Some((1, 8)));
}

/// A one-char SINGLE-quoted string whose content opens a container is not a built-container anchor.
#[test]
fn value_extent_single_quoted_delimiter_content_is_not_an_anchor() {
    // `['[']` — the inner span is `[` at [2, 3).
    let source = b"['[']";
    assert_eq!(value_extent(source, span(2, 3)), Some((1, 4)));
    // `['{']` — same law for the object delimiter.
    let source = b"['{']";
    assert_eq!(value_extent(source, span(2, 3)), Some((1, 4)));
}

/// The key walk accepts a single-quoted JSON5 key.
#[test]
fn member_key_start_walks_back_over_a_single_quoted_key() {
    // `{'a': 1}` — the value token `1` sits at [6, 7).
    let source = b"{'a': 1}";
    assert_eq!(member_key_start(source, 0, 6), Some(1));
    // The double-quoted twin keeps its answer.
    let source = b"{\"a\": 1}";
    assert_eq!(member_key_start(source, 0, 6), Some(1));
    // A quote where the container opens is no key of its member.
    assert_eq!(member_key_start(b"\"a\":1", 0, 4), None);
}

/// Root containers: a bare-newline closer run composes with the member indent.
#[test]
fn root_append_separator_is_unchanged() {
    let source = b"{\n  \"a\": 1\n}";
    // `{` at 0, `1` ends at 9, closer `}` at 11 (exclusive close 12).
    let separator = member_separator(source, 0, 10, 12, false, true);
    assert_eq!(separator, b",\n  ");

    // Blank lines between the last member and the closer survive.
    let source = b"{\n  \"a\": 1\n\n\n}";
    let separator = member_separator(source, 0, 10, 14, false, true);
    assert_eq!(separator, b",\n\n\n  ");
}

fn grown(source: &[u8], members: EditAppendMembers) -> String {
    let insertions = render_edit_append(Some(span(0, 1)), source, members, 64).expect("renders");
    assert_eq!(insertions.len(), 1);
    let mut bytes = source[..insertions[0].at].to_vec();
    bytes.extend_from_slice(&insertions[0].bytes);
    bytes.extend_from_slice(&source[insertions[0].at..]);
    String::from_utf8(bytes).expect("utf8")
}

/// A grown container splices after its last member in its own style; an empty one right after its opening delimiter.
#[test]
fn a_grown_container_keeps_its_own_style() {
    let members = vec![member("x", number("2"))];
    assert_eq!(grown(b"{\"a\":1}", EditAppendMembers::Table(&members)), "{\"a\":1,\"x\":2}");
    assert_eq!(
        grown(b"{\n  \"a\": 1\n}", EditAppendMembers::Table(&members)),
        "{\n  \"a\": 1,\n  \"x\": 2\n}"
    );
    assert_eq!(grown(b"{}", EditAppendMembers::Table(&members)), "{\"x\":2}");
    let items = vec![item(number("3")), item(Value::Text(String::from("q\"")))];
    assert_eq!(grown(b"[1]", EditAppendMembers::Array(&items)), "[1,3,\"q\\\"\"]");
    // Two members of an empty container are two members.
    assert_eq!(grown(b"[]", EditAppendMembers::Array(&items)), "[3,\"q\\\"\"]");
    let numbers = vec![item(number("1")), item(number("2"))];
    assert_eq!(grown(b"[]", EditAppendMembers::Array(&numbers)), "[1,2]");
    let two = vec![member("x", number("1")), member("y", number("2"))];
    assert_eq!(grown(b"{ }", EditAppendMembers::Table(&two)), "{\"x\":1,\"y\":2 }");
    assert_eq!(grown(b"[\n\t1\n]", EditAppendMembers::Array(&items)), "[\n\t1,\n\t3,\n\t\"q\\\"\"\n]");
}

/// A region that cannot be named declines, and a member that cannot be rendered refuses.
#[test]
fn an_append_declines_or_refuses() {
    let members = vec![member("x", number("2"))];
    assert!(render_edit_append(None, b"{}", EditAppendMembers::Table(&members), 64).expect("declines").is_empty());
    assert!(
        render_edit_append(Some(span(0, 1)), b"{\"a\":1", EditAppendMembers::Table(&members), 64)
            .expect("declines")
            .is_empty()
    );
    let deep = vec![member("x", Value::Array(Vec::new()))];
    assert!(matches!(
        render_edit_append(Some(span(0, 1)), b"{}", EditAppendMembers::Table(&deep), 0),
        Err(CodecFailureKind::NestingLimit)
    ));
}

fn cut(source: &[u8], removals: &[EditRemoval]) -> String {
    let mut bytes = source.to_vec();
    for removal in removals.iter().rev() {
        bytes.splice(removal.start..removal.end, removal.replacement.iter().copied());
    }
    String::from_utf8(bytes).expect("utf8")
}

/// A removal cuts the member and exactly one comma: the preceding one, or the following one for the first member.
#[test]
fn a_shrunk_container_loses_one_member_and_one_comma() {
    let source = b"{\"a\":1,\"b\":2}";
    let first = EditRemoveMembers { spans: vec![Some(span(5, 6))], keyed: true };
    assert_eq!(cut(source, &render_edit_remove(Some(span(0, 1)), source, &first)), "{\"b\":2}");
    let second = EditRemoveMembers { spans: vec![Some(span(11, 12))], keyed: true };
    assert_eq!(cut(source, &render_edit_remove(Some(span(0, 1)), source, &second)), "{\"a\":1}");
    let source = b"{\n  \"a\": 1\n}";
    let lone = EditRemoveMembers { spans: vec![Some(span(9, 10))], keyed: true };
    assert_eq!(cut(source, &render_edit_remove(Some(span(0, 1)), source, &lone)), "{}");
    let source = b"[1, 2, 3]";
    let middle = EditRemoveMembers { spans: vec![Some(span(4, 5))], keyed: false };
    assert_eq!(cut(source, &render_edit_remove(Some(span(0, 1)), source, &middle)), "[1, 3]");
    // A member without a span declines the whole removal.
    let unknown = EditRemoveMembers { spans: vec![Some(span(4, 5)), None], keyed: false };
    assert!(render_edit_remove(Some(span(0, 1)), source, &unknown).is_empty());
    // A span past the source's end is not covered by it.
    let past = EditRemoveMembers { spans: vec![Some(span(1, source.len() + 1))], keyed: false };
    assert!(render_edit_remove(Some(span(0, 1)), source, &past).is_empty());
}

#[test]
fn a_leaf_renders_compact_and_a_container_closes_at_its_own_delimiter() {
    let value = item(Value::Object(vec![member("k", Value::Array(vec![item(Value::Null), item(Value::Bool(true))]))]));
    assert_eq!(render_value_bytes(&value, 64).expect("renders"), b"{\"k\":[null,true]}");
    assert_eq!(container_close(b"[\"]\",{\"a\":[]}] tail", 0), Some(14));
    assert_eq!(container_close(b"[}", 0), None);
    assert_eq!(container_close(b"[\"open", 0), None);
}
