//! JSONC: comments, trailing commas, the comment-aware edits, and the dialects.

use jqf_codec_json::byte_scan::trivia_prefix_len;
use jqf_codec_json::edit::{EditAppendMembers, EditRemoveMembers, Span};
use jqf_codec_json::encode::{FactPreservation, JsonEncoder};
use jqf_codec_json::error::CodecFailureKind;
use jqf_codec_json::factory::RequestOptions;
use jqf_codec_json::grammar::{commented_grammar, session_grammar, JsonGrammar};
use jqf_codec_json::jsonc::comments::{render_comment_write, slash_comment_block};
use jqf_codec_json::jsonc::encode::{
    jsonc_container_scan, jsonc_member_cut, jsonc_render_edit_append, jsonc_render_edit_remove,
};
use jqf_codec_json::jsonc::index::{build_comment_index, Fact, FactEntry, FactOwner, FactPayload};
use jqf_codec_json::jsonc::provider::{
    commented_span_materializer, decode_shape, jsonc_spec, open_route, try_reopen_route, AccessResultKind, AccessShape,
    DiagnosticCoverage, DiagnosticPolicy, FactIntent, Omission, OpenRoute, RecycledState, SpanReader,
};
use jqf_codec_json::jsonc::{
    create_factory, expect_target, JsoncEncodeOptions, JsoncEncodeProfile, DEFAULT_DIALECT_ID, DEFAULT_JQF_DIALECT_ID,
    FORMAT_ID, JQF_1_0_DIALECT_ID, TRAILING_DIALECT_ID, TRAILING_JQF_DIALECT_ID,
};
use jqf_codec_json::options::JsonEncodeOptions;
use jqf_codec_json::value::{Item, Member, NumberText, Value};

fn item(value: Value) -> Item {
    Item { comments: Vec::new(), value }
}

fn number(text: &str) -> Value {
    Value::Number(NumberText::Integer(String::from(text)))
}

/// Applies one object-append splice of `"x": 2` and returns the patched bytes. An empty insertion set is the floor; these
/// shapes must splice.
fn append_x(bytes: &[u8]) -> String {
    let members = vec![Member { key: String::from("x"), item: item(number("2")) }];
    let root = Span { start: 0, end: 1 };
    let insertions =
        jsonc_render_edit_append(Some(root), bytes, EditAppendMembers::Table(&members), 64).expect("append");
    assert_eq!(insertions.len(), 1, "the append must splice: {bytes:?}");
    let insertion = &insertions[0];
    let mut patched = bytes[..insertion.at].to_vec();
    patched.extend_from_slice(&insertion.bytes);
    patched.extend_from_slice(&bytes[insertion.at..]);
    String::from_utf8(patched).expect("utf8")
}

/// The append splice never orphans a trailing comment: the new member lands BEFORE the comment block, which stays a
/// trailer.
#[test]
fn append_splice_preserves_trailing_comment() {
    let text = append_x(b"{\n  \"a\": 1,\n  // trailing\n}\n");
    assert!(text.contains("// trailing"), "trailing comment must survive: {text}");
    let after = text.find("\"x\"").expect("new member present");
    let comment = text.find("// trailing").expect("comment present");
    assert!(after < comment, "new member lands before the comment: {text}");
}

/// New members land before the trailer when the last member's trailing comma is separated from the value by whitespace or
/// a comment. The last member keeps its own trailing comma; sibling `/* */` bytes stay verbatim.
#[test]
fn append_splice_comma_and_comment_together() {
    let cases: &[(&'static [u8], &str)] = &[
        // Same-line comma then comment.
        (b"{ \"a\": 1, // c\n}", "{ \"a\": 1, \"x\": 2, // c\n}"),
        // Space before the comma.
        (b"{ \"a\": 1 , // c\n}", "{ \"a\": 1 , \"x\": 2, // c\n}"),
        // Comma on the comment line.
        (b"{ \"a\": 1\n, // c\n}", "{ \"a\": 1\n, \"x\": 2, // c\n}"),
        // Block comment between the value and the comma.
        (br#"{ "a": 1 /* c */,}"#, r#"{ "a": 1,"x":2 /* c */,}"#),
        // Leading comment plus a trailing comma.
        (b"{ // lead\n  \"a\": 1,\n}", "{ // lead\n  \"a\": 1,\n  \"x\": 2,\n}"),
        // tsconfig-shaped last member.
        (
            b"{\n  \"strict\": true, // type-check\n}\n",
            "{\n  \"strict\": true, \"x\": 2, // type-check\n}\n",
        ),
        // Sibling block comment stays verbatim.
        (
            b"{\n  /* keep */\n  \"a\": 1 , // c\n}",
            "{\n  /* keep */\n  \"a\": 1 , \"x\": 2, // c\n}",
        ),
    ];
    for (bytes, expected) in cases {
        let text = append_x(bytes);
        assert_eq!(text, *expected, "splice of {bytes:?}");
        if let Some(comment) = text.find("// c").or_else(|| text.find("// type-check")) {
            let member = text.find("\"x\"").expect("new member present");
            assert!(member < comment, "new member lands before the trailer: {text}");
        }
        if bytes.windows(8).any(|window| window == b"/* keep */") {
            assert!(
                text.contains("/* keep */"),
                "sibling block comment must stay verbatim: {text}"
            );
        }
    }
}

/// A last member whose value is itself a multi-member nested container still splices.
#[test]
fn append_splice_survives_nested_commas() {
    let cases: &[(&'static [u8], &str)] = &[
        // Nested object with an internal comma.
        (
            b"{\"outer\": {\"a\": 1, \"b\": 2}}",
            "{\"outer\": {\"a\": 1, \"b\": 2},\"x\":2}",
        ),
        // Nested array with an internal comma.
        (b"{\"list\": [1, 2]}", "{\"list\": [1, 2],\"x\":2}"),
        // Nested containers before a later flat member.
        (
            b"{\"m\": [{\"i\": 1, \"j\": 2}], \"k\": true}",
            "{\"m\": [{\"i\": 1, \"j\": 2}], \"k\": true,\"x\":2}",
        ),
    ];
    for (bytes, expected) in cases {
        assert_eq!(append_x(bytes), *expected, "splice of {bytes:?}");
    }
}

/// A multi-line comment payload emits every line through the splice path, exactly as the whole-document encoder does.
#[test]
fn comment_write_multiline_payload_emits_every_line() {
    let bytes = b"{\n  \"a\": 1\n}\n";
    let payload = Value::Array(vec![item(Value::Text(String::from("line1\nline2")))]);
    let patches = render_comment_write(Some(Span { start: 0, end: 1 }), bytes, &payload)
        .expect("comment write")
        .expect("a comment on a spanned node splices");
    assert_eq!(patches.len(), 1);
    let replacement = String::from_utf8(patches[0].replacement.clone()).expect("utf8");
    assert!(
        replacement.contains("// line1\n") && replacement.contains("// line2\n"),
        "both lines emitted as separate comments: {replacement:?}"
    );
}

/// Encodes one array under a request that carries no options, so the request DIALECT alone selects the comma law.
fn encode_array_under(dialect: &str) -> Vec<u8> {
    let config = create_factory(FORMAT_ID, dialect, RequestOptions::Absent, 64).expect("jsonc factory");
    let mut encoder = JsonEncoder::new(config, FactPreservation::Exact);
    let mut bytes = Vec::new();
    let array = item(Value::Array(vec![item(number("1")), item(number("2"))]));
    encoder.encode(&array, b"", &mut bytes).expect("encode");
    bytes
}

/// The dialect names the comma law: a request naming the strict-comma output profiles writes NO trailing comma where the
/// trailing profile writes one.
#[test]
fn encode_honors_a_non_default_dialect_selection() {
    // The trailing profile keeps its comma...
    assert_eq!(encode_array_under(TRAILING_JQF_DIALECT_ID), &b"[1,2,]"[..]);
    // ...the NON-default strict-comma profiles do not.
    assert_eq!(encode_array_under(DEFAULT_JQF_DIALECT_ID), &b"[1,2]"[..]);
    assert_eq!(
        encode_array_under(JQF_1_0_DIALECT_ID),
        &b"[1,2]"[..],
        "the edit floor's dialect renders strict commas too"
    );
    // A dialect this registration does not carry is a mismatch, never another profile's bytes.
    assert!(
        create_factory(FORMAT_ID, "jsonc.bogus@9", RequestOptions::Absent, 64).is_err(),
        "a foreign jsonc dialect must be a target mismatch"
    );
}

#[test]
fn targets_and_options_are_checked() {
    assert_eq!(expect_target(FORMAT_ID, TRAILING_DIALECT_ID), Ok(()));
    assert_eq!(expect_target("json", TRAILING_DIALECT_ID), Err(CodecFailureKind::RequirementMismatch));
    assert_eq!(expect_target(FORMAT_ID, "jsonc.bogus@9"), Err(CodecFailureKind::RequirementMismatch));
    assert!(JsoncEncodeOptions::default().trailing_commas());
    let strict = JsoncEncodeOptions { profile: JsoncEncodeProfile::Default, ..JsoncEncodeOptions::default() };
    assert!(!strict.trailing_commas());
    // An explicit options payload overrides the dialect's own law.
    let config = create_factory(FORMAT_ID, TRAILING_DIALECT_ID, RequestOptions::Jsonc(strict), 64).expect("target");
    assert!(!config.render.trailing_commas && config.render.comments);
    assert!(matches!(
        create_factory(FORMAT_ID, TRAILING_DIALECT_ID, RequestOptions::Json(JsonEncodeOptions::default()), 64),
        Err(CodecFailureKind::RequirementMismatch)
    ));
}

/// A removal takes its own leading comment block with it, and declines over a block comment it cannot split.
#[test]
fn a_removal_takes_its_comments_with_it() {
    let source = b"{\n  \"a\": 1,\n  // about b\n  \"b\": 2\n}";
    let removed = EditRemoveMembers { spans: vec![Some(Span { start: 32, end: 33 })], keyed: true };
    let removals = jsonc_render_edit_remove(Some(Span { start: 0, end: 1 }), source, &removed);
    assert_eq!(removals.len(), 1);
    let mut bytes = source.to_vec();
    bytes.splice(removals[0].start..removals[0].end, removals[0].replacement.iter().copied());
    assert_eq!(String::from_utf8(bytes).expect("utf8"), "{\n  \"a\": 1\n}");
}

fn cut_of(source: &[u8], value: &str) -> Option<(usize, usize)> {
    let token = source.windows(value.len()).rposition(|window| window == value.as_bytes()).expect("value");
    jsonc_member_cut(source, 0, token, token + value.len(), true).map(|cut| (cut.start, cut.end))
}

/// A cut leaves every other member standing, wherever the comments stand.
#[test]
fn a_removal_spares_the_other_members() {
    // A comment on the comma's own line leaves with the member behind it.
    assert_eq!(cut_of(b"{\"a\":1, // n\n\"b\":2}", "2"), Some((6, 18)));
    // A `//` inside a string is no comment, and a quote inside a comment no string.
    assert_eq!(cut_of(b"{\"a\":\"//\", // \"n\n\"b\":2}", "2"), Some((9, 22)));
    // The first member leaves with its comments and its own comma.
    assert_eq!(cut_of(b"{ // n\n \"a\":1, \"b\":2}", "1"), Some((1, 14)));
    assert_eq!(cut_of(b"{\"a\":1 // n\n}", "1"), Some((1, 6)));
    // A block comment before the member, or any comment before the first member's comma, is a seam that declines.
    assert_eq!(cut_of(b"{\"a\":1, /* n */ \"b\":2}", "2"), None);
    assert_eq!(cut_of(b"{\"a\":1, /* n */ // m\n \"b\":2}", "2"), None);
    assert_eq!(cut_of(b"{\"a\":1 // n\n, \"b\":2}", "1"), None);
}

/// The block a comment write replaces is whole lines of comments and whitespace.
#[test]
fn a_comment_block_holds_nothing_but_comments() {
    assert_eq!(slash_comment_block(b"/* c */ {\"a\":1}", 9), (9, 9, &b""[..]));
    assert_eq!(slash_comment_block(b"{\n  // c\n\n  \"a\":1}", 12), (2, 10, &b"  "[..]));
    assert_eq!(slash_comment_block(b"{\n/* c\n d */\n\"a\":1}", 13), (2, 13, &b""[..]));
    // A comment behind a member's comma stays on that member's line.
    assert_eq!(slash_comment_block(b"{\"a\":1, // n\n\"b\":2}", 13), (13, 13, &b""[..]));
    // A line that starts inside a comment is not cut off from it.
    assert_eq!(slash_comment_block(b"{ /* c\n d */\n\"a\":1}", 13), (13, 13, &b""[..]));
    assert_eq!(slash_comment_block(b"{\n/* c */ \"a\":1}", 10), (2, 10, &b""[..]));
}

#[test]
fn the_container_scan_skips_strings_and_comments() {
    assert_eq!(jsonc_container_scan(b"[1, \"]\" /* ] */ ]", 0), Some((17, 7, false)));
    assert_eq!(jsonc_container_scan(b"[ // ]\n]", 0), Some((8, 0, true)));
    assert_eq!(jsonc_container_scan(b"[1 /* never", 0), None);
}

/// The index keeps the texts of the role, by node: a later fact of a node takes the place of an earlier one.
#[test]
fn the_comment_index_keeps_the_roles_texts() {
    let fact = |owner: FactOwner, role: &str, texts: Vec<FactEntry>| Fact {
        owner,
        role: String::from(role),
        payload: FactPayload::List(texts),
    };
    let text = |text: &str| FactEntry::Text(String::from(text));
    let facts = vec![
        fact(FactOwner::Node(3), "jsonc.comment@1", vec![text("old")]),
        fact(FactOwner::Node(3), "jsonc.comment@1", vec![text("one"), FactEntry::Opaque, text("two")]),
        fact(FactOwner::Node(4), "json5.comment@1", vec![text("other role")]),
        fact(FactOwner::Elsewhere, "jsonc.comment@1", vec![text("no node")]),
        fact(FactOwner::Node(5), "jsonc.comment@1", vec![FactEntry::Opaque]),
    ];
    let index = build_comment_index(&facts, "jsonc.comment@1");
    assert_eq!(index.len(), 1);
    assert_eq!(index.get(&3), Some(&vec![String::from("one"), String::from("two")]));
}

#[test]
fn dialects_pick_the_decode() {
    let trailing = jsonc_spec(TRAILING_DIALECT_ID).expect("trailing");
    assert!(trailing.trailing_commas && !trailing.json5 && trailing.consume_bom);
    assert!(!jsonc_spec(DEFAULT_DIALECT_ID).expect("default").trailing_commas);
    assert_eq!(jsonc_spec(TRAILING_JQF_DIALECT_ID), Err(CodecFailureKind::RequirementMismatch));
    assert_eq!(
        commented_grammar(true, false, true),
        JsonGrammar { comments: true, trailing_commas: true, lenient: true, json5: false }
    );
    assert_eq!(session_grammar(true), JsonGrammar { lenient: true, ..JsonGrammar::strict() });
    assert_eq!(
        commented_span_materializer(false, true, true),
        SpanReader { trailing_commas: true, json5: true, attach_facts: true }
    );
    assert_eq!(
        decode_shape(DiagnosticPolicy::All, FactIntent::Preserve, false),
        (DiagnosticCoverage::AuthoritativeEmpty, true)
    );
    assert_eq!(
        decode_shape(DiagnosticPolicy::ErrorsOnly, FactIntent::Ignore, false),
        (DiagnosticCoverage::NotRequested, false)
    );
}

#[test]
fn slots_open_and_reopen_their_routes() {
    let whole = AccessShape {
        whole: true,
        empty_schedule: true,
        result: AccessResultKind::CompleteDocument,
        exact_path: false,
        singleton_origin: false,
        lazy_frontier: 0,
        prune: true,
    };
    let refusal = Err(CodecFailureKind::RequirementMismatch);
    assert_eq!(open_route(0, whole, Ok(()), refusal), Ok(OpenRoute::Whole(Omission::Prune)));
    let lazy = AccessShape { lazy_frontier: 2, ..whole };
    assert_eq!(open_route(0, lazy, Ok(()), refusal), Ok(OpenRoute::Whole(Omission::Frontier(2))));
    assert_eq!(open_route(1, whole, Ok(()), refusal), Err(CodecFailureKind::RequirementMismatch));
    assert_eq!(open_route(2, whole, Ok(()), Ok(())), Err(CodecFailureKind::ProviderRouteMismatch));
    assert_eq!(try_reopen_route(0, whole, RecycledState::Parse), Some(OpenRoute::Whole(Omission::Prune)));
    assert_eq!(try_reopen_route(0, lazy, RecycledState::Parse), Some(OpenRoute::Whole(Omission::Nothing)));
    assert_eq!(try_reopen_route(0, whole, RecycledState::Foreign), None);
    let located = AccessShape {
        whole: false,
        empty_schedule: false,
        result: AccessResultKind::Located,
        exact_path: true,
        singleton_origin: true,
        ..whole
    };
    assert_eq!(
        try_reopen_route(1, located, RecycledState::Scoped { takes_path: true }),
        Some(OpenRoute::Scoped)
    );
    assert_eq!(try_reopen_route(1, located, RecycledState::Scoped { takes_path: false }), None);
    assert_eq!(try_reopen_route(1, whole, RecycledState::Scoped { takes_path: true }), None);
}

fn comments_of(bytes: &[u8], grammar: JsonGrammar) -> (usize, bool, Vec<String>) {
    let mut texts = Vec::new();
    let (len, open) = trivia_prefix_len(bytes, grammar, Some(&mut texts)).expect("reserved");
    (len, open, texts)
}

/// Comment texts lose their marker and one following space; a CRLF line's text loses its carriage return.
#[test]
fn trivia_collects_comment_texts() {
    let grammar = commented_grammar(true, false, false);
    assert_eq!(
        comments_of(b" // one\n/* two */\t//three\r\nx", grammar),
        (27, false, vec![String::from("one"), String::from("two"), String::from("three")])
    );
    // Bytes that are no UTF-8 are read with the replacement character.
    assert_eq!(
        comments_of(b"// a\xffb\n1", grammar),
        (7, false, vec![String::from("a\u{fffd}b")])
    );
    assert_eq!(comments_of(b"  // x\n", JsonGrammar::strict()), (2, false, Vec::new()));
}

#[test]
fn line_comment_longer_than_one_grant_decodes_with_complete_fact() {
    let body = "jqf keeps configuration comments intact. ".repeat(9);
    assert!(body.len() + 4 > 256, "fixture must be a long one");
    let source = format!("// {body}\n{{\"a\": 1}}\n");
    let (len, open, texts) = comments_of(source.as_bytes(), commented_grammar(true, false, false));
    assert_eq!((len, open), (body.len() + 4, false));
    assert_eq!(texts, vec![body]);
}

#[test]
fn block_comment_spanning_several_grants_decodes_with_complete_fact() {
    let body = "block comment body crossing many work windows. ".repeat(16);
    assert!(body.len() + 6 > 512, "fixture must be a long one");
    let source = format!("/* {body} */\n{{\"a\": 1}}\n");
    let (len, open, texts) = comments_of(source.as_bytes(), commented_grammar(true, false, false));
    assert_eq!((len, open), (body.len() + 7, false));
    assert_eq!(texts, vec![body]);
}

#[test]
fn crlf_line_comment_fact_has_no_trailing_carriage_return() {
    let bytes = b"{\r\n  // compiler options\r\n  \"target\": \"ES2020\"\r\n}\r\n";
    let (len, open, texts) = comments_of(&bytes[1..], commented_grammar(true, false, false));
    assert_eq!((bytes[1 + len], open), (b'"', false));
    assert_eq!(texts, vec![String::from("compiler options")]);
}
