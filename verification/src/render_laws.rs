//! What the scans make of rendered JSON: a rendered value ends where it was ended, a container's region is its own, an
//! array counts its items, and a compact record stays on its line.

use vstd::prelude::*;

use crate::ascii::{
    APOSTROPHE, BACKSLASH, CLOSE_BRACE, CLOSE_BRACKET, COLON, COMMA, OPEN_BRACE, OPEN_BRACKET, QUOTE, SLASH,
};

use vstd::utf8::{decode_first_scalar, pop_first_scalar, valid_first_scalar, valid_utf8};

use crate::byte_scan::{json_ws, run_end, StopSet};
use crate::edit::{close_from, closer, closer_of, opener, region_end, string_close};
use crate::encode_text::{lemma_first_scalar, quoted, text_body, unit_escape};
use crate::jsonc::members::{commented_close, lemma_commented_close_shifts};
use crate::lazy::{after_element, array_count, content_end, counted_from, nested_end, value_end, AfterElement};
use crate::options::JsonIndent;
use crate::render::{element_break, render_elements, render_members, render_value, RenderStyle};
use crate::text_laws::{
    first_unit, lemma_body_by_units, lemma_body_closes_at_its_quote, lemma_content_end_shifts, lemma_end_is_past_unit,
    passed_over,
};
use crate::value::{member_order, number_bytes, utf8, Item, Member, Value};

verus! {

/// A run's end does not depend on what stands before its start.
pub proof fn lemma_run_end_shifts(before: Seq<u8>, bytes: Seq<u8>, at: int, set: StopSet)
    requires
        0 <= at,
    ensures
        run_end(before + bytes, before.len() + at, set) == before.len() + run_end(bytes, at, set),
    decreases bytes.len() - at,
{
    if at < bytes.len() {
        assert((before + bytes)[before.len() + at] == bytes[at]);
        if !set.stops(bytes[at]) {
            lemma_run_end_shifts(before, bytes, at + 1, set);
        }
    }
}

/// A container's end does not depend on what stands before its start.
pub proof fn lemma_nested_end_shifts(before: Seq<u8>, bytes: Seq<u8>, at: int, depth: nat)
    requires
        0 <= at,
    ensures
        nested_end(before + bytes, before.len() + at, depth) == before.len() + nested_end(bytes, at, depth),
    decreases bytes.len() - at,
{
    if at < bytes.len() {
        assert((before + bytes)[before.len() + at] == bytes[at]);
        if bytes[at] == QUOTE {
            lemma_content_end_shifts(before, bytes, at + 1);
            crate::lazy::lemma_content_end(bytes, at + 1);
            if let Some(end) = content_end(bytes, at + 1) {
                lemma_nested_end_shifts(before, bytes, end + 1, depth);
            }
        } else if opener(bytes[at]) {
            lemma_nested_end_shifts(before, bytes, at + 1, depth + 1);
        } else if closer(bytes[at]) {
            if depth > 1 {
                lemma_nested_end_shifts(before, bytes, at + 1, (depth - 1) as nat);
            }
        } else {
            lemma_nested_end_shifts(before, bytes, at + 1, depth);
        }
    }
}

/// A value's end does not depend on what stands before its start.
pub proof fn lemma_value_end_shifts(before: Seq<u8>, bytes: Seq<u8>)
    ensures
        value_end(before + bytes, before.len() as int) == before.len() + value_end(bytes, 0),
{
    if bytes.len() > 0 {
        assert((before + bytes)[before.len() as int] == bytes[0]);
    }
    lemma_content_end_shifts(before, bytes, 1);
    lemma_nested_end_shifts(before, bytes, 0, 0);
    lemma_run_end_shifts(before, bytes, 0, StopSet::Delimiter);
}

/// A string's close does not depend on what stands before its start.
pub proof fn lemma_string_close_shifts(before: Seq<u8>, bytes: Seq<u8>, at: int)
    requires
        0 <= at,
    ensures
        string_close(before + bytes, before.len() + at, QUOTE) == match string_close(bytes, at, QUOTE) {
            Some(end) => Some(before.len() + end),
            None => None,
        },
    decreases bytes.len() - at,
{
    if at < bytes.len() {
        assert((before + bytes)[before.len() + at] == bytes[at]);
        if bytes[at] == BACKSLASH {
            if at + 2 <= bytes.len() {
                lemma_string_close_shifts(before, bytes, at + 2);
            }
        } else if bytes[at] != QUOTE {
            lemma_string_close_shifts(before, bytes, at + 1);
        }
    }
}

/// A region's close does not depend on what stands before its start.
pub proof fn lemma_close_from_shifts(before: Seq<u8>, bytes: Seq<u8>, at: int, depth: nat)
    requires
        0 <= at,
    ensures
        close_from(before + bytes, before.len() + at, depth) == match close_from(bytes, at, depth) {
            Some(end) => Some(before.len() + end),
            None => None,
        },
    decreases bytes.len() - at,
{
    if at < bytes.len() {
        assert((before + bytes)[before.len() + at] == bytes[at]);
        if bytes[at] == QUOTE {
            lemma_string_close_shifts(before, bytes, at + 1);
            crate::edit::lemma_string_close(bytes, at + 1, QUOTE);
            if let Some(end) = string_close(bytes, at + 1, QUOTE) {
                lemma_close_from_shifts(before, bytes, end, depth);
            }
        } else if opener(bytes[at]) {
            lemma_close_from_shifts(before, bytes, at + 1, depth + 1);
        } else if closer(bytes[at]) {
            if depth > 1 {
                lemma_close_from_shifts(before, bytes, at + 1, (depth - 1) as nat);
            }
        } else {
            lemma_close_from_shifts(before, bytes, at + 1, depth);
        }
    }
}

/// Whether a string's close is looked for past `unit`: one escape with raw digits behind it, or raw content.
pub open spec fn quote_free(unit: Seq<u8>) -> bool {
    &&& unit.len() > 0 && unit[0] == BACKSLASH ==> unit.len() >= 2
    &&& forall|i: int|
        0 <= i < unit.len() && (unit[0] != BACKSLASH || i >= 2) ==> #[trigger] unit[i] != QUOTE && unit[i] != BACKSLASH
}

pub proof fn lemma_close_is_past_unit(unit: Seq<u8>, rest: Seq<u8>)
    requires
        quote_free(unit),
    ensures
        string_close(unit + rest, 0, QUOTE) == match string_close(rest, 0, QUOTE) {
            Some(end) => Some(unit.len() + end),
            None => None,
        },
    decreases unit.len(),
{
    let whole = unit + rest;
    if unit.len() == 0 {
        assert(whole =~= rest);
    } else {
        let width: int = if unit[0] == BACKSLASH {
            2
        } else {
            1
        };
        let more = unit.skip(width);
        assert(whole[0] == unit[0]);
        assert(whole =~= unit.take(width) + (more + rest));
        assert forall|i: int| 0 <= i < more.len() implies #[trigger] more[i] != QUOTE && more[i] != BACKSLASH by {
            assert(more[i] == unit[i + width]);
        }
        if more.len() > 0 {
            assert(more[0] != BACKSLASH);
        }
        lemma_close_is_past_unit(more, rest);
        lemma_string_close_shifts(unit.take(width), more + rest, 0);
    }
}

/// A written character holds no quote of its own.
proof fn lemma_written_unit_is_quote_free(bytes: Seq<u8>, ascii: bool, rest: Seq<u8>)
    requires
        valid_first_scalar(bytes),
    ensures
        string_close(first_unit(bytes, ascii) + rest, 0, QUOTE) == match string_close(rest, 0, QUOTE) {
            Some(end) => Some(first_unit(bytes, ascii).len() + end),
            None => None,
        },
{
    let unit = first_unit(bytes, ascii);
    if bytes[0] < 0x80 {
        assert(quote_free(unit));
        lemma_close_is_past_unit(unit, rest);
    } else if ascii {
        let codepoint = decode_first_scalar(bytes);
        if codepoint <= 0xffff {
            lemma_close_is_past_unit(unit, rest);
        } else {
            let value = codepoint - 0x10000;
            let high = unit_escape(0xd800 + value / 0x400);
            let low = unit_escape(0xdc00 + value % 0x400);
            assert(unit + rest =~= high + (low + rest));
            lemma_close_is_past_unit(low, rest);
            lemma_close_is_past_unit(high, low + rest);
        }
    } else {
        assert forall|i: int| 0 <= i < unit.len() implies #[trigger] unit[i] != QUOTE && unit[i] != BACKSLASH by {
            assert(unit[i] == bytes[i]);
        }
        assert(quote_free(unit));
        lemma_close_is_past_unit(unit, rest);
    }
}

/// A written text body is closed by the quote behind it and by nothing before.
pub proof fn lemma_body_is_closed_by_its_quote(bytes: Seq<u8>, ascii: bool, behind: Seq<u8>)
    requires
        valid_utf8(bytes),
    ensures
        string_close(text_body(bytes, ascii) + seq![QUOTE] + behind, 0, QUOTE) == Some(
            text_body(bytes, ascii).len() + 1int,
        ),
    decreases bytes.len(),
{
    let body = text_body(bytes, ascii);
    let whole = body + seq![QUOTE] + behind;
    if bytes.len() == 0 {
        assert(body =~= seq![]);
        assert(whole[0] == QUOTE);
    } else {
        lemma_first_scalar(bytes);
        lemma_body_by_units(bytes, ascii);
        let rest = pop_first_scalar(bytes);
        let tail = text_body(rest, ascii) + seq![QUOTE] + behind;
        lemma_body_is_closed_by_its_quote(rest, ascii, behind);
        lemma_written_unit_is_quote_free(bytes, ascii, tail);
        assert(whole =~= first_unit(bytes, ascii) + tail);
    }
}

/// Whether the bracket-counting scans pass over `unit` inside any container, and come out at the depth they went in with.
pub open spec fn balanced(unit: Seq<u8>) -> bool {
    &&& forall|rest: Seq<u8>, depth: nat|
        depth > 0 ==> #[trigger] nested_end(unit + rest, 0, depth) == unit.len() + nested_end(rest, 0, depth)
    &&& forall|rest: Seq<u8>, depth: nat|
        depth > 0 ==> #[trigger] close_from(unit + rest, 0, depth) == match close_from(rest, 0, depth) {
            Some(end) => Some(unit.len() + end),
            None => None,
        }
    &&& forall|rest: Seq<u8>, depth: nat|
        depth > 0 ==> #[trigger] commented_close(unit + rest, 0, depth) == match commented_close(rest, 0, depth) {
            Some(end) => Some(unit.len() + end),
            None => None,
        }
}

/// Two balanced units in a row are balanced.
pub proof fn lemma_balanced_concat(left: Seq<u8>, right: Seq<u8>)
    requires
        balanced(left),
        balanced(right),
    ensures
        balanced(left + right),
{
    assert forall|rest: Seq<u8>, depth: nat| depth > 0 implies #[trigger] nested_end(left + right + rest, 0, depth) == (
    left + right).len() + nested_end(rest, 0, depth) by {
        assert(left + right + rest =~= left + (right + rest));
        assert(nested_end(left + (right + rest), 0, depth) == left.len() + nested_end(right + rest, 0, depth));
        assert(nested_end(right + rest, 0, depth) == right.len() + nested_end(rest, 0, depth));
    }
    assert forall|rest: Seq<u8>, depth: nat| depth > 0 implies #[trigger] close_from(left + right + rest, 0, depth)
        == match close_from(rest, 0, depth) {
        Some(end) => Some((left + right).len() + end),
        None => None,
    } by {
        assert(left + right + rest =~= left + (right + rest));
        assert(close_from(left + (right + rest), 0, depth) == match close_from(right + rest, 0, depth) {
            Some(end) => Some(left.len() + end),
            None => None,
        });
        assert(close_from(right + rest, 0, depth) == match close_from(rest, 0, depth) {
            Some(end) => Some(right.len() + end),
            None => None,
        });
    }
    assert forall|rest: Seq<u8>, depth: nat| depth > 0 implies #[trigger] commented_close(left + right + rest, 0, depth)
        == match commented_close(rest, 0, depth) {
        Some(end) => Some((left + right).len() + end),
        None => None,
    } by {
        assert(left + right + rest =~= left + (right + rest));
        assert(commented_close(left + (right + rest), 0, depth) == match commented_close(right + rest, 0, depth) {
            Some(end) => Some(left.len() + end),
            None => None,
        });
        assert(commented_close(right + rest, 0, depth) == match commented_close(rest, 0, depth) {
            Some(end) => Some(right.len() + end),
            None => None,
        });
    }
}

/// Whether a byte neither opens, closes, quotes nor starts a comment.
pub open spec fn flat(byte: u8) -> bool {
    byte != QUOTE && byte != APOSTROPHE && byte != SLASH && !opener(byte) && !closer(byte)
}

/// Flat bytes are balanced.
pub proof fn lemma_flat_is_balanced(unit: Seq<u8>)
    requires
        forall|i: int| 0 <= i < unit.len() ==> flat(#[trigger] unit[i]),
    ensures
        balanced(unit),
    decreases unit.len(),
{
    if unit.len() == 0 {
        assert forall|rest: Seq<u8>, depth: nat| depth > 0 implies #[trigger] nested_end(unit + rest, 0, depth)
            == unit.len() + nested_end(rest, 0, depth) by {
            assert(unit + rest =~= rest);
        }
        assert forall|rest: Seq<u8>, depth: nat| depth > 0 implies #[trigger] close_from(unit + rest, 0, depth)
            == match close_from(rest, 0, depth) {
            Some(end) => Some(unit.len() + end),
            None => None,
        } by {
            assert(unit + rest =~= rest);
        }
        assert forall|rest: Seq<u8>, depth: nat| depth > 0 implies #[trigger] commented_close(unit + rest, 0, depth)
            == match commented_close(rest, 0, depth) {
            Some(end) => Some(unit.len() + end),
            None => None,
        } by {
            assert(unit + rest =~= rest);
        }
    } else {
        let first = seq![unit[0]];
        let more = unit.skip(1);
        assert(flat(unit[0]));
        assert forall|rest: Seq<u8>, depth: nat| depth > 0 implies #[trigger] nested_end(first + rest, 0, depth)
            == first.len() + nested_end(rest, 0, depth) by {
            assert((first + rest)[0] == unit[0]);
            lemma_nested_end_shifts(first, rest, 0, depth);
        }
        assert forall|rest: Seq<u8>, depth: nat| depth > 0 implies #[trigger] close_from(first + rest, 0, depth)
            == match close_from(rest, 0, depth) {
            Some(end) => Some(first.len() + end),
            None => None,
        } by {
            assert((first + rest)[0] == unit[0]);
            lemma_close_from_shifts(first, rest, 0, depth);
        }
        assert forall|rest: Seq<u8>, depth: nat| depth > 0 implies #[trigger] commented_close(first + rest, 0, depth)
            == match commented_close(rest, 0, depth) {
            Some(end) => Some(first.len() + end),
            None => None,
        } by {
            assert((first + rest)[0] == unit[0]);
            lemma_commented_close_shifts(first, rest, 0, depth);
        }
        assert forall|i: int| 0 <= i < more.len() implies flat(#[trigger] more[i]) by {
            assert(more[i] == unit[i + 1]);
        }
        lemma_flat_is_balanced(more);
        lemma_balanced_concat(first, more);
        assert(first + more =~= unit);
    }
}

/// A container around something balanced is balanced, and ends at its own closing delimiter.
pub proof fn lemma_container_is_balanced(open: u8, inner: Seq<u8>, close: u8)
    requires
        opener(open),
        closer(close),
        balanced(inner),
    ensures
        balanced(seq![open] + inner + seq![close]),
        forall|rest: Seq<u8>|
            #[trigger] nested_end(seq![open] + inner + seq![close] + rest, 0, 0) == inner.len() + 2,
        forall|rest: Seq<u8>|
            #[trigger] close_from(seq![open] + inner + seq![close] + rest, 0, 0) == Some(inner.len() + 2int),
        forall|rest: Seq<u8>|
            #[trigger] commented_close(inner + (seq![close] + rest), 0, 1) == Some(inner.len() + 1int),
{
    let unit = seq![open] + inner + seq![close];
    assert forall|rest: Seq<u8>, depth: nat| true implies #[trigger] nested_end(unit + rest, 0, depth) == if depth > 0 {
        unit.len() + nested_end(rest, 0, depth)
    } else {
        inner.len() + 2int
    } by {
        let tail = seq![close] + rest;
        assert(unit + rest =~= seq![open] + (inner + tail));
        assert((unit + rest)[0] == open);
        assert(tail[0] == close);
        lemma_nested_end_shifts(seq![open], inner + tail, 0, depth + 1);
        assert(nested_end(inner + tail, 0, depth + 1) == inner.len() + nested_end(tail, 0, depth + 1));
        lemma_nested_end_shifts(seq![close], rest, 0, depth);
    }
    assert forall|rest: Seq<u8>, depth: nat| true implies #[trigger] close_from(unit + rest, 0, depth) == if depth > 0 {
        match close_from(rest, 0, depth) {
            Some(end) => Some(unit.len() + end),
            None => None,
        }
    } else {
        Some(inner.len() + 2int)
    } by {
        let tail = seq![close] + rest;
        assert(unit + rest =~= seq![open] + (inner + tail));
        assert((unit + rest)[0] == open);
        assert(tail[0] == close);
        lemma_close_from_shifts(seq![open], inner + tail, 0, depth + 1);
        assert(close_from(inner + tail, 0, depth + 1) == match close_from(tail, 0, depth + 1) {
            Some(end) => Some(inner.len() + end),
            None => None,
        });
        lemma_close_from_shifts(seq![close], rest, 0, depth);
    }
    assert forall|rest: Seq<u8>| true implies #[trigger] commented_close(inner + (seq![close] + rest), 0, 1) == Some(
        inner.len() + 1int,
    ) by {
        let tail = seq![close] + rest;
        assert(tail[0] == close);
        assert(commented_close(tail, 0, 1) == Some(1int));
    }
    assert forall|rest: Seq<u8>, depth: nat| depth > 0 implies #[trigger] commented_close(unit + rest, 0, depth)
        == match commented_close(rest, 0, depth) {
        Some(end) => Some(unit.len() + end),
        None => None,
    } by {
        let tail = seq![close] + rest;
        assert(unit + rest =~= seq![open] + (inner + tail));
        assert((unit + rest)[0] == open);
        assert(tail[0] == close);
        lemma_commented_close_shifts(seq![open], inner + tail, 0, depth + 1);
        assert(commented_close(inner + tail, 0, depth + 1) == match commented_close(tail, 0, depth + 1) {
            Some(end) => Some(inner.len() + end),
            None => None,
        });
        lemma_commented_close_shifts(seq![close], rest, 0, depth);
    }
}

/// A string is balanced when both scans of a string end it at its closing quote.
proof fn lemma_string_is_balanced(body: Seq<u8>)
    requires
        forall|rest: Seq<u8>| #[trigger] content_end(body + seq![QUOTE] + rest, 0) == Some(body.len() as int),
        forall|rest: Seq<u8>| #[trigger] string_close(body + seq![QUOTE] + rest, 0, QUOTE) == Some(body.len() + 1int),
    ensures
        balanced(seq![QUOTE] + body + seq![QUOTE]),
{
    let unit = seq![QUOTE] + body + seq![QUOTE];
    assert forall|rest: Seq<u8>, depth: nat| depth > 0 implies #[trigger] nested_end(unit + rest, 0, depth)
        == unit.len() + nested_end(rest, 0, depth) by {
        let tail = body + seq![QUOTE] + rest;
        assert(unit + rest =~= seq![QUOTE] + tail);
        assert((unit + rest)[0] == QUOTE);
        assert(content_end(tail, 0) == Some(body.len() as int));
        lemma_content_end_shifts(seq![QUOTE], tail, 0);
        lemma_nested_end_shifts(unit, rest, 0, depth);
    }
    assert forall|rest: Seq<u8>, depth: nat| depth > 0 implies #[trigger] close_from(unit + rest, 0, depth)
        == match close_from(rest, 0, depth) {
        Some(end) => Some(unit.len() + end),
        None => None,
    } by {
        let tail = body + seq![QUOTE] + rest;
        assert(unit + rest =~= seq![QUOTE] + tail);
        assert((unit + rest)[0] == QUOTE);
        assert(string_close(tail, 0, QUOTE) == Some(body.len() + 1int));
        lemma_string_close_shifts(seq![QUOTE], tail, 0);
        lemma_close_from_shifts(unit, rest, 0, depth);
    }
    assert forall|rest: Seq<u8>, depth: nat| depth > 0 implies #[trigger] commented_close(unit + rest, 0, depth)
        == match commented_close(rest, 0, depth) {
        Some(end) => Some(unit.len() + end),
        None => None,
    } by {
        let tail = body + seq![QUOTE] + rest;
        assert(unit + rest =~= seq![QUOTE] + tail);
        assert((unit + rest)[0] == QUOTE);
        assert(string_close(tail, 0, QUOTE) == Some(body.len() + 1int));
        lemma_string_close_shifts(seq![QUOTE], tail, 0);
        lemma_commented_close_shifts(unit, rest, 0, depth);
    }
}

/// A written string is balanced.
pub proof fn lemma_quoted_is_balanced(bytes: Seq<u8>, ascii: bool)
    requires
        valid_utf8(bytes),
    ensures
        balanced(quoted(bytes, ascii)),
{
    let body = text_body(bytes, ascii);
    assert forall|rest: Seq<u8>| #[trigger] content_end(body + seq![QUOTE] + rest, 0) == Some(body.len() as int) by {
        lemma_body_closes_at_its_quote(bytes, ascii, rest);
    }
    assert forall|rest: Seq<u8>| #[trigger] string_close(body + seq![QUOTE] + rest, 0, QUOTE) == Some(
        body.len() + 1int,
    ) by {
        lemma_body_is_closed_by_its_quote(bytes, ascii, rest);
    }
    lemma_string_is_balanced(body);
}

/// Whether a number's spelling is one bare word.
pub open spec fn bare_word(bytes: Seq<u8>) -> bool {
    &&& bytes.len() > 0
    &&& forall|i: int|
        0 <= i < bytes.len() ==> flat(#[trigger] bytes[i]) && bytes[i] >= 0x20 && bytes[i] != COLON
            && !StopSet::Delimiter.stops(bytes[i])
}

/// Whether a text needs no escape inside a string.
pub open spec fn plain_content(bytes: Seq<u8>) -> bool {
    forall|i: int| 0 <= i < bytes.len() ==> #[trigger] bytes[i] != QUOTE && bytes[i] != BACKSLASH && bytes[i] >= 0x20
}

/// Whether a value is made of spellings that JSON has: every number one bare word, and every projected text free of what a
/// string would escape.
pub open spec fn spelled(value: Value) -> bool
    decreases value, 0int,
{
    match value {
        Value::Number(number) => bare_word(number_bytes(number)),
        Value::Projected(text) => plain_content(utf8(text)),
        Value::Array(items) => spelled_elements(items, 0),
        Value::Object(members) => spelled_members(members, 0),
        Value::Tagged(inner) => spelled(*inner),
        _ => true,
    }
}

/// The elements from `from` on.
pub open spec fn spelled_elements(items: Vec<Item>, from: int) -> bool
    decreases items, items.len() - from,
{
    0 <= from < items.len() ==> spelled(items[from].value) && spelled_elements(items, from + 1)
}

/// The members from `from` on.
pub open spec fn spelled_members(members: Vec<Member>, from: int) -> bool
    decreases members, members.len() - from,
{
    0 <= from < members.len() ==> spelled(members[from].item.value) && spelled_members(members, from + 1)
}

pub proof fn lemma_spelled_element(items: Vec<Item>, from: int, at: int)
    requires
        spelled_elements(items, from),
        0 <= from <= at < items.len(),
    ensures
        spelled(items[at].value),
    decreases at - from,
{
    if from < at {
        lemma_spelled_element(items, from + 1, at);
    }
}

pub proof fn lemma_spelled_member(members: Vec<Member>, from: int, at: int)
    requires
        spelled_members(members, from),
        0 <= from <= at < members.len(),
    ensures
        spelled(members[at].item.value),
    decreases at - from,
{
    if from < at {
        lemma_spelled_member(members, from + 1, at);
    }
}

/// A line break is whitespace.
pub proof fn lemma_break_is_whitespace(indent: JsonIndent, depth: nat)
    ensures
        forall|i: int|
            0 <= i < element_break(indent, depth).len() ==> json_ws(#[trigger] element_break(indent, depth)[i]),
{
}

/// A text's bytes are UTF-8.
pub proof fn lemma_text_is_utf8(text: String)
    ensures
        valid_utf8(utf8(text)),
{
    vstd::utf8::encode_utf8_valid_utf8(text@);
}

/// A projected text between its quotes is balanced.
proof fn lemma_plain_string_is_balanced(body: Seq<u8>)
    requires
        plain_content(body),
    ensures
        balanced(seq![QUOTE] + body + seq![QUOTE]),
{
    assert forall|rest: Seq<u8>| #[trigger] content_end(body + seq![QUOTE] + rest, 0) == Some(body.len() as int) by {
        let tail = seq![QUOTE] + rest;
        assert(body + seq![QUOTE] + rest =~= body + tail);
        assert(tail[0] == QUOTE);
        assert(passed_over(body));
        lemma_end_is_past_unit(body, tail);
    }
    assert forall|rest: Seq<u8>| #[trigger] string_close(body + seq![QUOTE] + rest, 0, QUOTE) == Some(
        body.len() + 1int,
    ) by {
        let tail = seq![QUOTE] + rest;
        assert(body + seq![QUOTE] + rest =~= body + tail);
        assert(tail[0] == QUOTE);
        assert(quote_free(body));
        lemma_close_is_past_unit(body, tail);
    }
    lemma_string_is_balanced(body);
}

/// Whether values are written as JSON at this depth: a ROOT text may print raw instead.
pub open spec fn writes_json(depth: nat, style: RenderStyle) -> bool {
    !style.comments && (depth > 0 || !style.prints_raw())
}

/// A rendered value is balanced.
pub proof fn lemma_value_is_balanced(value: Value, depth: nat, style: RenderStyle)
    requires
        spelled(value),
        writes_json(depth, style),
    ensures
        balanced(render_value(value, depth, style).bytes),
    decreases value, 0int,
{
    let bytes = render_value(value, depth, style).bytes;
    match value {
        Value::Null => {
            lemma_flat_is_balanced(bytes);
        },
        Value::Bool(_) => {
            lemma_flat_is_balanced(bytes);
        },
        Value::Number(_) => {
            lemma_flat_is_balanced(bytes);
        },
        Value::Text(text) => {
            lemma_text_is_utf8(text);
            lemma_quoted_is_balanced(utf8(text), style.options.ascii_output);
        },
        Value::Projected(text) => {
            lemma_plain_string_is_balanced(utf8(text));
        },
        Value::Array(items) => {
            lemma_array_bytes(items, depth, style);
            lemma_elements_are_balanced(items, 0, depth + 1, style);
            let inner = array_inner(items, depth, style);
            lemma_closing_is_balanced(depth, style);
            lemma_balanced_concat(render_elements(items, 0, depth + 1, style).bytes, closing(depth, style));
            lemma_flat_is_balanced(seq![]);
            lemma_container_is_balanced(OPEN_BRACKET, inner, CLOSE_BRACKET);
        },
        Value::Object(members) => {
            lemma_object_bytes(members, depth, style);
            let order = member_order(members@, style.options.sort_keys);
            lemma_members_are_balanced(members, order, 0, depth + 1, style);
            let inner = object_inner(members, depth, style);
            lemma_closing_is_balanced(depth, style);
            if members.len() > 0 {
                lemma_balanced_concat(
                    render_members(members, order, 0, depth + 1, style).bytes.skip(1),
                    closing(depth, style),
                );
            }
            lemma_flat_is_balanced(seq![]);
            lemma_container_is_balanced(OPEN_BRACE, inner, CLOSE_BRACE);
        },
        Value::Tagged(inner) => {
            lemma_value_is_balanced(*inner, depth, style);
            assert(bytes =~= render_value(*inner, depth, style).bytes);
        },
    }
}

/// What stands before a non-empty container's closing delimiter.
pub open spec fn closing(depth: nat, style: RenderStyle) -> Seq<u8> {
    (if style.trailing_commas {
        seq![COMMA]
    } else {
        seq![]
    }) + element_break(style.options.indent, depth)
}

/// What stands between an array's brackets.
pub open spec fn array_inner(items: Vec<Item>, depth: nat, style: RenderStyle) -> Seq<u8> {
    if items.len() == 0 {
        seq![]
    } else {
        render_elements(items, 0, depth + 1, style).bytes + closing(depth, style)
    }
}

/// What stands between an object's braces.
pub open spec fn object_inner(members: Vec<Member>, depth: nat, style: RenderStyle) -> Seq<u8> {
    if members.len() == 0 {
        seq![]
    } else {
        render_members(members, member_order(members@, style.options.sort_keys), 0, depth + 1, style).bytes.skip(1)
            + closing(depth, style)
    }
}

/// An array is its brackets and what stands between them.
pub proof fn lemma_array_bytes(items: Vec<Item>, depth: nat, style: RenderStyle)
    ensures
        render_value(Value::Array(items), depth, style).bytes == seq![OPEN_BRACKET] + array_inner(items, depth, style) + seq![
            CLOSE_BRACKET,
        ],
{
    assert(render_value(Value::Array(items), depth, style).bytes =~= seq![OPEN_BRACKET] + array_inner(items, depth, style)
        + seq![CLOSE_BRACKET]);
}

/// An object's first member stands behind the opening brace.
pub proof fn lemma_first_member_opens(members: Vec<Member>, order: Seq<usize>, depth: nat, style: RenderStyle)
    requires
        order.len() > 0,
        order[0] < members.len(),
    ensures
        render_members(members, order, 0, depth, style).bytes.len() > 0,
        render_members(members, order, 0, depth, style).bytes[0] == OPEN_BRACE,
{
    let member = members[order[0] as int];
    let lead = style.member_lead(member, true, depth).bytes;
    assert(lead.len() > 0 && lead[0] == OPEN_BRACE);
}

/// An object is its braces and what stands between them.
pub proof fn lemma_object_bytes(members: Vec<Member>, depth: nat, style: RenderStyle)
    ensures
        render_value(Value::Object(members), depth, style).bytes == seq![OPEN_BRACE] + object_inner(
            members,
            depth,
            style,
        ) + seq![CLOSE_BRACE],
        members.len() > 0 ==> render_members(
            members,
            member_order(members@, style.options.sort_keys),
            0,
            depth + 1,
            style,
        ).bytes.len() > 0,
{
    let whole = render_value(Value::Object(members), depth, style).bytes;
    if members.len() > 0 {
        let order = member_order(members@, style.options.sort_keys);
        crate::value::lemma_member_order(members@, style.options.sort_keys);
        lemma_first_member_opens(members, order, depth + 1, style);
        let bytes = render_members(members, order, 0, depth + 1, style).bytes;
        let end = closing(depth, style);
        assert(style.close(depth, CLOSE_BRACE).bytes =~= end + seq![CLOSE_BRACE]);
        assert(whole =~= bytes + (end + seq![CLOSE_BRACE]));
        assert(bytes =~= seq![OPEN_BRACE] + bytes.skip(1));
        assert(whole =~= seq![OPEN_BRACE] + (bytes.skip(1) + end) + seq![CLOSE_BRACE]);
    } else {
        assert(whole =~= seq![OPEN_BRACE] + seq![] + seq![CLOSE_BRACE]);
    }
}

proof fn lemma_closing_is_balanced(depth: nat, style: RenderStyle)
    ensures
        balanced(closing(depth, style)),
{
    lemma_break_is_whitespace(style.options.indent, depth);
    let bytes = closing(depth, style);
    assert forall|i: int| 0 <= i < bytes.len() implies flat(#[trigger] bytes[i]) by {
        let comma: int = if style.trailing_commas {
            1
        } else {
            0
        };
        if i >= comma {
            assert(bytes[i] == element_break(style.options.indent, depth)[i - comma]);
        }
    }
    lemma_flat_is_balanced(bytes);
}

/// What stands before an array's element is flat.
proof fn lemma_element_lead_is_balanced(item: Item, index: int, depth: nat, style: RenderStyle)
    requires
        !style.comments,
    ensures
        balanced(style.element_lead(item, index, depth).bytes),
{
    let bytes = style.element_lead(item, index, depth).bytes;
    lemma_break_is_whitespace(style.options.indent, depth);
    assert forall|i: int| 0 <= i < bytes.len() implies flat(#[trigger] bytes[i]) by {
        let comma: int = if index > 0 {
            1
        } else {
            0
        };
        if i >= comma {
            assert(bytes[i] == element_break(style.options.indent, depth)[i - comma]);
        }
    }
    lemma_flat_is_balanced(bytes);
}

/// An array's rendered elements are balanced.
proof fn lemma_elements_are_balanced(items: Vec<Item>, from: int, depth: nat, style: RenderStyle)
    requires
        spelled_elements(items, from),
        0 <= from,
        depth > 0,
        !style.comments,
    ensures
        balanced(render_elements(items, from, depth, style).bytes),
    decreases items, items.len() - from,
{
    if from < items.len() {
        let lead = style.element_lead(items[from], from, depth).bytes;
        let value = render_value(items[from].value, depth, style).bytes;
        let rest = render_elements(items, from + 1, depth, style).bytes;
        lemma_element_lead_is_balanced(items[from], from, depth, style);
        lemma_value_is_balanced(items[from].value, depth, style);
        lemma_elements_are_balanced(items, from + 1, depth, style);
        lemma_balanced_concat(lead, value);
        lemma_balanced_concat(lead + value, rest);
        assert(render_elements(items, from, depth, style).bytes =~= lead + value + rest);
    } else {
        lemma_flat_is_balanced(seq![]);
        assert(render_elements(items, from, depth, style).bytes =~= seq![]);
    }
}

/// What stands before a member's value, but for its delimiter.
pub open spec fn key_lead(member: Member, depth: nat, style: RenderStyle) -> Seq<u8> {
    element_break(style.options.indent, depth) + quoted(utf8(member.key), style.options.ascii_output)
        + style.options.indent.separator()
}

proof fn lemma_key_lead_is_balanced(member: Member, first: bool, depth: nat, style: RenderStyle)
    requires
        !style.comments,
    ensures
        balanced(key_lead(member, depth, style)),
        style.member_lead(member, first, depth).bytes == (if first {
            seq![OPEN_BRACE]
        } else {
            seq![COMMA]
        }) + key_lead(member, depth, style),
{
    let lead = element_break(style.options.indent, depth);
    let key = quoted(utf8(member.key), style.options.ascii_output);
    let separator = style.options.indent.separator();
    lemma_break_is_whitespace(style.options.indent, depth);
    assert forall|i: int| 0 <= i < lead.len() implies flat(#[trigger] lead[i]) by {
        assert(json_ws(lead[i]));
    }
    lemma_flat_is_balanced(lead);
    lemma_flat_is_balanced(separator);
    lemma_text_is_utf8(member.key);
    lemma_quoted_is_balanced(utf8(member.key), style.options.ascii_output);
    lemma_balanced_concat(lead, key);
    lemma_balanced_concat(lead + key, separator);
    let delimiter: Seq<u8> = if first {
        seq![OPEN_BRACE]
    } else {
        seq![COMMA]
    };
    assert(style.member_lead(member, first, depth).bytes =~= delimiter + key_lead(member, depth, style));
}

/// An object's rendered members are balanced, but for the opening brace before the first.
proof fn lemma_members_are_balanced(
    members: Vec<Member>,
    order: Seq<usize>,
    from: int,
    depth: nat,
    style: RenderStyle,
)
    requires
        spelled_members(members, 0),
        0 <= from,
        depth > 0,
        !style.comments,
    ensures
        from > 0 ==> balanced(render_members(members, order, from, depth, style).bytes),
        from == 0 && render_members(members, order, from, depth, style).bytes.len() > 0 ==> balanced(
            render_members(members, order, from, depth, style).bytes.skip(1),
        ),
    decreases members, order.len() - from,
{
    let bytes = render_members(members, order, from, depth, style).bytes;
    if from < order.len() && order[from] < members.len() {
        let member = members[order[from] as int];
        let lead = key_lead(member, depth, style);
        let value = render_value(member.item.value, depth, style).bytes;
        let rest = render_members(members, order, from + 1, depth, style).bytes;
        lemma_spelled_member(members, 0, order[from] as int);
        lemma_key_lead_is_balanced(member, from == 0, depth, style);
        lemma_value_is_balanced(member.item.value, depth, style);
        lemma_members_are_balanced(members, order, from + 1, depth, style);
        lemma_balanced_concat(lead, value);
        lemma_balanced_concat(lead + value, rest);
        if from == 0 {
            assert(bytes.skip(1) =~= lead + value + rest);
        } else {
            lemma_flat_is_balanced(seq![COMMA]);
            lemma_balanced_concat(seq![COMMA], lead + value + rest);
            assert(bytes =~= seq![COMMA] + (lead + value + rest));
        }
    } else {
        lemma_flat_is_balanced(seq![]);
        assert(bytes =~= seq![]);
    }
}

/// A rendered value starts with a byte of its own: no whitespace, no comma, no closing delimiter.
pub proof fn lemma_value_starts(value: Value, depth: nat, style: RenderStyle)
    requires
        spelled(value),
        writes_json(depth, style),
    ensures
        render_value(value, depth, style).bytes.len() > 0,
        !StopSet::Delimiter.stops(render_value(value, depth, style).bytes[0]),
    decreases value,
{
    match value {
        Value::Array(items) => {
            lemma_array_bytes(items, depth, style);
        },
        Value::Object(members) => {
            lemma_object_bytes(members, depth, style);
        },
        Value::Tagged(inner) => {
            lemma_value_starts(*inner, depth, style);
            assert(render_value(value, depth, style).bytes =~= render_value(*inner, depth, style).bytes);
        },
        Value::Number(number) => {
            assert(flat(number_bytes(number)[0]));
        },
        _ => {},
    }
}

/// A bare word ends at the delimiter behind it.
proof fn lemma_bare_word_ends(word: Seq<u8>, behind: Seq<u8>)
    requires
        bare_word(word),
        behind.len() == 0 || StopSet::Delimiter.stops(behind[0]),
    ensures
        value_end(word + behind, 0) == word.len(),
{
    let whole = word + behind;
    assert(whole[0] == word[0]);
    assert(flat(word[0]));
    assert forall|i: int| 0 <= i < word.len() implies !StopSet::Delimiter.stops(#[trigger] whole[i]) by {
        assert(whole[i] == word[i]);
    }
    if behind.len() > 0 {
        assert(whole[word.len() as int] == behind[0]);
    }
    crate::byte_scan::lemma_run_end_is(whole, 0, StopSet::Delimiter, word.len() as int);
}

/// A container ends at its own closing delimiter.
proof fn lemma_container_ends(open: u8, inner: Seq<u8>, close: u8, behind: Seq<u8>)
    requires
        opener(open),
        close == closer_of(open),
        balanced(inner),
    ensures
        value_end(seq![open] + inner + seq![close] + behind, 0) == inner.len() + 2,
        region_end(seq![open] + inner + seq![close] + behind, 0) == Some(inner.len() + 2int),
{
    let whole = seq![open] + inner + seq![close] + behind;
    assert(whole[0] == open);
    assert(whole[inner.len() + 1int] == close);
    lemma_container_is_balanced(open, inner, close);
    assert(nested_end(seq![open] + inner + seq![close] + behind, 0, 0) == inner.len() + 2);
    assert(close_from(seq![open] + inner + seq![close] + behind, 0, 0) == Some(inner.len() + 2int));
}

/// What stands between an array's brackets is balanced.
pub proof fn lemma_array_inner_is_balanced(items: Vec<Item>, depth: nat, style: RenderStyle)
    requires
        spelled(Value::Array(items)),
        !style.comments,
    ensures
        balanced(array_inner(items, depth, style)),
{
    lemma_elements_are_balanced(items, 0, depth + 1, style);
    lemma_closing_is_balanced(depth, style);
    lemma_balanced_concat(render_elements(items, 0, depth + 1, style).bytes, closing(depth, style));
    lemma_flat_is_balanced(seq![]);
}

/// What stands between an object's braces is balanced.
pub proof fn lemma_object_inner_is_balanced(members: Vec<Member>, depth: nat, style: RenderStyle)
    requires
        spelled(Value::Object(members)),
        !style.comments,
    ensures
        balanced(object_inner(members, depth, style)),
{
    let order = member_order(members@, style.options.sort_keys);
    lemma_object_bytes(members, depth, style);
    lemma_members_are_balanced(members, order, 0, depth + 1, style);
    lemma_closing_is_balanced(depth, style);
    lemma_flat_is_balanced(seq![]);
    if members.len() > 0 {
        lemma_balanced_concat(
            render_members(members, order, 0, depth + 1, style).bytes.skip(1),
            closing(depth, style),
        );
    }
}

/// A string ends behind its closing quote.
proof fn lemma_string_ends(body: Seq<u8>, behind: Seq<u8>)
    requires
        content_end(body + seq![QUOTE] + behind, 0) == Some(body.len() as int),
    ensures
        value_end(seq![QUOTE] + body + seq![QUOTE] + behind, 0) == body.len() + 2,
{
    let whole = seq![QUOTE] + body + seq![QUOTE] + behind;
    let tail = body + seq![QUOTE] + behind;
    assert(whole =~= seq![QUOTE] + tail);
    lemma_content_end_shifts(seq![QUOTE], tail, 0);
}

proof fn lemma_value_ends(value: Value, depth: nat, style: RenderStyle, behind: Seq<u8>)
    requires
        spelled(value),
        writes_json(depth, style),
        behind.len() == 0 || StopSet::Delimiter.stops(behind[0]),
    ensures
        value_end(render_value(value, depth, style).bytes + behind, 0) == render_value(value, depth, style).bytes.len(),
    decreases value,
{
    let bytes = render_value(value, depth, style).bytes;
    match value {
        Value::Null => {
            lemma_bare_word_ends(bytes, behind);
        },
        Value::Bool(_) => {
            lemma_bare_word_ends(bytes, behind);
        },
        Value::Number(_) => {
            lemma_bare_word_ends(bytes, behind);
        },
        Value::Text(text) => {
            lemma_text_is_utf8(text);
            lemma_body_closes_at_its_quote(utf8(text), style.options.ascii_output, behind);
            lemma_string_ends(text_body(utf8(text), style.options.ascii_output), behind);
        },
        Value::Projected(text) => {
            let body = utf8(text);
            let tail = seq![QUOTE] + behind;
            assert(body + seq![QUOTE] + behind =~= body + tail);
            assert(tail[0] == QUOTE);
            assert(passed_over(body));
            lemma_end_is_past_unit(body, tail);
            lemma_string_ends(body, behind);
        },
        Value::Array(items) => {
            lemma_array_bytes(items, depth, style);
            lemma_array_inner_is_balanced(items, depth, style);
            lemma_container_ends(OPEN_BRACKET, array_inner(items, depth, style), CLOSE_BRACKET, behind);
        },
        Value::Object(members) => {
            lemma_object_bytes(members, depth, style);
            lemma_object_inner_is_balanced(members, depth, style);
            lemma_container_ends(OPEN_BRACE, object_inner(members, depth, style), CLOSE_BRACE, behind);
        },
        Value::Tagged(inner) => {
            lemma_value_ends(*inner, depth, style, behind);
            assert(bytes =~= render_value(*inner, depth, style).bytes);
        },
    }
}

/// Skipping a rendered value ends exactly where it was ended, wherever it stands: in front of a delimiter, or at the end
/// of the bytes.
pub proof fn lemma_skip_passes_what_was_rendered(
    before: Seq<u8>,
    value: Value,
    depth: nat,
    style: RenderStyle,
    behind: Seq<u8>,
)
    requires
        spelled(value),
        writes_json(depth, style),
        behind.len() == 0 || StopSet::Delimiter.stops(behind[0]),
    ensures
        value_end(before + render_value(value, depth, style).bytes + behind, before.len() as int) == before.len()
            + render_value(value, depth, style).bytes.len(),
{
    let bytes = render_value(value, depth, style).bytes;
    assert(before + bytes + behind =~= before + (bytes + behind));
    lemma_value_end_shifts(before, bytes + behind);
    lemma_value_ends(value, depth, style, behind);
}

/// The region that an edit finds from a rendered container's opening delimiter is exactly the container, whatever is
/// nested in it and whatever its strings hold.
pub proof fn lemma_region_is_the_rendered_container(
    before: Seq<u8>,
    value: Value,
    depth: nat,
    style: RenderStyle,
    behind: Seq<u8>,
)
    requires
        spelled(value),
        writes_json(depth, style),
        value is Array || value is Object,
    ensures
        region_end(before + render_value(value, depth, style).bytes + behind, before.len() as int) == Some(
            before.len() + render_value(value, depth, style).bytes.len() as int,
        ),
{
    let bytes = render_value(value, depth, style).bytes;
    let tail = bytes + behind;
    let whole = before + bytes + behind;
    assert(whole =~= before + tail);
    match value {
        Value::Array(items) => {
            lemma_array_bytes(items, depth, style);
            lemma_array_inner_is_balanced(items, depth, style);
            lemma_container_ends(OPEN_BRACKET, array_inner(items, depth, style), CLOSE_BRACKET, behind);
        },
        Value::Object(members) => {
            lemma_object_bytes(members, depth, style);
            lemma_object_inner_is_balanced(members, depth, style);
            lemma_container_ends(OPEN_BRACE, object_inner(members, depth, style), CLOSE_BRACE, behind);
        },
        _ => {},
    }
    assert(region_end(tail, 0) == Some(bytes.len() as int));
    lemma_close_from_shifts(before, tail, 0, 0);
    assert(whole[before.len() as int] == tail[0]);
    assert(whole[before.len() + bytes.len() - 1] == tail[bytes.len() - 1]);
}

/// What stands behind an array's elements before `from`: the rest of them, and the closing bracket.
pub open spec fn array_tail(items: Vec<Item>, from: int, depth: nat, style: RenderStyle) -> Seq<u8> {
    render_elements(items, from, depth + 1, style).bytes + closing(depth, style) + seq![CLOSE_BRACKET]
}

/// An array's tail from an element on: what stands before it, the element, and the tail behind.
pub proof fn lemma_tail_by_elements(items: Vec<Item>, from: int, depth: nat, style: RenderStyle)
    requires
        0 <= from < items.len(),
        !style.comments,
    ensures
        array_tail(items, from, depth, style) == (if from > 0 {
            seq![COMMA]
        } else {
            seq![]
        }) + element_break(style.options.indent, depth + 1) + render_value(items[from].value, depth + 1, style).bytes
            + array_tail(items, from + 1, depth, style),
{
    let comma: Seq<u8> = if from > 0 {
        seq![COMMA]
    } else {
        seq![]
    };
    let lead = style.element_lead(items[from], from, depth + 1).bytes;
    let value = render_value(items[from].value, depth + 1, style).bytes;
    let rest = render_elements(items, from + 1, depth + 1, style).bytes;
    assert(lead =~= comma + element_break(style.options.indent, depth + 1));
    assert(render_elements(items, from, depth + 1, style).bytes =~= lead + value + rest);
    assert(array_tail(items, from, depth, style) =~= lead + value + (rest + closing(depth, style) + seq![CLOSE_BRACKET]));
}

/// Whitespace is skipped up to the first byte behind it.
pub proof fn lemma_skip_break(before: Seq<u8>, gap: Seq<u8>, behind: Seq<u8>)
    requires
        forall|i: int| 0 <= i < gap.len() ==> json_ws(#[trigger] gap[i]),
        behind.len() > 0 && !json_ws(behind[0]),
    ensures
        run_end(before + gap + behind, before.len() as int, StopSet::Ws) == before.len() + gap.len(),
{
    let whole = before + gap + behind;
    let end = before.len() + gap.len();
    assert forall|i: int| before.len() <= i < end implies !StopSet::Ws.stops(#[trigger] whole[i]) by {
        assert(whole[i] == gap[i - before.len()]);
    }
    assert(whole[end as int] == behind[0]);
    crate::byte_scan::lemma_run_end_is(whole, before.len() as int, StopSet::Ws, end as int);
}

/// What follows an element: the next one, past the comma and the break, or the closing bracket past the break.
pub proof fn lemma_after_rendered_element(items: Vec<Item>, from: int, depth: nat, style: RenderStyle, before: Seq<u8>)
    requires
        spelled(Value::Array(items)),
        0 < from <= items.len(),
        !style.comments && !style.trailing_commas,
        (before + array_tail(items, from, depth, style)).len() <= usize::MAX,
    ensures
        after_element(before + array_tail(items, from, depth, style), before.len() as int) == if from < items.len() {
            AfterElement::Next(
                (before.len() + 1 + element_break(style.options.indent, depth + 1).len()) as usize,
            )
        } else {
            AfterElement::Close((before.len() + element_break(style.options.indent, depth).len()) as usize)
        },
{
    let tail = array_tail(items, from, depth, style);
    let whole = before + tail;
    let none: Seq<u8> = seq![];
    if from < items.len() {
        let gap = element_break(style.options.indent, depth + 1);
        let value = render_value(items[from].value, depth + 1, style).bytes;
        let rest = array_tail(items, from + 1, depth, style);
        lemma_tail_by_elements(items, from, depth, style);
        lemma_spelled_element(items, 0, from);
        lemma_value_starts(items[from].value, depth + 1, style);
        lemma_break_is_whitespace(style.options.indent, depth + 1);
        assert(tail[0] == COMMA);
        assert(whole =~= before + none + tail);
        lemma_skip_break(before, none, tail);
        let lead = before + seq![COMMA];
        assert(whole =~= lead + gap + (value + rest));
        assert((value + rest)[0] == value[0]);
        lemma_skip_break(lead, gap, value + rest);
    } else {
        let gap = element_break(style.options.indent, depth);
        lemma_break_is_whitespace(style.options.indent, depth);
        assert(tail =~= gap + seq![CLOSE_BRACKET]);
        assert(whole =~= before + gap + seq![CLOSE_BRACKET]);
        lemma_skip_break(before, gap, seq![CLOSE_BRACKET]);
        assert(whole[before.len() + gap.len() as int] == CLOSE_BRACKET);
    }
}

/// Counting from a rendered element on counts it and every one behind it.
proof fn lemma_counts_from_element(items: Vec<Item>, from: int, depth: nat, style: RenderStyle, before: Seq<u8>)
    requires
        spelled(Value::Array(items)),
        0 <= from < items.len(),
        !style.comments && !style.trailing_commas,
        (before + render_value(items[from].value, depth + 1, style).bytes + array_tail(
            items,
            from + 1,
            depth,
            style,
        )).len() <= usize::MAX,
    ensures
        counted_from(
            before + render_value(items[from].value, depth + 1, style).bytes + array_tail(items, from + 1, depth, style),
            before.len() as int,
            from,
            (0, None),
            seq![],
        ) == Some((items.len() - from) as nat),
    decreases items.len() - from,
{
    let value = render_value(items[from].value, depth + 1, style).bytes;
    let tail = array_tail(items, from + 1, depth, style);
    let whole = before + value + tail;
    let here = before + value;
    lemma_spelled_element(items, 0, from);
    lemma_tail_starts_with_a_delimiter(items, from + 1, depth, style);
    lemma_skip_passes_what_was_rendered(before, items[from].value, depth + 1, style, tail);
    lemma_after_rendered_element(items, from + 1, depth, style, here);
    if from + 1 < items.len() {
        let gap = element_break(style.options.indent, depth + 1);
        let next = here + seq![COMMA] + gap;
        lemma_tail_by_elements(items, from + 1, depth, style);
        assert(whole =~= next + render_value(items[from + 1].value, depth + 1, style).bytes + array_tail(
            items,
            from + 2,
            depth,
            style,
        ));
        lemma_counts_from_element(items, from + 1, depth, style, next);
    }
}

/// What stands behind an element starts with a delimiter.
pub proof fn lemma_tail_starts_with_a_delimiter(items: Vec<Item>, from: int, depth: nat, style: RenderStyle)
    requires
        0 < from <= items.len(),
        !style.comments,
    ensures
        array_tail(items, from, depth, style).len() > 0,
        StopSet::Delimiter.stops(array_tail(items, from, depth, style)[0]),
{
    let tail = array_tail(items, from, depth, style);
    if from < items.len() {
        lemma_tail_by_elements(items, from, depth, style);
        assert(tail[0] == COMMA);
    } else {
        let end = closing(depth, style);
        lemma_break_is_whitespace(style.options.indent, depth);
        assert(tail =~= end + seq![CLOSE_BRACKET]);
        if end.len() > 0 {
            assert(tail[0] == end[0]);
        } else {
            assert(tail[0] == CLOSE_BRACKET);
        }
    }
}

/// Counting a rendered array counts its items, however it is indented and whatever they hold.
pub proof fn lemma_count_is_the_item_count(items: Vec<Item>, depth: nat, style: RenderStyle)
    requires
        spelled(Value::Array(items)),
        !style.comments && !style.trailing_commas,
        render_value(Value::Array(items), depth, style).bytes.len() <= usize::MAX,
    ensures
        array_count(render_value(Value::Array(items), depth, style).bytes, (0, None), seq![]) == Some(
            items.len() as nat,
        ),
{
    let whole = render_value(Value::Array(items), depth, style).bytes;
    lemma_array_bytes(items, depth, style);
    if items.len() == 0 {
        let none: Seq<u8> = seq![];
        assert(whole =~= seq![OPEN_BRACKET] + none + seq![CLOSE_BRACKET]);
        lemma_skip_break(seq![OPEN_BRACKET], none, seq![CLOSE_BRACKET]);
        assert(whole[1] == CLOSE_BRACKET);
    } else {
        let gap = element_break(style.options.indent, depth + 1);
        let value = render_value(items[0].value, depth + 1, style).bytes;
        let rest = array_tail(items, 1, depth, style);
        assert(whole =~= seq![OPEN_BRACKET] + array_tail(items, 0, depth, style));
        lemma_tail_by_elements(items, 0, depth, style);
        lemma_spelled_element(items, 0, 0);
        lemma_value_starts(items[0].value, depth + 1, style);
        lemma_break_is_whitespace(style.options.indent, depth + 1);
        assert(whole =~= seq![OPEN_BRACKET] + gap + (value + rest));
        assert((value + rest)[0] == value[0]);
        lemma_skip_break(seq![OPEN_BRACKET], gap, value + rest);
        let before = seq![OPEN_BRACKET] + gap;
        assert(whole =~= before + value + rest);
        assert(whole[before.len() as int] == value[0]);
        lemma_counts_from_element(items, 0, depth, style, before);
    }
}

} // verus!
