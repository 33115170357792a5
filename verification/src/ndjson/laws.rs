//! What framing makes of written records: each is read back as the one record it was written as.

use vstd::prelude::*;

use crate::ascii::{CLOSE_BRACE, CLOSE_BRACKET, COLON, COMMA, OPEN_BRACE, OPEN_BRACKET, QUOTE, SPACE, TAB};

use vstd::utf8::{decode_first_scalar, pop_first_scalar, valid_first_scalar, valid_utf8};

use crate::byte_scan::StopSet;
use crate::encode_text::{lemma_first_scalar, quoted, scalar_escape, text_body};
use crate::json_escape::escaped_byte;
use crate::ndjson::stream::{blank, fault_of, unit_of, Unit};
use crate::options::{JsonIndent, NdjsonTerminator};
use crate::render::{
    compact_style, render_elements, render_item, render_members, render_value, root_lead, EncodeConfig, RenderStyle,
};
use crate::render_laws::{
    lemma_spelled_member, lemma_text_is_utf8, lemma_value_starts, spelled, spelled_elements, spelled_members,
    writes_json,
};
use crate::text_laws::{first_unit, lemma_body_by_units};
use crate::value::{member_order, utf8, Item, Member, Value};

verus! {

/// Whether bytes hold no control character.
pub open spec fn printable(bytes: Seq<u8>) -> bool {
    forall|i: int| 0 <= i < bytes.len() ==> #[trigger] bytes[i] >= 0x20
}

proof fn lemma_printable_concat(left: Seq<u8>, right: Seq<u8>)
    requires
        printable(left),
        printable(right),
    ensures
        printable(left + right),
{
    let whole = left + right;
    assert forall|i: int| 0 <= i < whole.len() implies #[trigger] whole[i] >= 0x20 by {
        if i >= left.len() {
            assert(whole[i] == right[i - left.len()]);
        }
    }
}

/// A written character holds no control character.
proof fn lemma_unit_is_printable(bytes: Seq<u8>, ascii: bool)
    requires
        valid_first_scalar(bytes),
    ensures
        printable(first_unit(bytes, ascii)),
{
    let unit = first_unit(bytes, ascii);
    if bytes[0] < 0x80 {
        assert(printable(escaped_byte(bytes[0])));
    } else if ascii {
        assert(printable(scalar_escape(decode_first_scalar(bytes))));
    } else {
        assert forall|i: int| 0 <= i < unit.len() implies #[trigger] unit[i] >= 0x20 by {
            assert(unit[i] == bytes[i]);
        }
    }
}

/// A written text body holds no control character.
proof fn lemma_body_is_printable(bytes: Seq<u8>, ascii: bool)
    requires
        valid_utf8(bytes),
    ensures
        printable(text_body(bytes, ascii)),
    decreases bytes.len(),
{
    if bytes.len() == 0 {
        assert(text_body(bytes, ascii) =~= seq![]);
    } else {
        lemma_first_scalar(bytes);
        lemma_body_by_units(bytes, ascii);
        lemma_unit_is_printable(bytes, ascii);
        lemma_body_is_printable(pop_first_scalar(bytes), ascii);
        lemma_printable_concat(first_unit(bytes, ascii), text_body(pop_first_scalar(bytes), ascii));
    }
}

proof fn lemma_quoted_is_printable(bytes: Seq<u8>, ascii: bool)
    requires
        valid_utf8(bytes),
    ensures
        printable(quoted(bytes, ascii)),
{
    lemma_body_is_printable(bytes, ascii);
    lemma_printable_concat(seq![QUOTE], text_body(bytes, ascii));
    lemma_printable_concat(seq![QUOTE] + text_body(bytes, ascii), seq![QUOTE]);
}

/// A compactly rendered value holds no control character: no line break, whatever its texts hold.
pub proof fn lemma_compact_holds_no_control(value: Value, depth: nat, style: RenderStyle)
    requires
        spelled(value),
        writes_json(depth, style),
        style.options.indent == JsonIndent::Compact,
    ensures
        printable(render_value(value, depth, style).bytes),
    decreases value, 0int,
{
    let bytes = render_value(value, depth, style).bytes;
    match value {
        Value::Text(text) => {
            lemma_text_is_utf8(text);
            lemma_quoted_is_printable(utf8(text), style.options.ascii_output);
        },
        Value::Projected(text) => {
            lemma_printable_concat(seq![QUOTE], utf8(text));
            lemma_printable_concat(seq![QUOTE] + utf8(text), seq![QUOTE]);
        },
        Value::Array(items) => {
            if items.len() > 0 {
                let inner = render_elements(items, 0, depth + 1, style).bytes;
                let close = style.close(depth, CLOSE_BRACKET).bytes;
                lemma_elements_hold_no_control(items, 0, depth + 1, style);
                lemma_printable_concat(seq![OPEN_BRACKET], inner);
                lemma_printable_concat(seq![OPEN_BRACKET] + inner, close);
                assert(bytes =~= seq![OPEN_BRACKET] + inner + close);
            }
        },
        Value::Object(members) => {
            if members.len() > 0 {
                let order = member_order(members@, style.options.sort_keys);
                let inner = render_members(members, order, 0, depth + 1, style).bytes;
                let close = style.close(depth, CLOSE_BRACE).bytes;
                lemma_members_hold_no_control(members, order, 0, depth + 1, style);
                lemma_printable_concat(inner, close);
                assert(bytes =~= inner + close);
            }
        },
        Value::Tagged(inner) => {
            lemma_compact_holds_no_control(*inner, depth, style);
            assert(bytes =~= render_value(*inner, depth, style).bytes);
        },
        _ => {},
    }
}

proof fn lemma_elements_hold_no_control(items: Vec<Item>, from: int, depth: nat, style: RenderStyle)
    requires
        spelled_elements(items, from),
        0 <= from,
        depth > 0,
        !style.comments,
        style.options.indent == JsonIndent::Compact,
    ensures
        printable(render_elements(items, from, depth, style).bytes),
    decreases items, items.len() - from,
{
    if from < items.len() {
        let lead = style.element_lead(items[from], from, depth).bytes;
        let value = render_value(items[from].value, depth, style).bytes;
        let rest = render_elements(items, from + 1, depth, style).bytes;
        lemma_compact_holds_no_control(items[from].value, depth, style);
        lemma_elements_hold_no_control(items, from + 1, depth, style);
        lemma_printable_concat(lead, value);
        lemma_printable_concat(lead + value, rest);
        assert(render_elements(items, from, depth, style).bytes =~= lead + value + rest);
    }
}

proof fn lemma_members_hold_no_control(
    members: Vec<Member>,
    order: Seq<usize>,
    from: int,
    depth: nat,
    style: RenderStyle,
)
    requires
        spelled_members(members, 0),
        0 <= from,
        depth > 0,
        !style.comments,
        style.options.indent == JsonIndent::Compact,
    ensures
        printable(render_members(members, order, from, depth, style).bytes),
    decreases members, order.len() - from,
{
    if from < order.len() && order[from] < members.len() {
        let member = members[order[from] as int];
        let lead = style.member_lead(member, from == 0, depth).bytes;
        let key = quoted(utf8(member.key), style.options.ascii_output);
        let value = render_value(member.item.value, depth, style).bytes;
        let rest = render_members(members, order, from + 1, depth, style).bytes;
        lemma_spelled_member(members, 0, order[from] as int);
        lemma_text_is_utf8(member.key);
        lemma_quoted_is_printable(utf8(member.key), style.options.ascii_output);
        let delimiter: Seq<u8> = if from == 0 {
            seq![OPEN_BRACE]
        } else {
            seq![COMMA]
        };
        lemma_printable_concat(delimiter, key);
        lemma_printable_concat(delimiter + key, seq![COLON]);
        assert(lead =~= delimiter + key + seq![COLON]);
        lemma_compact_holds_no_control(member.item.value, depth, style);
        lemma_members_hold_no_control(members, order, from + 1, depth, style);
        lemma_printable_concat(lead, value);
        lemma_printable_concat(lead + value, rest);
        assert(render_members(members, order, from, depth, style).bytes =~= lead + value + rest);
    }
}

/// A written record is its compact value and one terminator.
proof fn lemma_record_bytes(item: Item, config: EncodeConfig, max_nesting_depth: usize, terminator: NdjsonTerminator)
    requires
        config.is(compact_style(max_nesting_depth), seq![], terminator.spelled()),
    ensures
        render_item(item, config).bytes == render_value(item.value, 0, compact_style(max_nesting_depth)).bytes
            + terminator.spelled(),
{
    assert(root_lead(item, config).bytes =~= seq![]);
    assert(render_item(item, config).bytes =~= render_value(item.value, 0, compact_style(max_nesting_depth)).bytes
        + terminator.spelled());
}

/// What NDJSON writes, NDJSON reads back: wherever a written record stands in a stream, the record framed there is exactly
/// its value, up to its own one terminator, and within the payload ceiling it is no fault.
pub proof fn lemma_written_record_is_read_back(
    before: Seq<u8>,
    item: Item,
    config: EncodeConfig,
    max_nesting_depth: usize,
    terminator: NdjsonTerminator,
    behind: Seq<u8>,
    ceiling: u64,
)
    requires
        config.is(compact_style(max_nesting_depth), seq![], terminator.spelled()),
        spelled(item.value),
        (before + render_item(item, config).bytes + behind).len() <= usize::MAX,
        render_value(item.value, 0, compact_style(max_nesting_depth)).bytes.len() <= ceiling,
    ensures
        ({
            let stream = before + render_item(item, config).bytes + behind;
            let payload = render_value(item.value, 0, compact_style(max_nesting_depth)).bytes;
            let start = before.len() as int;
            &&& unit_of(stream, start) == (Unit {
                record_start: start as usize,
                payload_end: (start + payload.len()) as usize,
                physical_end: (start + render_item(item, config).bytes.len()) as usize,
            })
            &&& stream.subrange(start, start + payload.len()) == payload
            &&& fault_of(stream, start, ceiling) is None
        }),
{
    let style = compact_style(max_nesting_depth);
    let payload = render_value(item.value, 0, style).bytes;
    let record = render_item(item, config).bytes;
    let stream = before + record + behind;
    let start = before.len() as int;
    let end = start + payload.len();
    lemma_record_bytes(item, config, max_nesting_depth, terminator);
    lemma_compact_holds_no_control(item.value, 0, style);
    lemma_value_starts(item.value, 0, style);
    assert forall|i: int| start <= i < end implies !StopSet::NdjsonFrame.stops(#[trigger] stream[i]) by {
        assert(stream[i] == payload[i - start]);
    }
    assert(stream[end] == terminator.spelled()[0]);
    crate::byte_scan::lemma_run_end_is(stream, start, StopSet::NdjsonFrame, end);
    if terminator == NdjsonTerminator::CrLf {
        assert(stream[end + 1] == terminator.spelled()[1]);
    }
    assert(stream.subrange(start, end) =~= payload);
    assert(!blank(payload)) by {
        assert(payload[0] != SPACE && payload[0] != TAB);
    }
}

} // verus!
