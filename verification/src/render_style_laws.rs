//! What a rendering looks like: how a container's children stand on their lines, how a text is spelled, and when nesting is
//! refused.

use vstd::prelude::*;
use vstd::utf8::{decode_first_scalar, pop_first_scalar, valid_utf8};

use crate::encode_text::{ascii_escaped, lemma_first_scalar, quoted, scalar_escape, text_body, unit_escape};
use crate::error::CodecFailureKind;
use crate::json_escape::{escaped, escaped_byte, hex_digit};
use crate::options::JsonIndent;
use crate::render::{
    comment_lines, element_break, line_break, render_elements, render_item, render_members, render_value, EncodeConfig,
    RenderStyle,
};
use crate::text_laws::{first_unit, lemma_body_by_units};
use crate::value::{lemma_member_order, member_order, utf8, Item, Member, Value};

verus! {

/// What starts the line of a child inside `depth` open containers: nothing where everything stands on one line; otherwise a
/// line feed, and the indentation of one container for each that is open.
pub open spec fn margin(indent: JsonIndent, depth: nat) -> Seq<u8> {
    match indent {
        JsonIndent::Compact => seq![],
        JsonIndent::Spaces(width) => Seq::new(1 + depth * (width as nat), |i: int| if i == 0 {
            0x0au8
        } else {
            0x20u8
        }),
        JsonIndent::Tabs => Seq::new(1 + depth, |i: int| if i == 0 {
            0x0au8
        } else {
            0x09u8
        }),
    }
}

/// Children in a row: each starts its own line behind `gap`, and each but the first has a comma before that.
pub open spec fn laid_out(parts: Seq<Seq<u8>>, gap: Seq<u8>) -> Seq<u8>
    decreases parts.len(),
{
    if parts.len() == 0 {
        seq![]
    } else {
        let comma: Seq<u8> = if parts.len() > 1 {
            seq![0x2c]
        } else {
            seq![]
        };
        laid_out(parts.drop_last(), gap) + comma + gap + parts.last()
    }
}

/// One more child in front.
proof fn lemma_laid_out_front(parts: Seq<Seq<u8>>, gap: Seq<u8>)
    requires
        parts.len() > 0,
    ensures
        laid_out(parts, gap) == gap + parts[0] + followed(parts.skip(1), gap),
    decreases parts.len(),
{
    let rest = parts.skip(1);
    if parts.len() == 1 {
        assert(parts.drop_last() =~= Seq::<Seq<u8>>::empty());
        assert(rest =~= Seq::<Seq<u8>>::empty());
        assert(laid_out(parts.drop_last(), gap) =~= Seq::<u8>::empty());
        assert(followed(rest, gap) =~= Seq::<u8>::empty());
        assert(laid_out(parts, gap) =~= gap + parts[0] + followed(rest, gap));
    } else {
        let head = parts.drop_last();
        lemma_laid_out_front(head, gap);
        assert(head.skip(1) =~= rest.drop_last());
        lemma_followed_back(rest, gap);
        assert(laid_out(parts, gap) =~= gap + parts[0] + followed(rest, gap));
    }
}

/// Children behind others: each has a comma before its line.
spec fn followed(parts: Seq<Seq<u8>>, gap: Seq<u8>) -> Seq<u8>
    decreases parts.len(),
{
    if parts.len() == 0 {
        seq![]
    } else {
        seq![0x2cu8] + gap + parts[0] + followed(parts.skip(1), gap)
    }
}

proof fn lemma_followed_back(parts: Seq<Seq<u8>>, gap: Seq<u8>)
    requires
        parts.len() > 0,
    ensures
        followed(parts, gap) == followed(parts.drop_last(), gap) + seq![0x2cu8] + gap + parts.last(),
    decreases parts.len(),
{
    let rest = parts.skip(1);
    if parts.len() == 1 {
        assert(rest =~= Seq::<Seq<u8>>::empty());
        assert(parts.drop_last() =~= Seq::<Seq<u8>>::empty());
        assert(followed(parts, gap) =~= followed(parts.drop_last(), gap) + seq![0x2cu8] + gap + parts.last());
    } else {
        lemma_followed_back(rest, gap);
        assert(parts.drop_last().skip(1) =~= rest.drop_last());
        assert(parts.drop_last()[0] == parts[0]);
        assert(rest.last() == parts.last());
        assert(followed(parts, gap) =~= followed(parts.drop_last(), gap) + seq![0x2cu8] + gap + parts.last());
    }
}

/// A child's line starts with its margin.
proof fn lemma_break_is_margin(indent: JsonIndent, depth: nat)
    ensures
        element_break(indent, depth) == margin(indent, depth),
{
    assert(element_break(indent, depth) =~= margin(indent, depth));
}

/// What an array's elements are written as, each on its own.
pub open spec fn element_texts(items: Vec<Item>, depth: nat, style: RenderStyle) -> Seq<Seq<u8>> {
    Seq::new(items.len() as nat, |k: int| render_value(items[k].value, depth, style).bytes)
}

proof fn lemma_elements_are_laid_out(items: Vec<Item>, from: int, depth: nat, style: RenderStyle)
    requires
        0 <= from <= items.len(),
        !style.comments,
    ensures
        ({
            let rest = element_texts(items, depth, style).skip(from);
            render_elements(items, from, depth, style).bytes == if from == 0 && items.len() > 0 {
                laid_out(rest, margin(style.options.indent, depth))
            } else {
                followed(rest, margin(style.options.indent, depth))
            }
        }),
    decreases items.len() - from,
{
    let parts = element_texts(items, depth, style);
    let rest = parts.skip(from);
    let gap = margin(style.options.indent, depth);
    lemma_break_is_margin(style.options.indent, depth);
    let bytes = render_elements(items, from, depth, style).bytes;
    if from < items.len() {
        lemma_elements_are_laid_out(items, from + 1, depth, style);
        assert(rest.skip(1) =~= parts.skip(from + 1));
        assert(rest[0] == render_value(items[from].value, depth, style).bytes);
        if from == 0 {
            lemma_laid_out_front(rest, gap);
            assert(bytes =~= gap + rest[0] + followed(rest.skip(1), gap));
        } else {
            assert(bytes =~= seq![0x2cu8] + gap + rest[0] + followed(rest.skip(1), gap));
        }
    }
}

/// An array is written as its brackets with its elements between, in order, each as it is written on its own, and each on a
/// line of its own one step further in, or all on one line; a comma parts each from the next, and nothing else does.
pub proof fn lemma_array_is_its_elements(items: Vec<Item>, depth: nat, style: RenderStyle)
    requires
        !style.comments,
        !style.trailing_commas,
    ensures
        render_value(Value::Array(items), depth, style).bytes == if items.len() == 0 {
            seq![0x5bu8, 0x5d]
        } else {
            seq![0x5bu8] + laid_out(
                element_texts(items, depth + 1, style),
                margin(style.options.indent, depth + 1),
            ) + margin(style.options.indent, depth) + seq![0x5du8]
        },
{
    lemma_break_is_margin(style.options.indent, depth);
    let bytes = render_value(Value::Array(items), depth, style).bytes;
    if items.len() == 0 {
        assert(bytes =~= seq![0x5bu8, 0x5d]);
    } else {
        lemma_elements_are_laid_out(items, 0, depth + 1, style);
        let parts = element_texts(items, depth + 1, style);
        assert(parts.skip(0) =~= parts);
        assert(bytes =~= seq![0x5bu8] + laid_out(parts, margin(style.options.indent, depth + 1)) + margin(
            style.options.indent,
            depth,
        ) + seq![0x5du8]);
    }
}

/// What an object's members are written as, in the order they are written in: a quoted key, a colon, with a space behind it
/// where lines are broken, and the value.
pub open spec fn member_texts(members: Vec<Member>, order: Seq<usize>, depth: nat, style: RenderStyle) -> Seq<Seq<u8>> {
    Seq::new(
        order.len(),
        |k: int|
            {
                let member = members[order[k] as int];
                let colon: Seq<u8> = if style.options.indent == JsonIndent::Compact {
                    seq![0x3a]
                } else {
                    seq![0x3a, 0x20]
                };
                quoted(utf8(member.key), style.options.ascii_output) + colon + render_value(
                    member.item.value,
                    depth,
                    style,
                ).bytes
            },
    )
}

/// A member is what opens it, its margin, its text, and what follows.
proof fn lemma_member_is_written(members: Vec<Member>, order: Seq<usize>, from: int, depth: nat, style: RenderStyle)
    requires
        0 <= from < order.len(),
        order[from] < members.len(),
        !style.comments,
    ensures
        render_members(members, order, from, depth, style).bytes == (if from == 0 {
            seq![0x7bu8]
        } else {
            seq![0x2cu8]
        }) + (margin(style.options.indent, depth) + member_texts(members, order, depth, style)[from] + render_members(
            members,
            order,
            from + 1,
            depth,
            style,
        ).bytes),
{
    let member = members[order[from] as int];
    let gap = margin(style.options.indent, depth);
    lemma_break_is_margin(style.options.indent, depth);
    let first: Seq<u8> = if from == 0 {
        seq![0x7bu8]
    } else {
        seq![0x2cu8]
    };
    let key = quoted(utf8(member.key), style.options.ascii_output);
    let colon: Seq<u8> = if style.options.indent == JsonIndent::Compact {
        seq![0x3a]
    } else {
        seq![0x3a, 0x20]
    };
    let value = render_value(member.item.value, depth, style).bytes;
    let rest = render_members(members, order, from + 1, depth, style).bytes;
    let lead = style.member_lead(member, from == 0, depth).bytes;
    assert(style.options.indent.separator() =~= colon);
    assert(lead =~= first + gap + key + colon);
    assert(render_members(members, order, from, depth, style).bytes == lead + value + rest);
    assert(lead + value + rest =~= first + (gap + (key + colon + value) + rest));
}

proof fn lemma_members_are_laid_out(members: Vec<Member>, order: Seq<usize>, from: int, depth: nat, style: RenderStyle)
    requires
        0 <= from <= order.len(),
        forall|a: int| 0 <= a < order.len() ==> (#[trigger] order[a]) < members.len(),
        !style.comments,
    ensures
        ({
            let rest = member_texts(members, order, depth, style).skip(from);
            render_members(members, order, from, depth, style).bytes == if from == 0 && order.len() > 0 {
                seq![0x7bu8] + laid_out(rest, margin(style.options.indent, depth))
            } else {
                followed(rest, margin(style.options.indent, depth))
            }
        }),
    decreases order.len() - from,
{
    let parts = member_texts(members, order, depth, style);
    let rest = parts.skip(from);
    let gap = margin(style.options.indent, depth);
    lemma_break_is_margin(style.options.indent, depth);
    let bytes = render_members(members, order, from, depth, style).bytes;
    if from < order.len() {
        lemma_members_are_laid_out(members, order, from + 1, depth, style);
        assert(rest.skip(1) =~= parts.skip(from + 1));
        assert(rest[0] == parts[from]);
        assert(order[from] < members.len());
        lemma_member_is_written(members, order, from, depth, style);
        if from == 0 {
            lemma_laid_out_front(rest, gap);
        } else {
            assert(bytes =~= seq![0x2cu8] + gap + rest[0] + followed(rest.skip(1), gap));
        }
    }
}

/// An object is written as its braces with its members between, each once, in document order or sorted by their keys, each
/// on a line of its own one step further in, or all on one line; a comma parts each from the next, and nothing else does.
pub proof fn lemma_object_is_its_members(members: Vec<Member>, depth: nat, style: RenderStyle)
    requires
        !style.comments,
        !style.trailing_commas,
    ensures
        ({
            let order = member_order(members@, style.options.sort_keys);
            &&& order.len() == members.len()
            &&& render_value(Value::Object(members), depth, style).bytes == if members.len() == 0 {
                seq![0x7bu8, 0x7d]
            } else {
                seq![0x7bu8] + laid_out(
                    member_texts(members, order, depth + 1, style),
                    margin(style.options.indent, depth + 1),
                ) + margin(style.options.indent, depth) + seq![0x7du8]
            }
        }),
{
    lemma_break_is_margin(style.options.indent, depth);
    lemma_member_order(members@, style.options.sort_keys);
    let order = member_order(members@, style.options.sort_keys);
    let bytes = render_value(Value::Object(members), depth, style).bytes;
    if members.len() == 0 {
        assert(bytes =~= seq![0x7bu8, 0x7d]);
    } else {
        lemma_members_are_laid_out(members, order, 0, depth + 1, style);
        let parts = member_texts(members, order, depth + 1, style);
        assert(parts.skip(0) =~= parts);
        let inner = laid_out(parts, margin(style.options.indent, depth + 1));
        assert(render_members(members, order, 0, depth + 1, style).bytes == seq![0x7bu8] + inner);
        lemma_object_ends(members, order, depth, style);
        assert(seq![0x7bu8] + inner + (margin(style.options.indent, depth) + seq![0x7du8]) =~= seq![0x7bu8] + inner
            + margin(style.options.indent, depth) + seq![0x7du8]);
    }
}

/// An object is its members, and what closes it.
proof fn lemma_object_ends(members: Vec<Member>, order: Seq<usize>, depth: nat, style: RenderStyle)
    requires
        members.len() > 0,
        !style.trailing_commas,
        order == member_order(members@, style.options.sort_keys),
    ensures
        render_value(Value::Object(members), depth, style).bytes == render_members(
            members,
            order,
            0,
            depth + 1,
            style,
        ).bytes + (margin(style.options.indent, depth) + seq![0x7du8]),
{
    lemma_break_is_margin(style.options.indent, depth);
    let inner = render_members(members, order, 0, depth + 1, style);
    let close = style.close(depth, 0x7d);
    assert(close.bytes =~= margin(style.options.indent, depth) + seq![0x7du8]);
    assert(render_value(Value::Object(members), depth, style).bytes =~= inner.bytes + close.bytes);
}

/// The trailing comma that a commented dialect may write stands behind the last child of every container that holds one, and
/// nothing else changes.
pub proof fn lemma_trailing_comma_follows_the_last_child(value: Value, depth: nat, style: RenderStyle)
    requires
        !style.comments,
        style.trailing_commas,
        value matches Value::Array(items) ==> items.len() > 0,
        value matches Value::Object(members) ==> members.len() > 0,
        value is Array || value is Object,
    ensures
        ({
            let gap = margin(style.options.indent, depth + 1);
            let tail = seq![0x2cu8] + margin(style.options.indent, depth);
            render_value(value, depth, style).bytes == match value {
                Value::Array(items) => seq![0x5bu8] + laid_out(element_texts(items, depth + 1, style), gap) + tail + seq![
                    0x5du8,
                ],
                Value::Object(members) => seq![0x7bu8] + laid_out(
                    member_texts(members, member_order(members@, style.options.sort_keys), depth + 1, style),
                    gap,
                ) + tail + seq![0x7du8],
                _ => seq![],
            }
        }),
{
    lemma_break_is_margin(style.options.indent, depth);
    let gap = margin(style.options.indent, depth + 1);
    let tail = seq![0x2cu8] + margin(style.options.indent, depth);
    let bytes = render_value(value, depth, style).bytes;
    match value {
        Value::Array(items) => {
            lemma_elements_are_laid_out(items, 0, depth + 1, style);
            let parts = element_texts(items, depth + 1, style);
            assert(parts.skip(0) =~= parts);
            assert(bytes =~= seq![0x5bu8] + laid_out(parts, gap) + tail + seq![0x5du8]);
        },
        Value::Object(members) => {
            lemma_member_order(members@, style.options.sort_keys);
            let order = member_order(members@, style.options.sort_keys);
            lemma_members_are_laid_out(members, order, 0, depth + 1, style);
            let parts = member_texts(members, order, depth + 1, style);
            assert(parts.skip(0) =~= parts);
            assert(bytes =~= seq![0x7bu8] + laid_out(parts, gap) + tail + seq![0x7du8]);
        },
        _ => {},
    }
}

/// How many containers a value nests, itself counted.
pub open spec fn height(value: Value) -> nat
    decreases value, 0int,
{
    match value {
        Value::Array(items) => 1 + elements_height(items, 0),
        Value::Object(members) => 1 + members_height(members, 0),
        Value::Tagged(inner) => height(*inner),
        _ => 0,
    }
}

/// The most that the elements from `from` on nest.
pub open spec fn elements_height(items: Vec<Item>, from: int) -> nat
    decreases items, items.len() - from,
{
    if 0 <= from < items.len() {
        let own = height(items[from].value);
        let rest = elements_height(items, from + 1);
        if own > rest {
            own
        } else {
            rest
        }
    } else {
        0
    }
}

/// The most that the members from `from` on nest.
pub open spec fn members_height(members: Vec<Member>, from: int) -> nat
    decreases members, members.len() - from,
{
    if 0 <= from < members.len() {
        let own = height(members[from].item.value);
        let rest = members_height(members, from + 1);
        if own > rest {
            own
        } else {
            rest
        }
    } else {
        0
    }
}

/// A compact value is refused exactly where it nests deeper than the limit allows, and for nothing else.
pub proof fn lemma_nesting_is_refused_past_the_limit(value: Value, depth: nat, style: RenderStyle)
    requires
        style.options.indent == JsonIndent::Compact,
        depth > 0 || !style.prints_raw(),
    ensures
        render_value(value, depth, style).refused == if height(value) > 0 && depth + height(value)
            > style.max_nesting_depth {
            Some(CodecFailureKind::NestingLimit)
        } else {
            None::<CodecFailureKind>
        },
    decreases value, 0int,
{
    match value {
        Value::Array(items) => {
            lemma_elements_refused(items, 0, depth + 1, style);
        },
        Value::Object(members) => {
            let order = member_order(members@, style.options.sort_keys);
            lemma_member_order(members@, style.options.sort_keys);
            lemma_members_refused(members, order, 0, depth + 1, style);
            if depth + 1 + members_height(members, 0) > style.max_nesting_depth && members_height(members, 0) > 0 {
                let k = lemma_tallest_member(members, 0);
                assert(order.contains(k as usize));
                let a = choose|a: int| 0 <= a < order.len() && order[a] == k as usize;
                assert(too_deep(members, order, a, depth + 1, style));
            }
            if exists|a: int| 0 <= a < order.len() && #[trigger] too_deep(members, order, a, depth + 1, style) {
                let a = choose|a: int| 0 <= a < order.len() && #[trigger] too_deep(members, order, a, depth + 1, style);
                lemma_members_height_bounds(members, 0, order[a] as int);
            }
        },
        Value::Tagged(inner) => {
            lemma_nesting_is_refused_past_the_limit(*inner, depth, style);
        },
        _ => {},
    }
}

proof fn lemma_elements_refused(items: Vec<Item>, from: int, depth: nat, style: RenderStyle)
    requires
        style.options.indent == JsonIndent::Compact,
        0 <= from,
        depth > 0,
    ensures
        render_elements(items, from, depth, style).refused == if elements_height(items, from) > 0 && depth
            + elements_height(items, from) > style.max_nesting_depth {
            Some(CodecFailureKind::NestingLimit)
        } else {
            None::<CodecFailureKind>
        },
    decreases items, items.len() - from,
{
    if from < items.len() {
        lemma_nesting_is_refused_past_the_limit(items[from].value, depth, style);
        lemma_elements_refused(items, from + 1, depth, style);
    }
}

/// Whether the member at position `at` of the order nests too deep.
spec fn too_deep(members: Vec<Member>, order: Seq<usize>, at: int, depth: nat, style: RenderStyle) -> bool {
    let own = height(members[order[at] as int].item.value);
    own > 0 && depth + own > style.max_nesting_depth
}

proof fn lemma_members_refused(members: Vec<Member>, order: Seq<usize>, from: int, depth: nat, style: RenderStyle)
    requires
        style.options.indent == JsonIndent::Compact,
        0 <= from,
        depth > 0,
        forall|a: int| 0 <= a < order.len() ==> (#[trigger] order[a]) < members.len(),
    ensures
        render_members(members, order, from, depth, style).refused == if exists|a: int|
            from <= a < order.len() && #[trigger] too_deep(members, order, a, depth, style) {
            Some(CodecFailureKind::NestingLimit)
        } else {
            None::<CodecFailureKind>
        },
    decreases members, order.len() - from,
{
    if from < order.len() {
        assert(order[from] < members.len());
        let member = members[order[from] as int];
        lemma_nesting_is_refused_past_the_limit(member.item.value, depth, style);
        lemma_members_refused(members, order, from + 1, depth, style);
        if exists|a: int| from <= a < order.len() && #[trigger] too_deep(members, order, a, depth, style) {
            let a = choose|a: int| from <= a < order.len() && #[trigger] too_deep(members, order, a, depth, style);
            if a > from {
                assert(from + 1 <= a);
            }
        }
        if too_deep(members, order, from, depth, style) {
            assert(exists|a: int| from <= a < order.len() && #[trigger] too_deep(members, order, a, depth, style));
        }
        if exists|a: int| from + 1 <= a < order.len() && #[trigger] too_deep(members, order, a, depth, style) {
            let a = choose|a: int| from + 1 <= a < order.len() && #[trigger] too_deep(members, order, a, depth, style);
            assert(from <= a < order.len() && too_deep(members, order, a, depth, style));
        }
    }
}

proof fn lemma_members_height_bounds(members: Vec<Member>, from: int, at: int)
    requires
        0 <= from <= at < members.len(),
    ensures
        height(members[at].item.value) <= members_height(members, from),
    decreases at - from,
{
    if from < at {
        lemma_members_height_bounds(members, from + 1, at);
    }
}

proof fn lemma_tallest_member(members: Vec<Member>, from: int) -> (at: int)
    requires
        0 <= from <= members.len(),
        members_height(members, from) > 0,
    ensures
        from <= at < members.len(),
        height(members[at].item.value) == members_height(members, from),
    decreases members.len() - from,
{
    if from < members.len() {
        if height(members[from].item.value) > members_height(members, from + 1) {
            from
        } else {
            lemma_tallest_member(members, from + 1)
        }
    } else {
        from
    }
}

/// Whether a byte is a hexadecimal digit, in lowercase.
pub open spec fn lower_hex(byte: u8) -> bool {
    0x30 <= byte <= 0x39 || 0x61 <= byte <= 0x66
}

/// How one ASCII character is spelled: as itself where it may stand in a string, as a backslash and one letter where JSON has
/// a short escape for it, and as `\\u00` and two lowercase digits otherwise.
pub proof fn lemma_ascii_character_is_spelled(byte: u8, ascii: bool)
    requires
        byte < 0x80,
    ensures
        ({
            let body = text_body(seq![byte], ascii);
            let short = byte == 0x22 || byte == 0x5c || byte == 0x08 || byte == 0x09 || byte == 0x0a || byte == 0x0c
                || byte == 0x0d;
            if 0x20 <= byte < 0x7f && !short {
                body == seq![byte]
            } else if short {
                body.len() == 2 && body[0] == 0x5c
            } else {
                &&& body.len() == 6
                &&& body[0] == 0x5c && body[1] == 0x75 && body[2] == 0x30 && body[3] == 0x30
                &&& lower_hex(body[4]) && lower_hex(body[5])
            }
        }),
{
    let text = seq![byte];
    let body = text_body(text, ascii);
    assert(text.drop_last() =~= Seq::<u8>::empty());
    assert(text.skip(1) =~= Seq::<u8>::empty());
    assert(escaped(text.drop_last()) =~= Seq::<u8>::empty());
    assert(ascii_escaped(text.skip(1)) =~= Seq::<u8>::empty());
    assert(body =~= escaped_byte(byte));
}

/// With ASCII output every byte of a written text is a printable ASCII byte, whatever the text holds; without it, a character
/// outside ASCII is written as its own bytes.
pub proof fn lemma_ascii_output_is_ascii(bytes: Seq<u8>)
    requires
        valid_utf8(bytes),
    ensures
        forall|i: int| 0 <= i < text_body(bytes, true).len() ==> 0x20 <= #[trigger] text_body(bytes, true)[i] < 0x7f,
        bytes.len() > 0 && bytes[0] >= 0x80 ==> ({
            let rest = pop_first_scalar(bytes);
            text_body(bytes, false) == bytes.take(bytes.len() - rest.len()) + text_body(rest, false)
        }),
    decreases bytes.len(),
{
    if bytes.len() > 0 {
        lemma_first_scalar(bytes);
        lemma_body_by_units(bytes, true);
        lemma_body_by_units(bytes, false);
        let rest = pop_first_scalar(bytes);
        lemma_ascii_output_is_ascii(rest);
        let unit = first_unit(bytes, true);
        let whole = text_body(bytes, true);
        let tail = text_body(rest, true);
        if bytes[0] < 0x80 {
            assert(forall|i: int| 0 <= i < unit.len() ==> 0x20 <= #[trigger] unit[i] < 0x7f);
        } else {
            crate::lazy::lemma_first_scalar_is_a_character(bytes);
            lemma_scalar_escape_is_ascii(decode_first_scalar(bytes));
            assert(first_unit(bytes, false) =~= bytes.take(bytes.len() - rest.len()));
        }
        assert forall|i: int| 0 <= i < whole.len() implies 0x20 <= #[trigger] whole[i] < 0x7f by {
            if i < unit.len() {
                assert(whole[i] == unit[i]);
            } else {
                assert(whole[i] == tail[i - unit.len()]);
            }
        }
    } else {
        assert(text_body(bytes, true) =~= Seq::<u8>::empty());
    }
}

proof fn lemma_unit_escape_is_ascii(unit: int)
    requires
        0 <= unit <= 0xffff,
    ensures
        forall|i: int| 0 <= i < unit_escape(unit).len() ==> 0x20 <= #[trigger] unit_escape(unit)[i] < 0x7f,
        forall|i: int| 2 <= i < unit_escape(unit).len() ==> lower_hex(#[trigger] unit_escape(unit)[i]),
{
    let digits = seq![unit / 4096 % 16, unit / 256 % 16, unit / 16 % 16, unit % 16];
    assert(lower_hex(hex_digit(unit / 4096 % 16)));
    assert(lower_hex(hex_digit(unit / 256 % 16)));
    assert(lower_hex(hex_digit(unit / 16 % 16)));
    assert(lower_hex(hex_digit(unit % 16)));
}

/// A character's escape is one `\\uXXXX` in lowercase, or two of them for a character past the basic plane.
pub proof fn lemma_scalar_escape_is_ascii(codepoint: u32)
    requires
        codepoint <= 0x10ffff,
    ensures
        scalar_escape(codepoint).len() == if codepoint <= 0xffff {
            6nat
        } else {
            12
        },
        forall|i: int|
            0 <= i < scalar_escape(codepoint).len() ==> 0x20 <= #[trigger] scalar_escape(codepoint)[i] < 0x7f,
        forall|i: int|
            0 <= i < scalar_escape(codepoint).len() && i % 6 >= 2 ==> lower_hex(#[trigger] scalar_escape(codepoint)[i]),
{
    if codepoint <= 0xffff {
        lemma_unit_escape_is_ascii(codepoint as int);
    } else {
        let value = codepoint - 0x10000;
        lemma_unit_escape_is_ascii(0xd800 + value / 0x400);
        lemma_unit_escape_is_ascii(0xdc00 + value % 0x400);
        let (high, low) = (unit_escape(0xd800 + value / 0x400), unit_escape(0xdc00 + value % 0x400));
        assert forall|i: int| 0 <= i < 12 implies 0x20 <= #[trigger] scalar_escape(codepoint)[i] < 0x7f by {
            if i < 6 {
                assert(scalar_escape(codepoint)[i] == high[i]);
            } else {
                assert(scalar_escape(codepoint)[i] == low[i - 6]);
            }
        }
        assert forall|i: int| 0 <= i < 12 && i % 6 >= 2 implies lower_hex(#[trigger] scalar_escape(codepoint)[i]) by {
            if i < 6 {
                assert(scalar_escape(codepoint)[i] == high[i]);
            } else {
                assert(scalar_escape(codepoint)[i] == low[i - 6]);
            }
        }
    }
}

/// A root item is its prefix, its value and its framing. With raw strings a root text loses the prefix, and its quotes and
/// escapes too unless ASCII output keeps them; every other value is written as ever.
pub proof fn lemma_root_item_is_framed(item: Item, config: EncodeConfig)
    requires
        !config.render.comments,
    ensures
        ({
            let options = config.render.options;
            let bytes = render_item(item, config).bytes;
            match item.value {
                Value::Text(text) => bytes == if options.raw_strings && !options.ascii_output {
                    utf8(text) + config.framing@
                } else if options.raw_strings {
                    quoted(utf8(text), true) + config.framing@
                } else {
                    config.prefix@ + quoted(utf8(text), options.ascii_output) + config.framing@
                },
                Value::Null => bytes == config.prefix@ + seq![0x6eu8, 0x75, 0x6c, 0x6c] + config.framing@,
                Value::Bool(true) => bytes == config.prefix@ + seq![0x74u8, 0x72, 0x75, 0x65] + config.framing@,
                Value::Bool(false) => bytes == config.prefix@ + seq![0x66u8, 0x61, 0x6c, 0x73, 0x65] + config.framing@,
                Value::Array(_) | Value::Object(_) | Value::Number(_) => bytes == config.prefix@ + render_value(
                    item.value,
                    0,
                    config.render,
                ).bytes + config.framing@,
                _ => true,
            }
        }),
{
    let bytes = render_item(item, config).bytes;
    let value = render_value(item.value, 0, config.render).bytes;
    let lead: Seq<u8> = if config.render.skips_prefix(item.value) {
        seq![]
    } else {
        config.prefix@
    };
    assert(bytes =~= lead + value + config.framing@);
    if let Value::Text(text) = item.value {
        if config.render.options.raw_strings {
            assert(lead + value =~= value);
            if !config.render.options.ascii_output {
                assert(value =~= utf8(text));
            }
        }
    }
}

/// The comments of a child stand on lines of their own between the child's line break and the child: behind the comma of a
/// later child, in front of a member's key, and each with a line feed and the child's indentation behind it, also where
/// everything else stands on one line. A style without comments writes none.
pub proof fn lemma_comments_lead_their_child(style: RenderStyle, item: Item, member: Member, index: int, depth: nat)
    requires
        index >= 0,
    ensures
        ({
            let indent = style.options.indent;
            let comma: Seq<u8> = if index > 0 {
                seq![0x2c]
            } else {
                seq![]
            };
            let ending: Seq<u8> = if indent == JsonIndent::Compact {
                seq![0x0a]
            } else {
                margin(indent, depth)
            };
            let colon: Seq<u8> = if indent == JsonIndent::Compact {
                seq![0x3a]
            } else {
                seq![0x3a, 0x20]
            };
            let lead: Seq<u8> = if style.comments {
                comment_lines(item.comments@, ending)
            } else {
                seq![]
            };
            let member_lead: Seq<u8> = if style.comments {
                comment_lines(member.item.comments@, ending)
            } else {
                seq![]
            };
            let opener: Seq<u8> = if index == 0 {
                seq![0x7b]
            } else {
                seq![0x2c]
            };
            &&& style.element_lead(item, index, depth).bytes == comma + margin(indent, depth) + lead
            &&& style.member_lead(member, index == 0, depth).bytes == opener + margin(indent, depth) + member_lead
                + quoted(utf8(member.key), style.options.ascii_output) + colon
        }),
{
    let indent = style.options.indent;
    lemma_break_is_margin(indent, depth);
    if indent == JsonIndent::Compact {
        assert(line_break(indent, depth) =~= seq![0x0au8]);
    }
}

} // verus!
