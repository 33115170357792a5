//! What an encoder reports of an item, by what the item holds, and how a value with no children is written.

use vstd::prelude::*;

use crate::ascii::{CLOSE_BRACE, CLOSE_BRACKET, OPEN_BRACE, OPEN_BRACKET};

use crate::encode::{report_of, FactPreservation, PreservationOutcome};
use crate::encode_text::quoted;
use crate::error::CodecFailureKind;
use crate::options::JsonIndent;
use crate::render::{
    render_elements, render_item, render_members, render_value, root_lead, EncodeConfig, RenderStyle, Rendering,
};
use crate::value::{lemma_member_order, member_order, number_bytes, pieces_from, utf8, Item, Member, Value};

verus! {

/// Whether a value, or anything inside it, is a computed number, or with `tags` is tagged.
pub open spec fn holds(value: Value, tags: bool) -> bool
    decreases value, 0int,
{
    match value {
        Value::Number(number) => !tags && number is Float,
        Value::Array(items) => some_element_holds(items, 0, tags),
        Value::Object(members) => some_member_holds(members, 0, tags),
        Value::Tagged(inner) => tags || holds(*inner, tags),
        _ => false,
    }
}

/// Whether some element from `from` on holds one.
pub open spec fn some_element_holds(items: Vec<Item>, from: int, tags: bool) -> bool
    decreases items, items.len() - from,
{
    0 <= from < items.len() && (holds(items[from].value, tags) || some_element_holds(items, from + 1, tags))
}

/// Whether some member from `from` on holds one.
pub open spec fn some_member_holds(members: Vec<Member>, from: int, tags: bool) -> bool
    decreases members, members.len() - from,
{
    0 <= from < members.len() && (holds(members[from].item.value, tags) || some_member_holds(members, from + 1, tags))
}

proof fn lemma_some_member_is_the_one(members: Vec<Member>, from: int, tags: bool)
    requires
        0 <= from <= members.len(),
    ensures
        some_member_holds(members, from, tags) <==> exists|k: int|
            from <= k < members.len() && #[trigger] holds(members[k].item.value, tags),
    decreases members.len() - from,
{
    if from < members.len() {
        lemma_some_member_is_the_one(members, from + 1, tags);
        if exists|k: int| from <= k < members.len() && #[trigger] holds(members[k].item.value, tags) {
            let k = choose|k: int| from <= k < members.len() && #[trigger] holds(members[k].item.value, tags);
            if k > from {
                assert(from + 1 <= k);
            }
        }
        if some_member_holds(members, from + 1, tags) {
            let k = choose|k: int| from + 1 <= k < members.len() && #[trigger] holds(members[k].item.value, tags);
            assert(from <= k < members.len() && holds(members[k].item.value, tags));
        }
        if holds(members[from].item.value, tags) {
            assert(exists|k: int| from <= k < members.len() && #[trigger] holds(members[k].item.value, tags));
        }
    }
}

/// What a rendering notes is what the value holds: a dropped tag where anything in it is tagged, and a normalized number
/// where anything in it was computed.
pub proof fn lemma_rendering_notes_what_the_value_holds(value: Value, depth: nat, style: RenderStyle)
    ensures
        render_value(value, depth, style).tagged == holds(value, true),
        render_value(value, depth, style).float == holds(value, false),
    decreases value, 0int,
{
    match value {
        Value::Array(items) => {
            lemma_elements_note(items, 0, depth + 1, style);
        },
        Value::Object(members) => {
            let order = member_order(members@, style.options.sort_keys);
            lemma_member_order(members@, style.options.sort_keys);
            lemma_members_note(members, order, 0, depth + 1, style);
            lemma_order_misses_none(members, order, true);
            lemma_order_misses_none(members, order, false);
        },
        Value::Tagged(inner) => {
            lemma_rendering_notes_what_the_value_holds(*inner, depth, style);
        },
        _ => {},
    }
}

proof fn lemma_elements_note(items: Vec<Item>, from: int, depth: nat, style: RenderStyle)
    requires
        0 <= from,
    ensures
        render_elements(items, from, depth, style).tagged == some_element_holds(items, from, true),
        render_elements(items, from, depth, style).float == some_element_holds(items, from, false),
    decreases items, items.len() - from,
{
    if from < items.len() {
        lemma_rendering_notes_what_the_value_holds(items[from].value, depth, style);
        lemma_elements_note(items, from + 1, depth, style);
    }
}

/// Whether some member from position `from` of the order on holds one.
spec fn ordered_holds(members: Vec<Member>, order: Seq<usize>, from: int, tags: bool) -> bool
    decreases order.len() - from,
{
    0 <= from < order.len() && (holds(members[order[from] as int].item.value, tags) || ordered_holds(
        members,
        order,
        from + 1,
        tags,
    ))
}

proof fn lemma_members_note(members: Vec<Member>, order: Seq<usize>, from: int, depth: nat, style: RenderStyle)
    requires
        0 <= from,
        forall|a: int| 0 <= a < order.len() ==> (#[trigger] order[a]) < members.len(),
    ensures
        render_members(members, order, from, depth, style).tagged == ordered_holds(members, order, from, true),
        render_members(members, order, from, depth, style).float == ordered_holds(members, order, from, false),
    decreases members, order.len() - from,
{
    if from < order.len() {
        assert(order[from] < members.len());
        lemma_rendering_notes_what_the_value_holds(members[order[from] as int].item.value, depth, style);
        lemma_members_note(members, order, from + 1, depth, style);
    }
}

proof fn lemma_ordered_is_the_one(members: Vec<Member>, order: Seq<usize>, from: int, tags: bool)
    requires
        0 <= from <= order.len(),
    ensures
        ordered_holds(members, order, from, tags) <==> exists|a: int|
            from <= a < order.len() && holds(members[#[trigger] order[a] as int].item.value, tags),
    decreases order.len() - from,
{
    if from < order.len() {
        lemma_ordered_is_the_one(members, order, from + 1, tags);
        if exists|a: int| from <= a < order.len() && holds(members[#[trigger] order[a] as int].item.value, tags) {
            let a = choose|a: int| from <= a < order.len() && holds(members[#[trigger] order[a] as int].item.value, tags);
            if a > from {
                assert(from + 1 <= a);
            }
        }
        if ordered_holds(members, order, from + 1, tags) {
            let a = choose|a: int|
                from + 1 <= a < order.len() && holds(members[#[trigger] order[a] as int].item.value, tags);
            assert(from <= a < order.len() && holds(members[order[a] as int].item.value, tags));
        }
        if holds(members[order[from] as int].item.value, tags) {
            assert(exists|a: int| from <= a < order.len() && holds(members[#[trigger] order[a] as int].item.value, tags));
        }
    }
}

proof fn lemma_order_misses_none(members: Vec<Member>, order: Seq<usize>, tags: bool)
    requires
        forall|a: int| 0 <= a < order.len() ==> (#[trigger] order[a]) < members.len(),
        forall|k: int| 0 <= k < members.len() ==> order.contains(#[trigger] (k as usize)),
    ensures
        ordered_holds(members, order, 0, tags) == some_member_holds(members, 0, tags),
{
    lemma_ordered_is_the_one(members, order, 0, tags);
    lemma_some_member_is_the_one(members, 0, tags);
    if some_member_holds(members, 0, tags) {
        let k = choose|k: int| 0 <= k < members.len() && #[trigger] holds(members[k].item.value, tags);
        assert(order.contains(k as usize));
        let a = choose|a: int| 0 <= a < order.len() && order[a] == k as usize;
        assert(holds(members[order[a] as int].item.value, tags));
    }
    if ordered_holds(members, order, 0, tags) {
        let a = choose|a: int| 0 <= a < order.len() && holds(members[#[trigger] order[a] as int].item.value, tags);
        assert(holds(members[order[a] as int].item.value, tags));
    }
}

/// An item's report says that its values are normalized exactly where a computed number is among them, that its tags and
/// facts survive exactly where it has no tag and its facts survive, and that order is kept and spelling is not.
pub proof fn lemma_report_is_of_what_the_item_holds(item: Item, config: EncodeConfig, facts: FactPreservation)
    ensures
        ({
            let whole = render_item(item, config);
            let report = report_of(whole.float, whole.tagged, facts);
            &&& report.semantic_values == PreservationOutcome::Normalized <==> holds(item.value, false)
            &&& report.semantic_values == PreservationOutcome::Exact <==> !holds(item.value, false)
            &&& report.tags_and_facts == PreservationOutcome::Exact <==> facts == FactPreservation::Exact && !holds(
                item.value,
                true,
            )
            &&& report.tags_and_facts == PreservationOutcome::Normalized <==> facts == FactPreservation::Exact && holds(
                item.value,
                true,
            )
            &&& report.tags_and_facts == PreservationOutcome::Omitted <==> facts == FactPreservation::Omitted
            &&& report.tags_and_facts == PreservationOutcome::Indeterminate <==> facts == FactPreservation::Indeterminate
            &&& report.order == PreservationOutcome::Exact
            &&& report.spelling == PreservationOutcome::Normalized
        }),
{
    lemma_rendering_notes_what_the_value_holds(item.value, 0, config.render);
}

/// How a value with no children is written: `null`, `true` and `false` by their letters, a number by its own bytes, and a
/// text in quotes, but for a text at the root under raw strings and without ascii output, which is its own bytes.
pub proof fn lemma_scalars_are_written(value: Value, depth: nat, style: RenderStyle)
    ensures
        ({
            let bytes = render_value(value, depth, style).bytes;
            let raw = depth == 0 && style.options.raw_strings && !style.options.ascii_output;
            match value {
                Value::Null => bytes == seq![0x6eu8, 0x75, 0x6c, 0x6c],
                Value::Bool(true) => bytes == seq![0x74u8, 0x72, 0x75, 0x65],
                Value::Bool(false) => bytes == seq![0x66u8, 0x61, 0x6c, 0x73, 0x65],
                Value::Number(number) => bytes == number_bytes(number),
                Value::Text(text) => if raw {
                    bytes == utf8(text)
                } else {
                    bytes == quoted(utf8(text), style.options.ascii_output)
                },
                Value::Projected(text) => if raw {
                    bytes == utf8(text)
                } else {
                    bytes == seq![0x22u8] + utf8(text) + seq![0x22u8]
                },
                Value::Tagged(inner) => bytes == render_value(*inner, depth, style).bytes,
                _ => true,
            }
        }),
{
    let bytes = render_value(value, depth, style).bytes;
    if let Value::Text(text) = value {
        if depth == 0 && style.prints_raw() {
            assert(bytes =~= utf8(text));
        }
    }
    if let Value::Tagged(inner) = value {
        assert(bytes =~= render_value(*inner, depth, style).bytes);
    }
}

/// A number that is kept in pieces is written as its pieces, one behind the other and the first one first.
pub proof fn lemma_number_is_its_pieces(pieces: Seq<String>, piece: String)
    ensures
        pieces_from(seq![], 0) == Seq::<u8>::empty(),
        pieces_from(pieces.push(piece), 0) == pieces_from(pieces, 0) + utf8(piece),
{
    lemma_pieces_push(pieces, piece, 0);
}

proof fn lemma_pieces_push(pieces: Seq<String>, piece: String, from: int)
    requires
        0 <= from <= pieces.len(),
    ensures
        pieces_from(pieces.push(piece), from) == pieces_from(pieces, from) + utf8(piece),
    decreases pieces.len() - from,
{
    let more = pieces.push(piece);
    if from < pieces.len() {
        lemma_pieces_push(pieces, piece, from + 1);
        assert(pieces_from(more, from) =~= pieces_from(pieces, from) + utf8(piece));
    } else {
        assert(pieces_from(more, from + 1) =~= seq![]);
        assert(pieces_from(more, from) =~= pieces_from(pieces, from) + utf8(piece));
    }
}

/// What leads a root value: its comments, and then the item prefix. With raw strings the prefix is left out before a text,
/// tagged or not, and before a projected text that prints raw; before anything else it always stands.
pub proof fn lemma_prefix_leads_the_root(item: Item, config: EncodeConfig)
    ensures
        ({
            let options = config.render.options;
            let bare = item.value.bare();
            let left_out = options.raw_strings && (bare is Text || (bare is Projected && !options.ascii_output));
            let comments = config.render.lead(item.comments@, 0);
            root_lead(item, config).bytes == if left_out {
                comments
            } else {
                comments + config.prefix@
            }
        }),
{
    let comments = config.render.lead(item.comments@, 0);
    assert(comments + Seq::<u8>::empty() =~= comments);
}

/// A text at the root that prints raw is refused exactly where a NUL ends every item and the text holds one.
pub proof fn lemma_raw_text_is_refused_for_its_nul(text: String, style: RenderStyle)
    requires
        style.options.raw_strings && !style.options.ascii_output,
    ensures
        render_value(Value::Text(text), 0, style).refused == if style.options.raw_output_nul && exists|i: int|
            0 <= i < utf8(text).len() && #[trigger] utf8(text)[i] == 0 {
            Some(CodecFailureKind::RawNulByte)
        } else {
            None
        },
{
}

/// A container is refused past the nesting limit; within it, only where it holds something and the indentation of its
/// children is longer than any address, which on one line it never is.
pub proof fn lemma_nesting_is_refused_for_depth_or_width(style: RenderStyle, depth: nat, holds: bool)
    ensures
        ({
            let wide = match style.options.indent {
                JsonIndent::Compact => false,
                JsonIndent::Spaces(width) => (depth + 1) * (width as nat) > usize::MAX,
                JsonIndent::Tabs => depth + 1 > usize::MAX,
            };
            style.nest(depth, holds).refused == if depth >= style.max_nesting_depth {
                Some(CodecFailureKind::NestingLimit)
            } else if holds && wide {
                Some(CodecFailureKind::Overflow)
            } else {
                None
            }
        }),
{
}

/// Whether what was kept is what was written, up to the refusal.
pub open spec fn kept_in_front(rendering: Rendering) -> bool {
    &&& rendering.kept.is_prefix_of(rendering.bytes)
    &&& rendering.refused is None ==> rendering.kept == rendering.bytes
}

proof fn lemma_kept_in_front_of_both(left: Rendering, right: Rendering)
    requires
        kept_in_front(left) && kept_in_front(right),
    ensures
        kept_in_front(left.then_write(right)),
{
    let whole = left.then_write(right);
    if left.refused is Some {
        assert(whole.bytes.subrange(0, left.kept.len() as int) =~= left.bytes.subrange(0, left.kept.len() as int));
    } else {
        assert(whole.bytes.subrange(0, whole.kept.len() as int) =~= left.bytes + right.bytes.subrange(
            0,
            right.kept.len() as int,
        ));
    }
}

/// What stands before a refusal is what would have stood there without it: the kept bytes are the first of all, and all of
/// them where nothing is refused.
pub proof fn lemma_kept_bytes_stand_in_front(value: Value, depth: nat, style: RenderStyle)
    ensures
        kept_in_front(render_value(value, depth, style)),
    decreases value, 0int,
{
    match value {
        Value::Array(items) => {
            if items.len() > 0 {
                lemma_elements_kept(items, 0, depth + 1, style);
                let opened = style.nest(depth, true).then_write(Rendering::of(seq![OPEN_BRACKET]));
                lemma_kept_in_front_of_both(style.nest(depth, true), Rendering::of(seq![OPEN_BRACKET]));
                let inner = render_elements(items, 0, depth + 1, style);
                lemma_kept_in_front_of_both(opened, inner);
                lemma_kept_in_front_of_both(opened.then_write(inner), style.close(depth, CLOSE_BRACKET));
            } else {
                lemma_kept_in_front_of_both(
                    style.nest(depth, false),
                    Rendering::of(seq![OPEN_BRACKET, CLOSE_BRACKET]),
                );
            }
        },
        Value::Object(members) => {
            if members.len() > 0 {
                let order = member_order(members@, style.options.sort_keys);
                lemma_members_kept(members, order, 0, depth + 1, style);
                let inner = render_members(members, order, 0, depth + 1, style);
                lemma_kept_in_front_of_both(style.nest(depth, true), inner);
                lemma_kept_in_front_of_both(
                    style.nest(depth, true).then_write(inner),
                    style.close(depth, CLOSE_BRACE),
                );
            } else {
                lemma_kept_in_front_of_both(style.nest(depth, false), Rendering::of(seq![OPEN_BRACE, CLOSE_BRACE]));
            }
        },
        Value::Tagged(inner) => {
            lemma_kept_bytes_stand_in_front(*inner, depth, style);
            lemma_kept_in_front_of_both(Rendering::tag(true), render_value(*inner, depth, style));
        },
        Value::Text(text) => {
            if depth == 0 && style.prints_raw() {
                let gate = Rendering::gate(
                    if style.options.raw_output_nul && utf8(text).contains(0) {
                        Some(CodecFailureKind::RawNulByte)
                    } else {
                        None
                    },
                );
                lemma_kept_in_front_of_both(gate, Rendering::of(utf8(text)));
            }
        },
        _ => {},
    }
}

proof fn lemma_elements_kept(items: Vec<Item>, from: int, depth: nat, style: RenderStyle)
    requires
        0 <= from,
    ensures
        kept_in_front(render_elements(items, from, depth, style)),
    decreases items, items.len() - from,
{
    if from < items.len() {
        lemma_kept_bytes_stand_in_front(items[from].value, depth, style);
        lemma_elements_kept(items, from + 1, depth, style);
        let lead = style.element_lead(items[from], from, depth);
        let own = render_value(items[from].value, depth, style);
        lemma_kept_in_front_of_both(lead, own);
        lemma_kept_in_front_of_both(lead.then_write(own), render_elements(items, from + 1, depth, style));
    }
}

proof fn lemma_members_kept(members: Vec<Member>, order: Seq<usize>, from: int, depth: nat, style: RenderStyle)
    requires
        0 <= from,
    ensures
        kept_in_front(render_members(members, order, from, depth, style)),
    decreases members, order.len() - from,
{
    if from < order.len() && order[from] < members.len() {
        let member = members[order[from] as int];
        lemma_kept_bytes_stand_in_front(member.item.value, depth, style);
        lemma_members_kept(members, order, from + 1, depth, style);
        let lead = style.member_lead(member, from == 0, depth);
        let own = render_value(member.item.value, depth, style);
        lemma_kept_in_front_of_both(lead, own);
        lemma_kept_in_front_of_both(lead.then_write(own), render_members(members, order, from + 1, depth, style));
    }
}

} // verus!
