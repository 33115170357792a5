//! What a filtered count makes of rendered JSON: it reads the members that were written.

use vstd::prelude::*;

use crate::ascii::{CLOSE_BRACE, CLOSE_BRACKET, COLON, COMMA, LOWER_N, OPEN_BRACE, OPEN_BRACKET, QUOTE};


use crate::byte_scan::{json_ws, lemma_run_end_is, run_end, StopSet};
use crate::count_filter::{element_member, last_match, member_at, members_from, tested_members, MemberView};
use crate::encode_text::{quoted, text_body};
use crate::lazy::{content_end, lemma_plain_content_is_its_text, null_at, unescaped, value_end, CountStep};
use crate::render::{bool_text, element_break, null_text, render_members, render_value, RenderStyle};
use crate::render_laws::{
    array_tail, bare_word, lemma_first_member_opens, closing, lemma_after_rendered_element, lemma_array_bytes,
    lemma_break_is_whitespace, lemma_object_bytes, lemma_skip_break, lemma_skip_passes_what_was_rendered,
    lemma_spelled_element, lemma_spelled_member, lemma_tail_by_elements, lemma_tail_starts_with_a_delimiter,
    lemma_text_is_utf8, lemma_value_starts, plain_content, spelled, spelled_members, writes_json,
};
use crate::text_laws::{
    lemma_content_end_shifts, lemma_end_is_past_unit, lemma_written_string_is_read_back, passed_over,
};
use crate::value::{lemma_member_order, member_order, number_bytes, utf8, Item, Member, Value};

verus! {

/// What a filter reads a value as: `None` where it declines.
pub open spec fn member_view(value: Value) -> Option<MemberView>
    decreases value,
{
    match value {
        Value::Null => Some(MemberView::Null),
        Value::Bool(value) => Some(MemberView::Bool(value)),
        Value::Number(number) => member_at(number_bytes(number), 0),
        Value::Text(text) => Some(MemberView::Text(text@)),
        Value::Projected(text) => Some(MemberView::Text(text@)),
        Value::Array(_) => Some(MemberView::Array),
        Value::Object(_) => Some(MemberView::Object),
        Value::Tagged(inner) => member_view(*inner),
    }
}

/// A string that stands in the bytes is read as the text it spells.
proof fn lemma_string_is_read(before: Seq<u8>, body: Seq<u8>, behind: Seq<u8>, text: Seq<char>)
    requires
        ({
            let whole = before + (seq![QUOTE] + body + seq![QUOTE]) + behind;
            let start = before.len() as int + 1;
            content_end(whole, start) == Some(start + body.len()) && unescaped(body) == Some(text)
        }),
    ensures
        member_at(before + (seq![QUOTE] + body + seq![QUOTE]) + behind, before.len() as int) == Some(
            MemberView::Text(text),
        ),
{
    let whole = before + (seq![QUOTE] + body + seq![QUOTE]) + behind;
    let start = before.len() as int + 1;
    assert(whole[before.len() as int] == QUOTE);
    assert(whole.subrange(start, start + body.len()) =~= body);
}

/// A string without escapes closes at its closing quote.
proof fn lemma_plain_string_closes(before: Seq<u8>, body: Seq<u8>, behind: Seq<u8>)
    requires
        plain_content(body),
    ensures
        content_end(before + (seq![QUOTE] + body + seq![QUOTE]) + behind, before.len() as int + 1) == Some(
            before.len() as int + 1 + body.len(),
        ),
{
    let whole = before + (seq![QUOTE] + body + seq![QUOTE]) + behind;
    let lead = before + seq![QUOTE];
    let close = seq![QUOTE] + behind;
    assert(whole =~= lead + (body + close));
    assert(close[0] == QUOTE);
    assert(passed_over(body));
    lemma_end_is_past_unit(body, close);
    lemma_content_end_shifts(lead, body + close, 0);
}

/// A bare word is read alike wherever it stands before a delimiter.
proof fn lemma_bare_word_is_read(before: Seq<u8>, word: Seq<u8>, behind: Seq<u8>)
    requires
        bare_word(word),
        behind.len() > 0 && StopSet::Delimiter.stops(behind[0]),
    ensures
        member_at(before + word + behind, before.len() as int) == member_at(word, 0),
{
    let whole = before + word + behind;
    let at = before.len() as int;
    let end = at + word.len();
    assert forall|i: int| 0 <= i < word.len() implies whole[at + i] == #[trigger] word[i] by {}
    assert(whole[at] == word[0]);
    assert(whole[end] == behind[0]);
    assert(null_at(whole, at) == null_at(word, 0)) by {
        if word.len() >= 4 {
            assert(whole[at + 1] == word[1] && whole[at + 2] == word[2] && whole[at + 3] == word[3]);
        } else if word.len() == 3 {
            assert(whole[at + 3] == behind[0]);
        } else if word.len() == 2 {
            assert(whole[at + 2] == behind[0]);
        } else {
            assert(whole[at + 1] == behind[0]);
        }
    }
    assert forall|i: int| at <= i < end implies !StopSet::Delimiter.stops(#[trigger] whole[i]) by {
        assert(whole[i] == word[i - at]);
    }
    lemma_run_end_is(whole, at, StopSet::Delimiter, end);
    lemma_run_end_is(word, 0, StopSet::Delimiter, word.len() as int);
    assert(whole.subrange(at, end) =~= word);
    assert(word.subrange(0, word.len() as int) =~= word);
}

/// A written text is read as the text.
proof fn lemma_text_is_read(before: Seq<u8>, text: String, ascii: bool, behind: Seq<u8>)
    ensures
        member_at(before + quoted(utf8(text), ascii) + behind, before.len() as int) == Some(MemberView::Text(text@)),
{
    lemma_text_is_utf8(text);
    lemma_written_string_is_read_back(before, utf8(text), ascii, behind);
    vstd::utf8::encode_utf8_decode_utf8(text@);
    lemma_string_is_read(before, text_body(utf8(text), ascii), behind, text@);
}

/// A projected text is read as the text.
proof fn lemma_projected_is_read(before: Seq<u8>, text: String, behind: Seq<u8>)
    requires
        plain_content(utf8(text)),
    ensures
        member_at(before + (seq![QUOTE] + utf8(text) + seq![QUOTE]) + behind, before.len() as int) == Some(
            MemberView::Text(text@),
        ),
{
    lemma_text_is_utf8(text);
    lemma_plain_string_closes(before, utf8(text), behind);
    lemma_plain_content_is_its_text(utf8(text));
    vstd::utf8::encode_utf8_decode_utf8(text@);
    lemma_string_is_read(before, utf8(text), behind, text@);
}

/// A container is read by its opening delimiter.
proof fn lemma_container_is_read(before: Seq<u8>, bytes: Seq<u8>, behind: Seq<u8>)
    requires
        bytes.len() > 0 && (bytes[0] == OPEN_BRACKET || bytes[0] == OPEN_BRACE),
    ensures
        member_at(before + bytes + behind, before.len() as int) == Some(
            if bytes[0] == OPEN_BRACKET {
                MemberView::Array
            } else {
                MemberView::Object
            },
        ),
{
    assert((before + bytes + behind)[before.len() as int] == bytes[0]);
}

/// The literals are read as what they are.
proof fn lemma_literals_are_read(value: bool)
    ensures
        bare_word(null_text()) && member_at(null_text(), 0) == Some(MemberView::Null),
        bare_word(bool_text(value)) && member_at(bool_text(value), 0) == Some(MemberView::Bool(value)),
{
}

/// A rendered value is read as what it is, wherever it stands before a delimiter.
pub proof fn lemma_rendered_member_is_read(
    before: Seq<u8>,
    value: Value,
    depth: nat,
    style: RenderStyle,
    behind: Seq<u8>,
)
    requires
        spelled(value),
        writes_json(depth, style),
        behind.len() > 0 && StopSet::Delimiter.stops(behind[0]),
    ensures
        member_at(before + render_value(value, depth, style).bytes + behind, before.len() as int) == member_view(value),
    decreases value,
{
    let bytes = render_value(value, depth, style).bytes;
    match value {
        Value::Null => {
            lemma_literals_are_read(true);
            lemma_bare_word_is_read(before, bytes, behind);
        },
        Value::Bool(held) => {
            lemma_literals_are_read(held);
            lemma_bare_word_is_read(before, bytes, behind);
        },
        Value::Number(_) => {
            lemma_bare_word_is_read(before, bytes, behind);
        },
        Value::Text(text) => {
            lemma_text_is_read(before, text, style.options.ascii_output, behind);
        },
        Value::Projected(text) => {
            lemma_projected_is_read(before, text, behind);
        },
        Value::Array(items) => {
            lemma_array_bytes(items, depth, style);
            lemma_container_is_read(before, bytes, behind);
        },
        Value::Object(members) => {
            lemma_object_bytes(members, depth, style);
            lemma_container_is_read(before, bytes, behind);
        },
        Value::Tagged(inner) => {
            lemma_rendered_member_is_read(before, *inner, depth, style, behind);
            assert(bytes =~= render_value(*inner, depth, style).bytes);
        },
    }
}

/// What stands behind an object's members before position `from` of their order: the rest of them, and the closing brace.
#[verifier::opaque]
pub open spec fn object_tail(
    members: Vec<Member>,
    order: Seq<usize>,
    from: int,
    depth: nat,
    style: RenderStyle,
) -> Seq<u8> {
    render_members(members, order, from, depth + 1, style).bytes + closing(depth, style) + seq![CLOSE_BRACE]
}

/// Whether an order lists members of the object.
pub open spec fn orders(order: Seq<usize>, members: Vec<Member>) -> bool {
    order.len() == members.len() && forall|i: int| 0 <= i < order.len() ==> #[trigger] order[i] < members.len()
}

/// One member's key and value, from the key's opening quote on.
#[verifier::opaque]
pub open spec fn pair(member: Member, depth: nat, style: RenderStyle) -> Seq<u8> {
    quoted(utf8(member.key), style.options.ascii_output) + style.options.indent.separator() + render_value(
        member.item.value,
        depth + 1,
        style,
    ).bytes
}

/// An object's tail from a member on: what stands before it, the member, and the tail behind.
proof fn lemma_tail_by_members(
    members: Vec<Member>,
    order: Seq<usize>,
    from: int,
    depth: nat,
    style: RenderStyle,
)
    requires
        orders(order, members),
        0 <= from < order.len(),
        !style.comments,
    ensures
        object_tail(members, order, from, depth, style) == (if from == 0 {
            seq![OPEN_BRACE]
        } else {
            seq![COMMA]
        }) + element_break(style.options.indent, depth + 1) + pair(members[order[from] as int], depth, style)
            + object_tail(members, order, from + 1, depth, style),
{
    reveal(object_tail);
    reveal(pair);
    let member = members[order[from] as int];
    let delimiter: Seq<u8> = if from == 0 {
        seq![OPEN_BRACE]
    } else {
        seq![COMMA]
    };
    let gap = element_break(style.options.indent, depth + 1);
    let key = quoted(utf8(member.key), style.options.ascii_output);
    let lead = style.member_lead(member, from == 0, depth + 1).bytes;
    let value = render_value(member.item.value, depth + 1, style).bytes;
    let rest = render_members(members, order, from + 1, depth + 1, style).bytes;
    assert(lead =~= delimiter + gap + key + style.options.indent.separator());
    assert(render_members(members, order, from, depth + 1, style).bytes =~= lead + value + rest);
    assert(object_tail(members, order, from, depth, style) =~= lead + value + (rest + closing(depth, style) + seq![
        CLOSE_BRACE,
    ]));
    assert(object_tail(members, order, from, depth, style) =~= delimiter + gap + pair(member, depth, style)
        + object_tail(members, order, from + 1, depth, style));
}

/// What stands behind a member starts with a delimiter, past whitespace the comma or the closing brace.
proof fn lemma_tail_behind_member(
    members: Vec<Member>,
    order: Seq<usize>,
    from: int,
    depth: nat,
    style: RenderStyle,
    before: Seq<u8>,
    behind: Seq<u8>,
)
    requires
        orders(order, members),
        0 < from <= order.len(),
        !style.comments && !style.trailing_commas,
    ensures
        ({
            let tail = object_tail(members, order, from, depth, style);
            let whole = before + tail + behind;
            let next = run_end(whole, before.len() as int, StopSet::Ws);
            &&& tail.len() > 0 && StopSet::Delimiter.stops(tail[0])
            &&& 0 <= next < whole.len()
            &&& from < order.len() ==> next == before.len() && whole[next] == COMMA
            &&& from == order.len() ==> next == whole.len() - behind.len() - 1 && whole[next] == CLOSE_BRACE
        }),
{
    let tail = object_tail(members, order, from, depth, style);
    let whole = before + tail + behind;
    let none: Seq<u8> = seq![];
    if from < order.len() {
        lemma_tail_by_members(members, order, from, depth, style);
        assert(tail[0] == COMMA);
        assert((tail + behind)[0] == COMMA);
        assert(whole =~= before + none + (tail + behind));
        lemma_skip_break(before, none, tail + behind);
    } else {
        reveal(object_tail);
        let gap = element_break(style.options.indent, depth);
        let close = seq![CLOSE_BRACE] + behind;
        lemma_break_is_whitespace(style.options.indent, depth);
        assert(tail =~= gap + seq![CLOSE_BRACE]);
        assert(whole =~= before + gap + close);
        assert(close[0] == CLOSE_BRACE);
        lemma_skip_break(before, gap, close);
        if gap.len() > 0 {
            assert(tail[0] == gap[0]);
        }
    }
}

/// What the last member named `key` among those from `from` on is read as, after an earlier match `seen`.
pub open spec fn last_view(
    members: Vec<Member>,
    order: Seq<usize>,
    from: int,
    key: Seq<char>,
    seen: Option<Option<MemberView>>,
) -> Option<Option<MemberView>>
    decreases order.len() - from,
{
    if from < 0 || from >= order.len() {
        seen
    } else {
        let member = members[order[from] as int];
        last_view(
            members,
            order,
            from + 1,
            key,
            if member.key@ == key {
                Some(member_view(member.item.value))
            } else {
                seen
            },
        )
    }
}

/// Whether a match is at a value that is read as `seen`.
pub open spec fn agrees(bytes: Seq<u8>, matched: Option<int>, seen: Option<Option<MemberView>>) -> bool {
    match (matched, seen) {
        (None, None) => true,
        (Some(at), Some(view)) => member_at(bytes, at) == view,
        _ => false,
    }
}

/// Past a key stand the colon and, past whitespace, the value.
proof fn lemma_past_the_key(lead: Seq<u8>, gap: Seq<u8>, onward: Seq<u8>)
    requires
        gap.len() > 0 && gap[0] == COLON,
        forall|i: int| 1 <= i < gap.len() ==> json_ws(#[trigger] gap[i]),
        onward.len() > 0 && !json_ws(onward[0]),
    ensures
        run_end(lead + gap + onward, lead.len() as int, StopSet::Ws) == lead.len(),
        (lead + gap + onward)[lead.len() as int] == COLON,
        run_end(lead + gap + onward, lead.len() as int + 1, StopSet::Ws) == lead.len() + gap.len(),
{
    let whole = lead + gap + onward;
    let none: Seq<u8> = seq![];
    let tail = gap + onward;
    assert(tail[0] == COLON);
    assert(whole =~= lead + none + tail);
    lemma_skip_break(lead, none, tail);
    let colon = lead + seq![COLON];
    let space = gap.skip(1);
    assert forall|i: int| 0 <= i < space.len() implies json_ws(#[trigger] space[i]) by {
        assert(space[i] == gap[i + 1]);
    }
    assert(whole =~= colon + space + onward);
    lemma_skip_break(colon, space, onward);
}

/// A written key is closed by its quote and read back.
proof fn lemma_key_is_walked(before: Seq<u8>, key: String, ascii: bool, tail: Seq<u8>)
    ensures
        ({
            let whole = before + quoted(utf8(key), ascii) + tail;
            let at = before.len() as int;
            let quote = at + 1 + text_body(utf8(key), ascii).len();
            &&& whole[at] == QUOTE
            &&& content_end(whole, at + 1) == Some(quote)
            &&& unescaped(whole.subrange(at + 1, quote)) == Some(key@)
        }),
{
    lemma_text_is_utf8(key);
    lemma_written_string_is_read_back(before, utf8(key), ascii, tail);
    vstd::utf8::encode_utf8_decode_utf8(key@);
    assert((before + quoted(utf8(key), ascii) + tail)[before.len() as int] == QUOTE);
}

/// The bytes around a member, grouped around its key, its separator or its value.
proof fn lemma_regroup(before: Seq<u8>, key: Seq<u8>, gap: Seq<u8>, value: Seq<u8>, rest: Seq<u8>)
    ensures
        before + (key + gap + value) + rest == before + key + (gap + (value + rest)),
        before + (key + gap + value) + rest == before + key + gap + (value + rest),
        before + (key + gap + value) + rest == (before + key + gap) + value + rest,
        value.len() > 0 ==> (value + rest)[0] == value[0],
{
    assert(before + (key + gap + value) + rest =~= before + key + (gap + (value + rest)));
    assert(before + (key + gap + value) + rest =~= before + key + gap + (value + rest));
    assert(before + (key + gap + value) + rest =~= (before + key + gap) + value + rest);
}

/// Where a member's value stands, behind its key.
spec fn value_place(at: int, member: Member, style: RenderStyle) -> int {
    at + quoted(utf8(member.key), style.options.ascii_output).len() + style.options.indent.separator().len()
}

/// One step of a member walk: the member's key is read, and its value stands behind it and is passed over.
proof fn lemma_pair_is_walked(before: Seq<u8>, member: Member, depth: nat, style: RenderStyle, rest: Seq<u8>)
    requires
        spelled(member.item.value),
        !style.comments,
        rest.len() > 0 && StopSet::Delimiter.stops(rest[0]),
    ensures
        ({
            let whole = before + pair(member, depth, style) + rest;
            let at = before.len() as int;
            let quote = at + 1 + text_body(utf8(member.key), style.options.ascii_output).len();
            let value = value_place(at, member, style);
            &&& whole[at] == QUOTE
            &&& content_end(whole, at + 1) == Some(quote)
            &&& unescaped(whole.subrange(at + 1, quote)) == Some(member.key@)
            &&& run_end(whole, quote + 1, StopSet::Ws) == quote + 1
            &&& whole[quote + 1] == COLON
            &&& run_end(whole, quote + 2, StopSet::Ws) == value
            &&& value < whole.len()
            &&& value_end(whole, value) == at + pair(member, depth, style).len()
            &&& member_at(whole, value) == member_view(member.item.value)
        }),
{
    let key = quoted(utf8(member.key), style.options.ascii_output);
    let gap = style.options.indent.separator();
    let value = render_value(member.item.value, depth + 1, style).bytes;
    reveal(pair);
    lemma_regroup(before, key, gap, value, rest);
    lemma_value_starts(member.item.value, depth + 1, style);
    lemma_key_is_walked(before, member.key, style.options.ascii_output, gap + (value + rest));
    lemma_past_the_key(before + key, gap, value + rest);
    lemma_skip_passes_what_was_rendered(before + key + gap, member.item.value, depth + 1, style, rest);
    lemma_rendered_member_is_read(before + key + gap, member.item.value, depth + 1, style, rest);
}

/// One step of a member walk, from what stands where.
proof fn lemma_walk_step(
    whole: Seq<u8>,
    at: int,
    key: Seq<char>,
    matched: Option<int>,
    name: Seq<char>,
    quote: int,
    value: int,
    next: int,
)
    requires
        0 <= at < whole.len() && whole[at] == QUOTE,
        content_end(whole, at + 1) == Some(quote),
        unescaped(whole.subrange(at + 1, quote)) == Some(name),
        run_end(whole, quote + 1, StopSet::Ws) == quote + 1,
        quote + 1 < whole.len() && whole[quote + 1] == COLON,
        run_end(whole, quote + 2, StopSet::Ws) == value,
        value < whole.len(),
        run_end(whole, value_end(whole, value), StopSet::Ws) == next,
        0 <= next < whole.len() && (whole[next] == COMMA || whole[next] == CLOSE_BRACE),
    ensures
        last_match(whole, at, key, matched) == ({
            let now = if name == key {
                Some(value)
            } else {
                matched
            };
            if whole[next] == CLOSE_BRACE {
                Some((now, next))
            } else {
                last_match(whole, run_end(whole, next + 1, StopSet::Ws), key, now)
            }
        }),
{
    crate::byte_scan::lemma_run_end(whole, next + 1, StopSet::Ws);
}

/// A member walk over a rendered object finds the last member of the name, and the closing brace.
#[verifier::spinoff_prover]
proof fn lemma_walk_finds_the_last(
    members: Vec<Member>,
    order: Seq<usize>,
    from: int,
    depth: nat,
    style: RenderStyle,
    before: Seq<u8>,
    behind: Seq<u8>,
    key: Seq<char>,
    matched: Option<int>,
    seen: Option<Option<MemberView>>,
)
    requires
        spelled_members(members, 0),
        orders(order, members),
        0 <= from < order.len(),
        !style.comments && !style.trailing_commas,
        agrees(
            before + pair(members[order[from] as int], depth, style) + object_tail(
                members,
                order,
                from + 1,
                depth,
                style,
            ) + behind,
            matched,
            seen,
        ),
    ensures
        ({
            let whole = before + pair(members[order[from] as int], depth, style) + object_tail(
                members,
                order,
                from + 1,
                depth,
                style,
            ) + behind;
            match last_match(whole, before.len() as int, key, matched) {
                Some((found, close)) => {
                    &&& close == whole.len() - behind.len() - 1
                    &&& agrees(whole, found, last_view(members, order, from, key, seen))
                },
                None => false,
            }
        }),
    decreases order.len() - from,
{
    let member = members[order[from] as int];
    let tail = object_tail(members, order, from + 1, depth, style);
    let own = pair(member, depth, style);
    let whole = before + own + tail + behind;
    let here = before + own;
    let at = before.len() as int;
    lemma_spelled_member(members, 0, order[from] as int);
    lemma_tail_behind_member(members, order, from + 1, depth, style, here, behind);
    lemma_join(before, own, tail, behind);
    lemma_pair_is_walked(before, member, depth, style, tail + behind);
    let quote = at + 1 + text_body(utf8(member.key), style.options.ascii_output).len();
    let value = value_place(at, member, style);
    let after = run_end(whole, here.len() as int, StopSet::Ws);
    lemma_walk_step(whole, at, key, matched, member.key@, quote, value, after);
    let now = if member.key@ == key {
        Some(value)
    } else {
        matched
    };
    let read = if member.key@ == key {
        Some(member_view(member.item.value))
    } else {
        seen
    };
    assert(agrees(whole, now, read));
    if from + 1 < order.len() {
        let gap = element_break(style.options.indent, depth + 1);
        let next = here + seq![COMMA] + gap;
        let following = pair(members[order[from + 1] as int], depth, style);
        let rest = object_tail(members, order, from + 2, depth, style);
        lemma_tail_by_members(members, order, from + 1, depth, style);
        lemma_pair_starts(members[order[from + 1] as int], depth, style);
        lemma_next_pair(here, gap, following, rest, behind);
        lemma_break_is_whitespace(style.options.indent, depth + 1);
        lemma_skip_break(here + seq![COMMA], gap, following + rest + behind);
        lemma_walk_finds_the_last(members, order, from + 1, depth, style, next, behind, key, now, read);
    } else {
        assert(last_view(members, order, from + 1, key, read) == read);
    }
}

/// Four runs of bytes, grouped by pairs.
proof fn lemma_join(a: Seq<u8>, b: Seq<u8>, c: Seq<u8>, d: Seq<u8>)
    ensures
        a + b + c + d == a + b + (c + d),
        c.len() > 0 ==> (c + d).len() > 0 && (c + d)[0] == c[0],
{
    assert(a + b + c + d =~= a + b + (c + d));
}

/// A member's bytes start with its key's quote.
proof fn lemma_pair_starts(member: Member, depth: nat, style: RenderStyle)
    ensures
        pair(member, depth, style).len() > 0,
        pair(member, depth, style)[0] == QUOTE,
{
    reveal(pair);
    let key = quoted(utf8(member.key), style.options.ascii_output);
    assert(key.len() > 0 && key[0] == QUOTE);
}

/// The bytes around a following member, grouped around it.
proof fn lemma_next_pair(here: Seq<u8>, gap: Seq<u8>, following: Seq<u8>, rest: Seq<u8>, behind: Seq<u8>)
    requires
        following.len() > 0 && following[0] == QUOTE,
    ensures
        here + (seq![COMMA] + gap + following + rest) + behind == (here + seq![COMMA] + gap) + following + rest + behind,
        here + (seq![COMMA] + gap + following + rest) + behind == (here + seq![COMMA]) + gap + (following + rest + behind),
        (following + rest + behind).len() > 0 && (following + rest + behind)[0] == QUOTE,
{
    let whole = here + (seq![COMMA] + gap + following + rest) + behind;
    assert(whole =~= (here + seq![COMMA] + gap) + following + rest + behind);
    assert(whole =~= (here + seq![COMMA]) + gap + (following + rest + behind));
    assert((following + rest + behind)[0] == following[0]);
}

/// What a filter reads a whole element as, its tags aside: an object's member, and null through null. Every other element
/// is declined; a computed number that is written `null` is null.
pub open spec fn element_view(value: Value, sort_keys: bool, key: Seq<char>) -> Option<MemberView> {
    match value {
        Value::Null => Some(MemberView::Null),
        Value::Object(members) => match last_view(members, member_order(members@, sort_keys), 0, key, None) {
            Some(view) => view,
            None => Some(MemberView::Null),
        },
        Value::Number(number) => if null_at(number_bytes(number), 0) {
            Some(MemberView::Null)
        } else {
            None
        },
        _ => None,
    }
}

/// A non-empty object is the tail from its first member on.
proof fn lemma_object_is_its_tail(members: Vec<Member>, depth: nat, style: RenderStyle)
    requires
        members.len() > 0,
    ensures
        orders(member_order(members@, style.options.sort_keys), members),
        render_value(Value::Object(members), depth, style).bytes == object_tail(
            members,
            member_order(members@, style.options.sort_keys),
            0,
            depth,
            style,
        ),
{
    let order = member_order(members@, style.options.sort_keys);
    reveal(object_tail);
    lemma_member_order(members@, style.options.sort_keys);
    lemma_object_bytes(members, depth, style);
    lemma_first_member_opens(members, order, depth + 1, style);
    let inner = render_members(members, order, 0, depth + 1, style).bytes;
    assert(seq![OPEN_BRACE] + (inner.skip(1) + closing(depth, style)) + seq![CLOSE_BRACE] =~= inner + closing(
        depth,
        style,
    ) + seq![CLOSE_BRACE]);
}

/// The bytes around an object's first member, grouped around it.
proof fn lemma_first_pair(before: Seq<u8>, gap: Seq<u8>, own: Seq<u8>, rest: Seq<u8>, behind: Seq<u8>)
    requires
        own.len() > 0 && own[0] == QUOTE,
    ensures
        ({
            let whole = before + (seq![OPEN_BRACE] + gap + own + rest) + behind;
            &&& whole == (before + seq![OPEN_BRACE]) + gap + (own + rest + behind)
            &&& whole == (before + seq![OPEN_BRACE] + gap) + own + rest + behind
            &&& whole[before.len() as int] == OPEN_BRACE
            &&& (own + rest + behind).len() > 0 && (own + rest + behind)[0] == QUOTE
        }),
{
    let whole = before + (seq![OPEN_BRACE] + gap + own + rest) + behind;
    assert(whole =~= (before + seq![OPEN_BRACE]) + gap + (own + rest + behind));
    assert(whole =~= (before + seq![OPEN_BRACE] + gap) + own + rest + behind);
    assert((own + rest + behind)[0] == own[0]);
}

/// An empty object has no member to read.
proof fn lemma_empty_object_reads_null(before: Seq<u8>, behind: Seq<u8>, key: Seq<char>)
    ensures
        element_member(before + seq![OPEN_BRACE, CLOSE_BRACE] + behind, before.len() as int, key) == Some(
            (MemberView::Null, before.len() + 2int),
        ),
{
    let whole = before + seq![OPEN_BRACE, CLOSE_BRACE] + behind;
    let none: Seq<u8> = seq![];
    let lead = before + seq![OPEN_BRACE];
    let close = seq![CLOSE_BRACE] + behind;
    assert(close[0] == CLOSE_BRACE);
    assert(whole =~= lead + none + close);
    lemma_skip_break(lead, none, close);
    assert(whole[before.len() as int] == OPEN_BRACE);
    assert(whole[lead.len() as int] == CLOSE_BRACE);
}

/// The member walk over a rendered object that has members.
proof fn lemma_object_is_walked(
    before: Seq<u8>,
    members: Vec<Member>,
    depth: nat,
    style: RenderStyle,
    behind: Seq<u8>,
    key: Seq<char>,
)
    requires
        spelled_members(members, 0),
        members.len() > 0,
        !style.comments && !style.trailing_commas,
    ensures
        ({
            let whole = before + render_value(Value::Object(members), depth, style).bytes + behind;
            let order = member_order(members@, style.options.sort_keys);
            &&& whole[before.len() as int] == OPEN_BRACE
            &&& match last_match(whole, run_end(whole, before.len() as int + 1, StopSet::Ws), key, None) {
                Some((found, close)) => {
                    &&& close == whole.len() - behind.len() - 1
                    &&& agrees(whole, found, last_view(members, order, 0, key, None))
                },
                None => false,
            }
        }),
{
    let order = member_order(members@, style.options.sort_keys);
    let gap = element_break(style.options.indent, depth + 1);
    let own = pair(members[order[0] as int], depth, style);
    let rest = object_tail(members, order, 1, depth, style);
    lemma_object_is_its_tail(members, depth, style);
    lemma_tail_by_members(members, order, 0, depth, style);
    lemma_pair_starts(members[order[0] as int], depth, style);
    lemma_first_pair(before, gap, own, rest, behind);
    lemma_break_is_whitespace(style.options.indent, depth + 1);
    lemma_skip_break(before + seq![OPEN_BRACE], gap, own + rest + behind);
    let start = before + seq![OPEN_BRACE] + gap;
    lemma_walk_finds_the_last(members, order, 0, depth, style, start, behind, key, None, None);
}

/// What an element's member is, from what a member walk finds.
proof fn lemma_member_of_walk(
    whole: Seq<u8>,
    at: int,
    key: Seq<char>,
    found: Option<int>,
    close: int,
    seen: Option<Option<MemberView>>,
)
    requires
        0 <= at < whole.len() && whole[at] == OPEN_BRACE,
        last_match(whole, run_end(whole, at + 1, StopSet::Ws), key, None) == Some((found, close)),
        agrees(whole, found, seen),
    ensures
        element_member(whole, at, key) == match seen {
            Some(Some(view)) => Some((view, close + 1)),
            Some(None) => None,
            None => Some((MemberView::Null, close + 1)),
        },
{
}

/// The member that a filter reads of a rendered object is the last one of its name, and null where there is none, whatever
/// else the object holds and however it is indented; the element ends where the object was ended.
#[verifier::spinoff_prover]
#[verifier::rlimit(40)]
pub proof fn lemma_filter_reads_the_last_member(
    before: Seq<u8>,
    members: Vec<Member>,
    depth: nat,
    style: RenderStyle,
    behind: Seq<u8>,
    key: Seq<char>,
)
    requires
        spelled(Value::Object(members)),
        !style.comments && !style.trailing_commas,
    ensures
        reads_as(
            before,
            render_value(Value::Object(members), depth, style).bytes,
            behind,
            key,
            element_view(Value::Object(members), style.options.sort_keys, key),
        ),
{
    let bytes = render_value(Value::Object(members), depth, style).bytes;
    let whole = before + bytes + behind;
    let order = member_order(members@, style.options.sort_keys);
    if members.len() == 0 {
        lemma_member_order(members@, style.options.sort_keys);
        lemma_empty_object_reads_null(before, behind, key);
        assert(bytes =~= seq![OPEN_BRACE, CLOSE_BRACE]);
    } else {
        lemma_object_is_walked(before, members, depth, style, behind, key);
        if let Some((found, close)) = last_match(
            whole,
            run_end(whole, before.len() as int + 1, StopSet::Ws),
            key,
            None,
        ) {
            lemma_member_of_walk(
                whole,
                before.len() as int,
                key,
                found,
                close,
                last_view(members, order, 0, key, None),
            );
        }
    }
}

/// Whether the element `bytes`, where it stands, is read as `view` and ends where it ends.
pub open spec fn reads_as(
    before: Seq<u8>,
    bytes: Seq<u8>,
    behind: Seq<u8>,
    key: Seq<char>,
    view: Option<MemberView>,
) -> bool {
    element_member(before + bytes + behind, before.len() as int, key) == match view {
        Some(view) => Some((view, before.len() as int + bytes.len())),
        None => None,
    }
}

/// An element that is no object and does not start as null does is declined.
proof fn lemma_other_is_declined(before: Seq<u8>, bytes: Seq<u8>, behind: Seq<u8>, key: Seq<char>)
    requires
        bytes.len() > 0 && bytes[0] != OPEN_BRACE && bytes[0] != LOWER_N,
    ensures
        reads_as(before, bytes, behind, key, None),
{
    assert((before + bytes + behind)[before.len() as int] == bytes[0]);
}

/// A bare word is null or declined.
proof fn lemma_word_is_null_or_declined(before: Seq<u8>, word: Seq<u8>, behind: Seq<u8>, key: Seq<char>)
    requires
        bare_word(word),
        behind.len() > 0 && StopSet::Delimiter.stops(behind[0]),
        value_end(before + word + behind, before.len() as int) == before.len() + word.len(),
    ensures
        reads_as(
            before,
            word,
            behind,
            key,
            if null_at(word, 0) {
                Some(MemberView::Null)
            } else {
                None
            },
        ),
{
    lemma_null_is_seen(before, word, behind);
    assert((before + word + behind)[before.len() as int] == word[0]);
    assert(crate::render_laws::flat(word[0]));
}

/// A rendered element is read as what it is, and ends where it was ended.
proof fn lemma_rendered_element_is_read(
    before: Seq<u8>,
    value: Value,
    depth: nat,
    style: RenderStyle,
    behind: Seq<u8>,
    key: Seq<char>,
)
    requires
        spelled(value),
        writes_json(depth, style),
        !style.trailing_commas,
        behind.len() > 0 && StopSet::Delimiter.stops(behind[0]),
    ensures
        reads_as(
            before,
            render_value(value, depth, style).bytes,
            behind,
            key,
            element_view(value.bare(), style.options.sort_keys, key),
        ),
    decreases value,
{
    let bytes = render_value(value, depth, style).bytes;
    match value {
        Value::Tagged(inner) => {
            lemma_rendered_element_is_read(before, *inner, depth, style, behind, key);
            assert(bytes =~= render_value(*inner, depth, style).bytes);
        },
        Value::Object(members) => {
            lemma_filter_reads_the_last_member(before, members, depth, style, behind, key);
        },
        Value::Array(items) => {
            lemma_array_bytes(items, depth, style);
            lemma_other_is_declined(before, bytes, behind, key);
        },
        Value::Null => {
            lemma_skip_passes_what_was_rendered(before, value, depth, style, behind);
            lemma_word_is_null_or_declined(before, bytes, behind, key);
        },
        Value::Number(_) => {
            lemma_skip_passes_what_was_rendered(before, value, depth, style, behind);
            lemma_word_is_null_or_declined(before, bytes, behind, key);
        },
        _ => {
            lemma_other_is_declined(before, bytes, behind, key);
        },
    }
}

/// Whether a bare word spells null shows wherever it stands before a delimiter.
proof fn lemma_null_is_seen(before: Seq<u8>, word: Seq<u8>, behind: Seq<u8>)
    requires
        bare_word(word),
        behind.len() > 0 && StopSet::Delimiter.stops(behind[0]),
    ensures
        null_at(before + word + behind, before.len() as int) == null_at(word, 0),
{
    let whole = before + word + behind;
    let at = before.len() as int;
    assert(whole[at] == word[0]);
    if word.len() >= 4 {
        assert(whole[at + 1] == word[1] && whole[at + 2] == word[2] && whole[at + 3] == word[3]);
    } else if word.len() == 3 {
        assert(whole[at + 3] == behind[0]);
    } else if word.len() == 2 {
        assert(whole[at + 2] == behind[0]);
    } else {
        assert(whole[at + 1] == behind[0]);
    }
}

/// What a filter reads the elements from `from` on as: nothing where it declines one.
pub open spec fn element_views(items: Vec<Item>, from: int, sort_keys: bool, key: Seq<char>) -> Option<Seq<MemberView>>
    decreases items.len() - from,
{
    if from < 0 || from >= items.len() {
        Some(seq![])
    } else {
        match (element_view(items[from].value.bare(), sort_keys, key), element_views(items, from + 1, sort_keys, key)) {
            (Some(view), Some(rest)) => Some(seq![view] + rest),
            _ => None,
        }
    }
}

/// The members read from a rendered element on are its own and those of the elements behind it.
#[verifier::spinoff_prover]
proof fn lemma_members_from_element(
    items: Vec<Item>,
    from: int,
    depth: nat,
    style: RenderStyle,
    before: Seq<u8>,
    key: Seq<char>,
)
    requires
        spelled(Value::Array(items)),
        0 <= from < items.len(),
        !style.comments && !style.trailing_commas,
        (before + render_value(items[from].value, depth + 1, style).bytes + array_tail(
            items,
            from + 1,
            depth,
            style,
        )).len() <= usize::MAX,
    ensures
        members_from(
            before + render_value(items[from].value, depth + 1, style).bytes + array_tail(items, from + 1, depth, style),
            before.len() as int,
            from,
            (0, None),
            key,
        ) == element_views(items, from, style.options.sort_keys, key),
    decreases items.len() - from,
{
    let value = render_value(items[from].value, depth + 1, style).bytes;
    let tail = array_tail(items, from + 1, depth, style);
    let here = before + value;
    lemma_spelled_element(items, 0, from);
    lemma_value_starts(items[from].value, depth + 1, style);
    lemma_tail_starts_with_a_delimiter(items, from + 1, depth, style);
    lemma_rendered_element_is_read(before, items[from].value, depth + 1, style, tail, key);
    lemma_after_rendered_element(items, from + 1, depth, style, here);
    if from + 1 < items.len() {
        let gap = element_break(style.options.indent, depth + 1);
        let next = here + seq![COMMA] + gap;
        lemma_tail_by_elements(items, from + 1, depth, style);
        assert(here + tail =~= next + render_value(items[from + 1].value, depth + 1, style).bytes + array_tail(
            items,
            from + 2,
            depth,
            style,
        ));
        lemma_members_from_element(items, from + 1, depth, style, next, key);
    } else if let Some(view) = element_view(items[from].value.bare(), style.options.sort_keys, key) {
        assert(element_views(items, from + 1, style.options.sort_keys, key) == Some(Seq::<MemberView>::empty()));
        assert(seq![view] + Seq::<MemberView>::empty() =~= seq![view]);
    }
}

/// A filtered count of a rendered array reads exactly the members its items have, in order, and declines exactly where one
/// of them is no object and no null: the predicate sees the values that were written.
pub proof fn lemma_filter_reads_what_was_rendered(items: Vec<Item>, depth: nat, style: RenderStyle, key: String)
    requires
        spelled(Value::Array(items)),
        !style.comments && !style.trailing_commas,
        render_value(Value::Array(items), depth, style).bytes.len() <= usize::MAX,
    ensures
        tested_members(
            render_value(Value::Array(items), depth, style).bytes,
            (0, None),
            seq![CountStep::ObjectKey(key)],
        ) == element_views(items, 0, style.options.sort_keys, key@),
{
    let whole = render_value(Value::Array(items), depth, style).bytes;
    let none: Seq<u8> = seq![];
    lemma_array_bytes(items, depth, style);
    if items.len() == 0 {
        assert(whole =~= seq![OPEN_BRACKET] + none + seq![CLOSE_BRACKET]);
        lemma_skip_break(seq![OPEN_BRACKET], none, seq![CLOSE_BRACKET]);
        assert(whole[1] == CLOSE_BRACKET);
    } else {
        let gap = element_break(style.options.indent, depth + 1);
        let value = render_value(items[0].value, depth + 1, style).bytes;
        let rest = array_tail(items, 1, depth, style);
        let before = seq![OPEN_BRACKET] + gap;
        assert(whole =~= seq![OPEN_BRACKET] + array_tail(items, 0, depth, style));
        lemma_tail_by_elements(items, 0, depth, style);
        lemma_spelled_element(items, 0, 0);
        lemma_value_starts(items[0].value, depth + 1, style);
        lemma_break_is_whitespace(style.options.indent, depth + 1);
        assert(whole =~= seq![OPEN_BRACKET] + gap + (value + rest));
        assert((value + rest)[0] == value[0]);
        lemma_skip_break(seq![OPEN_BRACKET], gap, value + rest);
        assert(whole =~= before + value + rest);
        assert(whole[before.len() as int] == value[0]);
        lemma_members_from_element(items, 0, depth, style, before, key@);
    }
}

} // verus!
