//! What an edit keeps: a grown container is still one container, and nothing around it moved but by the members' own bytes.

use vstd::prelude::*;

use crate::ascii::{BACKSLASH, COLON, COMMA, QUOTE, SPACE};

use crate::byte_scan::json_ws;
use crate::edit::{
    blank_end, close_from, closer, growth_plan, is_blank, is_line_break, joint, lemma_close_from,
    lemma_growth_stays_inside, lemma_string_close, member_indent, opener, region_end, separator_text, string_close,
    through_last_break, EditAppendMembers,
};
use crate::edit_support::{back_over_ws, back_to_line, lemma_back_over_ws, lemma_back_to_line};
use crate::encode_text::quoted;
use crate::render::{compact_style, render_value};
use crate::render_laws::{
    balanced, flat, lemma_balanced_concat, lemma_close_from_shifts, lemma_flat_is_balanced, lemma_quoted_is_balanced,
    lemma_text_is_utf8, lemma_value_is_balanced, spelled,
};
use crate::value::utf8;

verus! {

/// How many containers are open where the region scan that stands at `at`, inside `depth` of them, comes to `to`; `None`
/// where it passes over `to` inside a string, or does not come that far.
pub open spec fn depth_at(source: Seq<u8>, at: int, depth: nat, to: int) -> Option<nat>
    decreases source.len() - at,
{
    if at == to {
        Some(depth)
    } else if at < 0 || at >= source.len() || at > to {
        None
    } else if source[at] == QUOTE {
        match string_close(source, at + 1, QUOTE) {
            Some(end) => if at < end <= source.len() {
                depth_at(source, end, depth, to)
            } else {
                None
            },
            None => None,
        }
    } else if opener(source[at]) {
        depth_at(source, at + 1, depth + 1, to)
    } else if closer(source[at]) {
        if depth <= 1 {
            None
        } else {
            depth_at(source, at + 1, (depth - 1) as nat, to)
        }
    } else {
        depth_at(source, at + 1, depth, to)
    }
}

/// A region scan goes on from where it stands.
proof fn lemma_scan_goes_on(source: Seq<u8>, at: int, depth: nat, to: int)
    requires
        0 <= at,
    ensures
        depth_at(source, at, depth, to) matches Some(there) ==> close_from(source, at, depth) == close_from(
            source,
            to,
            there,
        ),
    decreases source.len() - at,
{
    if at != to && at < source.len() && at < to {
        if source[at] == QUOTE {
            lemma_string_close(source, at + 1, QUOTE);
            if let Some(end) = string_close(source, at + 1, QUOTE) {
                lemma_scan_goes_on(source, end, depth, to);
            }
        } else if opener(source[at]) {
            lemma_scan_goes_on(source, at + 1, depth + 1, to);
        } else if closer(source[at]) {
            if depth > 1 {
                lemma_scan_goes_on(source, at + 1, (depth - 1) as nat, to);
            }
        } else {
            lemma_scan_goes_on(source, at + 1, depth, to);
        }
    }
}

/// A string that closes at or before `to` closes there whatever stands from `to` on.
proof fn lemma_string_close_by_prefix(left: Seq<u8>, right: Seq<u8>, at: int, to: int)
    requires
        0 <= at,
        0 <= to <= left.len() && to <= right.len(),
        forall|i: int| 0 <= i < to ==> #[trigger] left[i] == right[i],
        string_close(left, at, QUOTE) matches Some(end) && end <= to,
    ensures
        string_close(right, at, QUOTE) == string_close(left, at, QUOTE),
    decreases left.len() - at,
{
    lemma_string_close(left, at, QUOTE);
    assert(left[at] == right[at]);
    if left[at] == BACKSLASH {
        lemma_string_close_by_prefix(left, right, at + 2, to);
        lemma_string_close(left, at + 2, QUOTE);
    } else if left[at] != QUOTE {
        lemma_string_close_by_prefix(left, right, at + 1, to);
    }
}

/// Where a region scan stands does not depend on what comes behind.
proof fn lemma_depth_by_prefix(left: Seq<u8>, right: Seq<u8>, at: int, depth: nat, to: int)
    requires
        0 <= at,
        0 <= to <= left.len() && to <= right.len(),
        forall|i: int| 0 <= i < to ==> #[trigger] left[i] == right[i],
        depth_at(left, at, depth, to) is Some,
    ensures
        depth_at(right, at, depth, to) == depth_at(left, at, depth, to),
    decreases left.len() - at,
{
    if at != to {
        assert(left[at] == right[at]);
        if left[at] == QUOTE {
            lemma_string_close(left, at + 1, QUOTE);
            let end = string_close(left, at + 1, QUOTE)->0;
            lemma_depth_is_ahead(left, end, depth, to);
            lemma_string_close_by_prefix(left, right, at + 1, to);
            lemma_depth_by_prefix(left, right, end, depth, to);
        } else if opener(left[at]) {
            lemma_depth_by_prefix(left, right, at + 1, depth + 1, to);
        } else if closer(left[at]) {
            lemma_depth_by_prefix(left, right, at + 1, (depth - 1) as nat, to);
        } else {
            lemma_depth_by_prefix(left, right, at + 1, depth, to);
        }
    }
}

/// A region scan closes where it does whatever comes behind.
proof fn lemma_close_by_prefix(left: Seq<u8>, right: Seq<u8>, at: int, depth: nat)
    requires
        0 <= at,
        close_from(left, at, depth) matches Some(close) && close <= right.len() && forall|i: int|
            0 <= i < close ==> #[trigger] left[i] == right[i],
    ensures
        close_from(right, at, depth) == close_from(left, at, depth),
    decreases left.len() - at,
{
    let close = close_from(left, at, depth)->0;
    lemma_close_from(left, at, depth);
    assert(left[at] == right[at]);
    if left[at] == QUOTE {
        lemma_string_close(left, at + 1, QUOTE);
        let end = string_close(left, at + 1, QUOTE)->0;
        lemma_close_from(left, end, depth);
        lemma_string_close_by_prefix(left, right, at + 1, close);
        lemma_close_by_prefix(left, right, end, depth);
    } else if opener(left[at]) {
        lemma_close_by_prefix(left, right, at + 1, depth + 1);
    } else if closer(left[at]) {
        if depth > 1 {
            lemma_close_by_prefix(left, right, at + 1, (depth - 1) as nat);
        }
    } else {
        lemma_close_by_prefix(left, right, at + 1, depth);
    }
}

/// Where a container closes does not depend on what follows it: a source with the same bytes up to there closes it there
/// too.
pub proof fn lemma_close_ignores_what_follows(source: Seq<u8>, other: Seq<u8>, open: int)
    requires
        region_end(source, open) matches Some(close) && close <= other.len() && forall|i: int|
            0 <= i < close ==> #[trigger] source[i] == other[i],
    ensures
        region_end(other, open) == region_end(source, open),
{
    lemma_close_from(source, open, 0);
    assert(source[open] == other[open]);
    lemma_close_by_prefix(source, other, open, 0);
}

/// No shorter prefix of a source closes its container.
pub proof fn lemma_no_shorter_prefix_closes(source: Seq<u8>, open: int, end: int)
    requires
        region_end(source, open) matches Some(close) && 0 <= end < close,
    ensures
        region_end(source.take(end), open) is None,
{
    lemma_close_from(source, open, 0);
    let prefix = source.take(end);
    if let Some(close) = region_end(prefix, open) {
        lemma_close_from(prefix, open, 0);
        lemma_close_by_prefix(prefix, source, open, 0);
    }
}

/// A scan only moves forward.
proof fn lemma_depth_is_ahead(source: Seq<u8>, at: int, depth: nat, to: int)
    ensures
        depth_at(source, at, depth, to) is Some ==> at <= to,
{
}

/// The scan of a region stands outside any string, inside one open container, wherever only whitespace is left before the
/// closing delimiter.
proof fn lemma_scan_stands_before_the_close(source: Seq<u8>, at: int, depth: nat, close: int, to: int)
    requires
        0 <= at <= to < close,
        close_from(source, at, depth) == Some(close),
        forall|i: int| to <= i < close - 1 ==> json_ws(#[trigger] source[i]),
    ensures
        depth_at(source, at, depth, to) == Some(1nat),
    decreases source.len() - at,
{
    lemma_close_from(source, at, depth);
    if at == to {
        lemma_depth_before_the_close(source, at, depth, close);
    } else if source[at] == QUOTE {
        lemma_string_close(source, at + 1, QUOTE);
        let end = string_close(source, at + 1, QUOTE)->0;
        lemma_close_from(source, end, depth);
        if end > to {
            assert(json_ws(source[end - 1]));
        }
        lemma_scan_stands_before_the_close(source, end, depth, close, to);
    } else if opener(source[at]) {
        lemma_scan_stands_before_the_close(source, at + 1, depth + 1, close, to);
    } else if closer(source[at]) {
        lemma_scan_stands_before_the_close(source, at + 1, (depth - 1) as nat, close, to);
    } else {
        lemma_scan_stands_before_the_close(source, at + 1, depth, close, to);
    }
}

/// Whitespace before a region's close is inside exactly one open container.
proof fn lemma_depth_before_the_close(source: Seq<u8>, at: int, depth: nat, close: int)
    requires
        0 <= at < close,
        close_from(source, at, depth) == Some(close),
        forall|i: int| at <= i < close - 1 ==> json_ws(#[trigger] source[i]),
    ensures
        depth == 1,
    decreases close - at,
{
    lemma_close_from(source, at, depth);
    if at < close - 1 {
        assert(json_ws(source[at]));
        lemma_depth_before_the_close(source, at + 1, depth, close);
    } else if depth > 1 {
        lemma_close_from(source, at + 1, (depth - 1) as nat);
    }
}

/// A balanced insertion into a region, where the scan stands inside one container, moves the region's close by its length.
proof fn lemma_insertion_moves_the_close(source: Seq<u8>, open: int, at: int, text: Seq<u8>)
    requires
        region_end(source, open) is Some,
        open < at <= source.len(),
        depth_at(source, open, 0, at) == Some(1nat),
        balanced(text),
    ensures
        region_end(source.take(at) + text + source.skip(at), open) == Some(
            region_end(source, open)->0 + text.len() as int,
        ),
{
    let head = source.take(at);
    let tail = source.skip(at);
    let grown = head + text + tail;
    let close = region_end(source, open)->0;
    lemma_scan_goes_on(source, open, 0, at);
    assert forall|i: int| 0 <= i < at implies #[trigger] source[i] == grown[i] by {}
    lemma_depth_by_prefix(source, grown, open, 0, at);
    lemma_scan_goes_on(grown, open, 0, at);
    assert(source =~= head + tail);
    lemma_close_from_shifts(head, tail, 0, 1);
    assert(grown =~= head + (text + tail));
    lemma_close_from_shifts(head, text + tail, 0, 1);
    assert(close_from(text + tail, 0, 1) == match close_from(tail, 0, 1) {
        Some(end) => Some(text.len() + end),
        None => None,
    });
    lemma_close_from(tail, 0, 1);
    lemma_close_from(source, open, 0);
    assert(grown[open] == source[open]);
    assert(grown[close + text.len() - 1] == source[close - 1]);
}

/// Whether every value that an edit adds is made of spellings that JSON has.
pub open spec fn members_spelled(members: EditAppendMembers) -> bool {
    match members {
        EditAppendMembers::Table(members) => forall|i: int|
            0 <= i < members@.len() ==> spelled(#[trigger] members@[i].item.value),
        EditAppendMembers::Array(items) => forall|i: int| 0 <= i < items@.len() ==> spelled(#[trigger] items@[i].value),
    }
}

/// What one added member is written as is balanced.
proof fn lemma_piece_is_balanced(members: EditAppendMembers, index: int, wrapped: bool, max_nesting_depth: usize)
    requires
        members_spelled(members),
        0 <= index < members.count(),
    ensures
        balanced(members.piece(index, wrapped, max_nesting_depth).bytes),
{
    let style = compact_style(max_nesting_depth);
    match members {
        EditAppendMembers::Table(table) => {
            let member = table@[index];
            assert(spelled(table@[index].item.value));
            let key = quoted(utf8(member.key), false);
            let separator: Seq<u8> = if wrapped {
                seq![COLON, SPACE]
            } else {
                seq![COLON]
            };
            let value = render_value(member.item.value, 0, style).bytes;
            lemma_text_is_utf8(member.key);
            lemma_quoted_is_balanced(utf8(member.key), false);
            lemma_flat_is_balanced(separator);
            lemma_value_is_balanced(member.item.value, 0, style);
            lemma_balanced_concat(key, separator);
            lemma_balanced_concat(key + separator, value);
            assert(members.piece(index, wrapped, max_nesting_depth).bytes =~= key + separator + value);
        },
        EditAppendMembers::Array(items) => {
            assert(spelled(items@[index].value));
            lemma_value_is_balanced(items@[index].value, 0, style);
        },
    }
}

/// What the added members are written as is balanced.
proof fn lemma_added_text_is_balanced(
    members: EditAppendMembers,
    upto: int,
    separator: Seq<u8>,
    empty: bool,
    wrapped: bool,
    max_nesting_depth: usize,
)
    requires
        members_spelled(members),
        0 <= upto <= members.count(),
        balanced(separator),
    ensures
        balanced(members.text(upto, separator, empty, wrapped, max_nesting_depth).bytes),
    decreases upto,
{
    let none: Seq<u8> = seq![];
    lemma_flat_is_balanced(none);
    if upto > 0 {
        let before = members.text(upto - 1, separator, empty, wrapped, max_nesting_depth).bytes;
        let lead = joint(upto - 1, separator, empty);
        lemma_flat_is_balanced(seq![COMMA]);
        let piece = members.piece(upto - 1, wrapped, max_nesting_depth).bytes;
        lemma_added_text_is_balanced(members, upto - 1, separator, empty, wrapped, max_nesting_depth);
        lemma_piece_is_balanced(members, upto - 1, wrapped, max_nesting_depth);
        lemma_balanced_concat(before, lead);
        lemma_balanced_concat(before + lead, piece);
        assert(members.text(upto, separator, empty, wrapped, max_nesting_depth).bytes =~= before + lead + piece);
    } else {
        assert(members.text(upto, separator, empty, wrapped, max_nesting_depth).bytes =~= none);
    }
}

/// A run up to its final line break is a part of the run.
pub proof fn lemma_through_last_break(run: Seq<u8>)
    ensures
        through_last_break(run).len() <= run.len(),
        forall|i: int| 0 <= i < through_last_break(run).len() ==> #[trigger] through_last_break(run)[i] == run[i],
    decreases run.len(),
{
    if run.len() > 0 && !is_line_break(run.last()) {
        lemma_through_last_break(run.drop_last());
    }
}

/// An indentation is spaces and tabs.
pub proof fn lemma_blank_end(source: Seq<u8>, from: int)
    requires
        0 <= from <= source.len(),
    ensures
        from <= blank_end(source, from) <= source.len(),
        forall|i: int| from <= i < blank_end(source, from) ==> is_blank(#[trigger] source[i]),
    decreases source.len() - from,
{
    if from < source.len() && is_blank(source[from]) {
        lemma_blank_end(source, from + 1);
    }
}

/// A separator in the container's observed style is a comma, and whitespace behind it.
pub proof fn lemma_separator_is_whitespace(source: Seq<u8>, open: int, value_end: int, close: int, wrapped: bool)
    requires
        0 <= open < value_end <= close - 1 < source.len(),
        forall|i: int| value_end <= i < close - 1 ==> json_ws(#[trigger] source[i]),
    ensures
        ({
            let text = separator_text(source, open, value_end, close, false, wrapped);
            &&& text.len() > 0 && text[0] == COMMA
            &&& forall|i: int| 1 <= i < text.len() ==> json_ws(#[trigger] text[i])
        }),
{
    let text = separator_text(source, open, value_end, close, false, wrapped);
    let run = source.subrange(value_end, close - 1);
    let line = back_to_line(source, value_end - 1, open);
    lemma_through_last_break(run);
    lemma_back_to_line(source, value_end - 1, open);
    lemma_blank_end(source, line);
    let lead = through_last_break(run);
    let indent = member_indent(source, open, value_end);
    assert(indent == source.subrange(line, blank_end(source, line)));
    assert forall|i: int| 1 <= i < text.len() implies json_ws(#[trigger] text[i]) by {
        if i - 1 < lead.len() {
            assert(text[i] == lead[i - 1]);
            assert(lead[i - 1] == run[i - 1]);
            assert(json_ws(source[value_end + (i - 1)]));
        } else {
            let k = i - 1 - lead.len();
            assert(text[i] == indent[k]);
            assert(indent[k] == source[line + k]);
            assert(is_blank(source[line + k]));
        }
    }
}

/// A separator in the container's observed style is flat.
proof fn lemma_separator_is_balanced(source: Seq<u8>, open: int, value_end: int, close: int, empty: bool, wrapped: bool)
    requires
        0 <= open < value_end <= close - 1 < source.len(),
        forall|i: int| value_end <= i < close - 1 ==> json_ws(#[trigger] source[i]),
    ensures
        balanced(separator_text(source, open, value_end, close, empty, wrapped)),
{
    let text = separator_text(source, open, value_end, close, empty, wrapped);
    lemma_separator_is_whitespace(source, open, value_end, close, wrapped);
    assert forall|i: int| 0 <= i < text.len() implies flat(#[trigger] text[i]) by {
        if i > 0 {
            assert(json_ws(text[i]));
        }
    }
    lemma_flat_is_balanced(text);
}

/// A grown container is still one container: in the source with the new members spliced in, the region that opens at the
/// container's delimiter ends where it did, moved by the members' own bytes. Everything before the splice and behind it
/// keeps its bytes.
pub proof fn lemma_grown_container_is_one_container(
    source: Seq<u8>,
    open: int,
    members: EditAppendMembers,
    max_nesting_depth: usize,
)
    requires
        growth_plan(source, open) is Some,
        members_spelled(members),
    ensures
        ({
            let plan = growth_plan(source, open)->0;
            let text = members.text(
                members.count() as int,
                plan.separator,
                plan.empty,
                plan.wrapped,
                max_nesting_depth,
            ).bytes;
            region_end(source.take(plan.at) + text + source.skip(plan.at), open) == Some(
                region_end(source, open)->0 + text.len() as int,
            )
        }),
{
    let plan = growth_plan(source, open)->0;
    let close = region_end(source, open)->0;
    let value_end = back_over_ws(source, close - 1, open);
    lemma_growth_stays_inside(source, open);
    lemma_close_from(source, open, 0);
    lemma_back_over_ws(source, close - 1, open);
    assert(close_from(source, open, 0) == close_from(source, open + 1, 1));
    if plan.empty {
        assert(depth_at(source, open + 1, 1, open + 1) == Some(1nat));
    } else {
        lemma_scan_stands_before_the_close(source, open, 0, close, plan.at);
    }
    lemma_separator_is_balanced(source, open, value_end, close, plan.empty, plan.wrapped);
    lemma_added_text_is_balanced(
        members,
        members.count() as int,
        plan.separator,
        plan.empty,
        plan.wrapped,
        max_nesting_depth,
    );
    let text = members.text(
        members.count() as int,
        plan.separator,
        plan.empty,
        plan.wrapped,
        max_nesting_depth,
    ).bytes;
    lemma_insertion_moves_the_close(source, open, plan.at, text);
}

} // verus!
