//! What a shrunk container holds: its members without the one that was removed.

use vstd::prelude::*;

use crate::ascii::{BACKSLASH, CLOSE_BRACE, CLOSE_BRACKET, COMMA, LOWER_U, OPEN_BRACE, QUOTE};

use crate::byte_scan::{json_ws, lemma_run_end, lemma_run_end_is, run_end, StopSet};
use crate::edit::{closer, cut_range, key_start_is, lemma_cut_stays_inside, member_start_is, opener};
use crate::edit_support::{backslashes_before, key_end, structural_quote};
use crate::growth_laws::{container_items, items_read, lemma_place_is_read, read_place};
use crate::jsonc::encode::ends_word;
use crate::lazy::{content_end, lemma_content_end, value_end};
use crate::render_laws::{lemma_run_end_shifts, lemma_value_end_shifts};
use crate::shape::{
    items_shape, lemma_back_to, lemma_item_by_prefix, lemma_items_end_values, lemma_scans_pass_items,
    lemma_skip_passes_a_value, lemma_string_shape, shape_end, string_shape, value_place,
};
use crate::text_laws::lemma_content_end_shifts;

verus! {

/// Where item `index` of a container starts, where its value starts, and where it ends, counted from the item at `at`.
pub open spec fn item_span(bytes: Seq<u8>, at: int, keyed: bool, index: nat) -> Option<(int, int, int)>
    decreases index,
{
    match value_place(bytes, at, keyed) {
        Some(value) => match shape_end(bytes, value) {
            Some(end) => {
                let next = run_end(bytes, end, StopSet::Ws);
                if index == 0 {
                    Some((at, value, end))
                } else if 0 <= next < bytes.len() && bytes[next] == COMMA {
                    item_span(bytes, run_end(bytes, next + 1, StopSet::Ws), keyed, (index - 1) as nat)
                } else {
                    None
                }
            },
            None => None,
        },
        None => None,
    }
}

/// Where the value of an item starts does not depend on what stands before the item.
proof fn lemma_read_place_shifts(before: Seq<u8>, bytes: Seq<u8>, at: int, keyed: bool)
    requires
        0 <= at,
    ensures
        read_place(before + bytes, before.len() + at, keyed) == match read_place(bytes, at, keyed) {
            Some(value) => Some(before.len() + value),
            None => None,
        },
{
    let whole = before + bytes;
    if keyed && at < bytes.len() {
        assert(whole[before.len() + at] == bytes[at]);
        lemma_content_end_shifts(before, bytes, at + 1);
        lemma_content_end(bytes, at + 1);
        if let Some(quote) = content_end(bytes, at + 1) {
            lemma_run_end_shifts(before, bytes, quote + 1, StopSet::Ws);
            let colon = run_end(bytes, quote + 1, StopSet::Ws);
            lemma_run_end(bytes, quote + 1, StopSet::Ws);
            if colon < bytes.len() {
                assert(whole[before.len() + colon] == bytes[colon]);
                lemma_run_end_shifts(before, bytes, colon + 1, StopSet::Ws);
            }
        }
    }
}

/// A value's end does not depend on what stands before it.
proof fn lemma_value_end_moves(before: Seq<u8>, bytes: Seq<u8>, at: int)
    requires
        0 <= at <= bytes.len(),
    ensures
        value_end(before + bytes, before.len() + at) == before.len() + value_end(bytes, at),
{
    let head = bytes.take(at);
    let tail = bytes.skip(at);
    assert(bytes =~= head + tail);
    assert(before + bytes =~= (before + head) + tail);
    lemma_value_end_shifts(head, tail);
    lemma_value_end_shifts(before + head, tail);
}

/// What is read of a container's items does not depend on what stands before them.
proof fn lemma_items_read_shifts(before: Seq<u8>, bytes: Seq<u8>, at: int, keyed: bool)
    requires
        0 <= at,
        items_read(bytes, at, keyed) is Some,
    ensures
        items_read(before + bytes, before.len() + at, keyed) == items_read(bytes, at, keyed),
    decreases bytes.len() - at,
{
    let whole = before + bytes;
    let shift = before.len() as int;
    lemma_read_place_shifts(before, bytes, at, keyed);
    let value = read_place(bytes, at, keyed)->0;
    lemma_value_end_moves(before, bytes, value);
    let end = value_end(bytes, value);
    let next = run_end(bytes, end, StopSet::Ws);
    lemma_run_end_shifts(before, bytes, end, StopSet::Ws);
    assert(whole[shift + next] == bytes[next]);
    assert(whole.subrange(shift + at, shift + end) =~= bytes.subrange(at, end));
    lemma_run_end_shifts(before, bytes, next + 1, StopSet::Ws);
    if bytes[next] == COMMA {
        lemma_items_read_shifts(before, bytes, run_end(bytes, next + 1, StopSet::Ws), keyed);
    }
}

/// Items of JSON's shape are read.
proof fn lemma_strict_items_are_read(source: Seq<u8>, at: int, keyed: bool)
    requires
        items_shape(source, at, keyed) is Some,
    ensures
        items_read(source, at, keyed) is Some,
    decreases source.len() - at,
{
    lemma_items_end_values(source, at, keyed);
    lemma_place_is_read(source, at, keyed);
    let end = shape_end(source, value_place(source, at, keyed)->0)->0;
    let next = run_end(source, end, StopSet::Ws);
    if source[next] == COMMA {
        lemma_strict_items_are_read(source, run_end(source, next + 1, StopSet::Ws), keyed);
    }
}

/// What stands from `from` on is read the same when the bytes before it are replaced.
proof fn lemma_items_read_behind(source: Seq<u8>, head: Seq<u8>, from: int, at: int, keyed: bool)
    requires
        0 <= from <= at <= source.len(),
        items_read(source, at, keyed) is Some,
    ensures
        items_read(head + source.skip(from), head.len() + (at - from), keyed) == items_read(source, at, keyed),
{
    let tail = source.skip(from);
    let before = source.take(from);
    assert(source =~= before + tail);
    lemma_items_read_back(before, tail, at - from, keyed);
    lemma_items_read_shifts(head, tail, at - from, keyed);
}

/// What is read behind some bytes is read without them.
proof fn lemma_items_read_back(before: Seq<u8>, bytes: Seq<u8>, at: int, keyed: bool)
    requires
        0 <= at <= bytes.len(),
        items_read(before + bytes, before.len() + at, keyed) is Some,
    ensures
        items_read(bytes, at, keyed) == items_read(before + bytes, before.len() + at, keyed),
    decreases bytes.len() - at,
{
    let whole = before + bytes;
    let shift = before.len() as int;
    lemma_read_place_shifts(before, bytes, at, keyed);
    let value = read_place(bytes, at, keyed)->0;
    lemma_value_end_moves(before, bytes, value);
    let end = value_end(bytes, value);
    lemma_run_end_shifts(before, bytes, end, StopSet::Ws);
    let next = run_end(bytes, end, StopSet::Ws);
    assert(whole[shift + next] == bytes[next]);
    assert(whole.subrange(shift + at, shift + end) =~= bytes.subrange(at, end));
    lemma_run_end_shifts(before, bytes, next + 1, StopSet::Ws);
    if bytes[next] == COMMA {
        lemma_items_read_back(before, bytes, run_end(bytes, next + 1, StopSet::Ws), keyed);
    }
}

/// No quote inside a string is structural: an odd run of backslashes stands before each.
proof fn lemma_quotes_inside_are_escaped(bytes: Seq<u8>, at: int, quote: int)
    requires
        0 <= at,
        string_shape(bytes, at) is Some,
        backslashes_before(bytes, at) % 2 == 0,
        at <= quote < string_shape(bytes, at)->0 - 1,
    ensures
        !structural_quote(bytes, quote, QUOTE),
    decreases bytes.len() - at,
{
    lemma_string_shape(bytes, at);
    if bytes[at] == BACKSLASH {
        assert(backslashes_before(bytes, at + 1) == backslashes_before(bytes, at) + 1);
        if bytes[at + 1] == LOWER_U {
            lemma_string_shape(bytes, at + 6);
            assert(bytes[at + 5] != BACKSLASH);
            assert(backslashes_before(bytes, at + 6) == 0);
            assert(bytes[at + 2] != QUOTE && bytes[at + 3] != QUOTE && bytes[at + 4] != QUOTE && bytes[at + 5] != QUOTE);
            if quote >= at + 6 {
                lemma_quotes_inside_are_escaped(bytes, at + 6, quote);
            }
        } else {
            lemma_string_shape(bytes, at + 2);
            if bytes[at + 1] == BACKSLASH {
                assert(backslashes_before(bytes, at + 2) == backslashes_before(bytes, at) + 2);
            } else {
                assert(backslashes_before(bytes, at + 2) == 0);
            }
            if quote >= at + 2 {
                lemma_quotes_inside_are_escaped(bytes, at + 2, quote);
            }
        }
    } else {
        lemma_string_shape(bytes, at + 1);
        assert(backslashes_before(bytes, at + 1) == 0);
        if quote > at {
            lemma_quotes_inside_are_escaped(bytes, at + 1, quote);
        }
    }
}

/// The walk back from a member's value finds its key.
proof fn lemma_key_is_found(source: Seq<u8>, open: int, at: int, value: int)
    requires
        0 <= open < at,
        value_place(source, at, true) == Some(value),
        value <= source.len(),
        source[at - 1] != BACKSLASH,
    ensures
        key_start_is(source, open, value, at),
{
    lemma_string_shape(source, at + 1);
    let name = string_shape(source, at + 1)->0;
    let colon = run_end(source, name, StopSet::Ws);
    lemma_run_end(source, name, StopSet::Ws);
    lemma_run_end(source, colon + 1, StopSet::Ws);
    assert forall|i: int| colon + 1 <= i < value implies json_ws(#[trigger] source[i]) by {
        assert(!StopSet::Ws.stops(source[i]));
    }
    lemma_back_to(source, value, open, colon + 1);
    assert forall|i: int| name <= i < colon implies json_ws(#[trigger] source[i]) by {
        assert(!StopSet::Ws.stops(source[i]));
    }
    lemma_back_to(source, colon, open, name);
    assert(key_end(source, value, open) == Some(name));
    assert(backslashes_before(source, at) == 0);
    assert(backslashes_before(source, at + 1) == 0);
    assert(structural_quote(source, at, QUOTE));
    assert forall|i: int| at < i < name - 1 implies !#[trigger] structural_quote(source, i, QUOTE) by {
        lemma_quotes_inside_are_escaped(source, at + 1, i);
    }
}

/// What stands before an item of a container is whitespace behind its opening delimiter or behind a comma.
spec fn behind(source: Seq<u8>, place: int, at: int) -> bool {
    0 <= place < at && forall|i: int| place < i < at ==> json_ws(#[trigger] source[i])
}

/// Where a later item stands: behind the comma of the one before it.
spec fn comma_before(source: Seq<u8>, at: int, keyed: bool, index: nat) -> int
    decreases index,
{
    let end = shape_end(source, value_place(source, at, keyed)->0)->0;
    let next = run_end(source, end, StopSet::Ws);
    if index <= 1 {
        next
    } else {
        comma_before(source, run_end(source, next + 1, StopSet::Ws), keyed, (index - 1) as nat)
    }
}

/// A later item stands behind a comma, inside the container.
proof fn lemma_later_item(source: Seq<u8>, at: int, keyed: bool, index: nat)
    requires
        items_shape(source, at, keyed) is Some,
        index > 0,
        item_span(source, at, keyed, index) is Some,
    ensures
        ({
            let (start, value, end) = item_span(source, at, keyed, index)->0;
            let comma = comma_before(source, at, keyed, index);
            &&& at < comma < start <= value < end <= source.len()
            &&& source[comma] == COMMA
            &&& behind(source, comma, start)
            &&& items_shape(source, start, keyed) is Some
            &&& value_place(source, start, keyed) == Some(value)
            &&& shape_end(source, value) == Some(end)
        }),
    decreases index,
{
    lemma_items_end_values(source, at, keyed);
    let end = shape_end(source, value_place(source, at, keyed)->0)->0;
    let next = run_end(source, end, StopSet::Ws);
    let more = run_end(source, next + 1, StopSet::Ws);
    lemma_run_end(source, next + 1, StopSet::Ws);
    lemma_items_end_values(source, more, keyed);
    if index == 1 {
        assert forall|i: int| next < i < more implies json_ws(#[trigger] source[i]) by {
            assert(!StopSet::Ws.stops(source[i]));
        }
    } else {
        lemma_later_item(source, more, keyed, (index - 1) as nat);
    }
}

/// Without the second item, the first is read as it was, and those behind follow.
#[verifier::spinoff_prover]
#[verifier::rlimit(40)]
proof fn lemma_first_item_is_read(source: Seq<u8>, at: int, keyed: bool, start: int)
    requires
        items_shape(source, at, keyed) is Some,
        items_shape(source, start, keyed) is Some,
        ({
            let comma = run_end(source, shape_end(source, value_place(source, at, keyed)->0)->0, StopSet::Ws);
            comma < start < source.len() && source[comma] == COMMA
        }),
    ensures
        ({
            let end = shape_end(source, value_place(source, at, keyed)->0)->0;
            let comma = run_end(source, end, StopSet::Ws);
            let gone = shape_end(source, value_place(source, start, keyed)->0)->0;
            let after = run_end(source, gone, StopSet::Ws);
            let later = run_end(source, after + 1, StopSet::Ws);
            let own = source.subrange(at, end);
            items_read(source.take(comma) + source.skip(gone), at, keyed) == if source[after] == COMMA {
                Some(seq![own] + items_read(source, later, keyed)->0)
            } else {
                Some(seq![own])
            }
        }),
{
    let end = shape_end(source, value_place(source, at, keyed)->0)->0;
    let comma = run_end(source, end, StopSet::Ws);
    let gone = shape_end(source, value_place(source, start, keyed)->0)->0;
    let after = run_end(source, gone, StopSet::Ws);
    let later = run_end(source, after + 1, StopSet::Ws);
    let result = source.take(comma) + source.skip(gone);
    lemma_items_end_values(source, at, keyed);
    lemma_items_end_values(source, start, keyed);
    lemma_what_follows(source, at, keyed);
    lemma_what_follows(source, start, keyed);
    lemma_item_stays(source, result, at, keyed, comma, gone);
    lemma_gap_closes(source, end, comma, gone);
    assert(result.subrange(at, end) =~= source.subrange(at, end));
    if source[after] == COMMA {
        lemma_strict_items_unfold(source, start, keyed);
        lemma_items_read_behind(source, source.take(comma), gone, later, keyed);
        lemma_gap_moves(source, comma, gone, after + 1);
        lemma_item_and_more(result, at, keyed, items_read(source, later, keyed)->0);
    }
}

/// The second item leaves the first where it was, and those behind it follow.
proof fn lemma_second_item_leaves(source: Seq<u8>, at: int, keyed: bool)
    requires
        items_shape(source, at, keyed) is Some,
        item_span(source, at, keyed, 1) is Some,
    ensures
        ({
            let (_, _, end) = item_span(source, at, keyed, 1)->0;
            let comma = comma_before(source, at, keyed, 1);
            let items = items_read(source, at, keyed);
            &&& items is Some && 1 < items->0.len()
            &&& items_read(source.take(comma) + source.skip(end), at, keyed) == Some(items->0.remove(1))
        }),
{
    let (start, _, gone) = item_span(source, at, keyed, 1)->0;
    let comma = comma_before(source, at, keyed, 1);
    let end = shape_end(source, value_place(source, at, keyed)->0)->0;
    let after = run_end(source, gone, StopSet::Ws);
    lemma_later_item(source, at, keyed, 1);
    lemma_strict_items_unfold(source, at, keyed);
    lemma_strict_items_unfold(source, start, keyed);
    let more = run_end(source, comma + 1, StopSet::Ws);
    assert(item_span(source, more, keyed, 0) == item_span(source, at, keyed, 1));
    lemma_first_item_is_read(source, at, keyed, start);
    let own = source.subrange(at, end);
    let removed = source.subrange(start, gone);
    if source[after] == COMMA {
        let rest = items_read(source, run_end(source, after + 1, StopSet::Ws), keyed)->0;
        lemma_drop_second(own, removed, rest);
    } else {
        assert((seq![own] + seq![removed]).remove(1) =~= seq![own]);
    }
}

proof fn lemma_drop_second(own: Seq<u8>, removed: Seq<u8>, rest: Seq<Seq<u8>>)
    ensures
        (seq![own] + (seq![removed] + rest)).remove(1) == seq![own] + rest,
{
    assert((seq![own] + (seq![removed] + rest)).remove(1) =~= seq![own] + rest);
}

/// Reading the items of a strict container one at a time.
proof fn lemma_strict_items_unfold(source: Seq<u8>, at: int, keyed: bool)
    requires
        items_shape(source, at, keyed) is Some,
    ensures
        ({
            let end = shape_end(source, value_place(source, at, keyed)->0)->0;
            let next = run_end(source, end, StopSet::Ws);
            let more = run_end(source, next + 1, StopSet::Ws);
            if source[next] == COMMA {
                &&& items_shape(source, more, keyed) is Some
                &&& items_read(source, more, keyed) is Some
                &&& next < more < source.len()
                &&& items_read(source, at, keyed) == Some(
                    seq![source.subrange(at, end)] + items_read(source, more, keyed)->0,
                )
            } else {
                items_read(source, at, keyed) == Some(seq![source.subrange(at, end)])
            }
        }),
{
    lemma_items_end_values(source, at, keyed);
    lemma_place_is_read(source, at, keyed);
    let end = shape_end(source, value_place(source, at, keyed)->0)->0;
    let next = run_end(source, end, StopSet::Ws);
    let more = run_end(source, next + 1, StopSet::Ws);
    if source[next] == COMMA {
        lemma_scans_pass_items(source, more, keyed, 1, 0);
        lemma_strict_items_are_read(source, more, keyed);
    }
}

/// An item, its comma and what is read behind it.
proof fn lemma_item_and_more(bytes: Seq<u8>, at: int, keyed: bool, rest: Seq<Seq<u8>>)
    requires
        read_place(bytes, at, keyed) matches Some(value) && ({
            let end = value_end(bytes, value);
            let next = run_end(bytes, end, StopSet::Ws);
            let more = run_end(bytes, next + 1, StopSet::Ws);
            &&& 0 <= at <= value && value < end && end <= next && next < bytes.len()
            &&& bytes[next] == COMMA
            &&& next < more <= bytes.len()
            &&& items_read(bytes, more, keyed) == Some(rest)
        }),
    ensures
        items_read(bytes, at, keyed) == Some(
            seq![bytes.subrange(at, value_end(bytes, read_place(bytes, at, keyed)->0))] + rest,
        ),
{
}

/// What follows an item: whitespace up to a comma or the closing delimiter.
proof fn lemma_what_follows(source: Seq<u8>, at: int, keyed: bool)
    requires
        items_shape(source, at, keyed) is Some,
    ensures
        ({
            let end = shape_end(source, value_place(source, at, keyed)->0)->0;
            let after = run_end(source, end, StopSet::Ws);
            &&& 0 <= end <= after < source.len()
            &&& StopSet::Delimiter.stops(source[end])
            &&& StopSet::Ws.stops(source[after])
            &&& source[after] == COMMA || source[after] == if keyed {
                CLOSE_BRACE
            } else {
                CLOSE_BRACKET
            }
        }),
{
    lemma_items_end_values(source, at, keyed);
    let end = shape_end(source, value_place(source, at, keyed)->0)->0;
    lemma_run_end(source, end, StopSet::Ws);
    if end < run_end(source, end, StopSet::Ws) {
        assert(!StopSet::Ws.stops(source[end]));
    }
}

/// Whitespace before a cut and behind it is one run.
proof fn lemma_gap_closes(source: Seq<u8>, end: int, comma: int, gone: int)
    requires
        0 <= end <= comma < gone <= source.len(),
        comma == run_end(source, end, StopSet::Ws),
        run_end(source, gone, StopSet::Ws) < source.len(),
    ensures
        ({
            let after = run_end(source, gone, StopSet::Ws);
            let result = source.take(comma) + source.skip(gone);
            &&& run_end(result, end, StopSet::Ws) == comma + (after - gone)
            &&& comma + (after - gone) < result.len()
            &&& result[comma + (after - gone)] == source[after]
        }),
{
    let after = run_end(source, gone, StopSet::Ws);
    let result = source.take(comma) + source.skip(gone);
    let landed = comma + (after - gone);
    lemma_run_end(source, end, StopSet::Ws);
    lemma_run_end(source, gone, StopSet::Ws);
    assert forall|i: int| end <= i < landed implies !StopSet::Ws.stops(#[trigger] result[i]) by {
        if i < comma {
            assert(source[i] == result[i]);
            assert(!StopSet::Ws.stops(source[i]));
        } else {
            assert(result[i] == source[gone + (i - comma)]);
            assert(!StopSet::Ws.stops(source[gone + (i - comma)]));
        }
    }
    assert(result[landed] == source[after]);
    lemma_run_end_is(result, end, StopSet::Ws, landed);
}

/// Whitespace behind a cut moves with what follows it.
proof fn lemma_gap_moves(source: Seq<u8>, to: int, gone: int, from: int)
    requires
        0 <= to <= source.len(),
        0 <= gone <= from <= source.len(),
        run_end(source, from, StopSet::Ws) < source.len(),
    ensures
        ({
            let result = source.take(to) + source.skip(gone);
            &&& run_end(result, to + (from - gone), StopSet::Ws) == to + (run_end(source, from, StopSet::Ws) - gone)
            &&& result[to + (run_end(source, from, StopSet::Ws) - gone)] == source[run_end(source, from, StopSet::Ws)]
        }),
{
    let result = source.take(to) + source.skip(gone);
    let end = run_end(source, from, StopSet::Ws);
    lemma_run_end(source, from, StopSet::Ws);
    assert forall|i: int| to + (from - gone) <= i < to + (end - gone) implies !StopSet::Ws.stops(#[trigger] result[i]) by {
        assert(result[i] == source[gone + (i - to)]);
        assert(!StopSet::Ws.stops(source[gone + (i - to)]));
    }
    assert(result[to + (end - gone)] == source[end]);
    lemma_run_end_is(result, to + (from - gone), StopSet::Ws, to + (end - gone));
}

/// An item before the cut, with its comma, is read as it was, whatever is read behind it.
proof fn lemma_item_before_the_cut(source: Seq<u8>, at: int, keyed: bool, comma: int, gone: int, rest: Seq<Seq<u8>>)
    requires
        items_shape(source, at, keyed) is Some,
        ({
            let end = shape_end(source, value_place(source, at, keyed)->0)->0;
            let next = run_end(source, end, StopSet::Ws);
            let more = run_end(source, next + 1, StopSet::Ws);
            &&& source[next] == COMMA
            &&& next < more < comma < gone < source.len()
            &&& items_read(source.take(comma) + source.skip(gone), more, keyed) == Some(rest)
        }),
        source[comma] == COMMA,
        StopSet::Delimiter.stops(source[gone]),
    ensures
        ({
            let end = shape_end(source, value_place(source, at, keyed)->0)->0;
            items_read(source.take(comma) + source.skip(gone), at, keyed) == Some(seq![source.subrange(at, end)] + rest)
        }),
{
    let result = source.take(comma) + source.skip(gone);
    lemma_items_end_values(source, at, keyed);
    let end = shape_end(source, value_place(source, at, keyed)->0)->0;
    let next = run_end(source, end, StopSet::Ws);
    let more = run_end(source, next + 1, StopSet::Ws);
    lemma_run_end(source, end, StopSet::Ws);
    lemma_run_end(source, next + 1, StopSet::Ws);
    lemma_item_stays(source, result, at, keyed, comma, gone);
    assert(result.subrange(at, end) =~= source.subrange(at, end));
    assert forall|i: int| end <= i < next implies !StopSet::Ws.stops(#[trigger] result[i]) by {
        assert(source[i] == result[i]);
        assert(!StopSet::Ws.stops(source[i]));
    }
    assert(source[next] == result[next]);
    lemma_run_end_is(result, end, StopSet::Ws, next);
    assert forall|i: int| next + 1 <= i < more implies !StopSet::Ws.stops(#[trigger] result[i]) by {
        assert(source[i] == result[i]);
        assert(!StopSet::Ws.stops(source[i]));
    }
    assert(source[more] == result[more]);
    lemma_run_end_is(result, next + 1, StopSet::Ws, more);
}

/// The items before the removed one are read as they were, and those behind it follow.
proof fn lemma_later_item_leaves(source: Seq<u8>, at: int, keyed: bool, index: nat)
    requires
        items_shape(source, at, keyed) is Some,
        index > 0,
        item_span(source, at, keyed, index) is Some,
    ensures
        ({
            let (_, _, end) = item_span(source, at, keyed, index)->0;
            let comma = comma_before(source, at, keyed, index);
            let items = items_read(source, at, keyed);
            &&& items is Some && index < items->0.len()
            &&& items_read(source.take(comma) + source.skip(end), at, keyed) == Some(items->0.remove(index as int))
        }),
    decreases index,
{
    if index == 1 {
        lemma_second_item_leaves(source, at, keyed);
    } else {
        let (start, _, gone) = item_span(source, at, keyed, index)->0;
        let comma = comma_before(source, at, keyed, index);
        let less = (index - 1) as nat;
        lemma_strict_items_are_read(source, at, keyed);
        lemma_items_end_values(source, at, keyed);
        lemma_place_is_read(source, at, keyed);
        let end = shape_end(source, value_place(source, at, keyed)->0)->0;
        let next = run_end(source, end, StopSet::Ws);
        let more = run_end(source, next + 1, StopSet::Ws);
        lemma_later_item(source, more, keyed, less);
        lemma_what_follows(source, start, keyed);
        lemma_later_item_leaves(source, more, keyed, less);
        let rest = items_read(source, more, keyed)->0;
        lemma_item_before_the_cut(source, at, keyed, comma, gone, rest.remove(less as int));
        let own = source.subrange(at, end);
        assert((seq![own] + rest).remove(index as int) =~= seq![own] + rest.remove(less as int));
    }
}

/// An item before the cut is read as it was.
proof fn lemma_item_stays(source: Seq<u8>, result: Seq<u8>, at: int, keyed: bool, comma: int, gone: int)
    requires
        items_shape(source, at, keyed) is Some,
        ({
            let end = shape_end(source, value_place(source, at, keyed)->0)->0;
            end <= comma < gone && gone < source.len()
        }),
        result == source.take(comma) + source.skip(gone),
        source[comma] == COMMA,
        StopSet::Delimiter.stops(source[gone]),
    ensures
        read_place(result, at, keyed) == value_place(source, at, keyed),
        value_end(result, value_place(source, at, keyed)->0) == shape_end(source, value_place(source, at, keyed)->0)->0,
{
    let value = value_place(source, at, keyed)->0;
    let end = shape_end(source, value)->0;
    lemma_items_end_values(source, at, keyed);
    assert forall|i: int| 0 <= i < comma implies #[trigger] source[i] == result[i] by {}
    assert(result[comma] == source[gone]);
    lemma_item_by_prefix(source, result, at, keyed, comma);
    lemma_place_is_read(result, at, keyed);
    lemma_run_end(source, end, StopSet::Ws);
    if end < comma {
        assert(source[end] == result[end]);
        assert(StopSet::Delimiter.stops(source[end])) by {
            if end < run_end(source, end, StopSet::Ws) {
                assert(!StopSet::Ws.stops(source[end]));
            }
        }
    }
    lemma_skip_passes_a_value(result, value);
}

/// The whitespace from a container's opening delimiter up to a cut is one run with what follows the cut.
proof fn lemma_opening_gap(source: Seq<u8>, open: int, start: int, gone: int)
    requires
        0 <= open < start <= source.len(),
        start <= gone <= source.len(),
        forall|i: int| open < i < start ==> json_ws(#[trigger] source[i]),
        run_end(source, gone, StopSet::Ws) < source.len(),
    ensures
        ({
            let result = source.take(start) + source.skip(gone);
            let first = run_end(source, gone, StopSet::Ws);
            &&& result[open] == source[open]
            &&& run_end(result, open + 1, StopSet::Ws) == start + (first - gone)
            &&& start + (first - gone) < result.len()
            &&& result[start + (first - gone)] == source[first]
        }),
{
    let result = source.take(start) + source.skip(gone);
    let first = run_end(source, gone, StopSet::Ws);
    let landed = start + (first - gone);
    lemma_run_end(source, gone, StopSet::Ws);
    assert forall|i: int| open + 1 <= i < landed implies !StopSet::Ws.stops(#[trigger] result[i]) by {
        if i < start {
            assert(result[i] == source[i]);
        } else {
            assert(result[i] == source[gone + (i - start)]);
            assert(!StopSet::Ws.stops(source[gone + (i - start)]));
        }
    }
    assert(result[landed] == source[first]);
    lemma_run_end_is(result, open + 1, StopSet::Ws, landed);
}

/// A container's first member leaves, and the others follow.
proof fn lemma_first_item_leaves(source: Seq<u8>, open: int)
    requires
        0 <= open < source.len(),
        opener(source[open]),
        ({
            let first = run_end(source, open + 1, StopSet::Ws);
            first < source.len() && items_shape(source, first, source[open] == OPEN_BRACE) is Some
        }),
    ensures
        ({
            let keyed = source[open] == OPEN_BRACE;
            let at = run_end(source, open + 1, StopSet::Ws);
            let end = shape_end(source, value_place(source, at, keyed)->0)->0;
            let (start, gone) = cut_range(source, open, at, end);
            &&& items_read(source, at, keyed) is Some && items_read(source, at, keyed)->0.len() > 0
            &&& container_items(source.take(start) + source.skip(gone), open) == Some(
                items_read(source, at, keyed)->0.remove(0),
            )
        }),
{
    let keyed = source[open] == OPEN_BRACE;
    let at = run_end(source, open + 1, StopSet::Ws);
    let end = shape_end(source, value_place(source, at, keyed)->0)->0;
    let (start, gone) = cut_range(source, open, at, end);
    let next = run_end(source, end, StopSet::Ws);
    lemma_run_end(source, open + 1, StopSet::Ws);
    assert forall|i: int| open < i < at implies json_ws(#[trigger] source[i]) by {
        assert(!StopSet::Ws.stops(source[i]));
    }
    lemma_items_end_values(source, at, keyed);
    lemma_what_follows(source, at, keyed);
    lemma_strict_items_unfold(source, at, keyed);
    lemma_back_to(source, at, open, open + 1);
    lemma_cut_stays_inside(source, open, at, end);
    let own = source.subrange(at, end);
    let items = items_read(source, at, keyed)->0;
    if source[next] == COMMA {
        let more = run_end(source, next + 1, StopSet::Ws);
        lemma_scans_pass_items(source, more, keyed, 1, 0);
        lemma_more_is_no_closer(source, more, keyed);
        assert(gone == next + 1);
        lemma_opening_gap(source, open, start, gone);
        lemma_items_read_behind(source, source.take(start), gone, more, keyed);
        let rest = items_read(source, more, keyed)->0;
        assert((seq![own] + rest).remove(0) =~= rest);
    } else {
        assert(gone == next);
        lemma_run_end_is(source, next, StopSet::Ws, next);
        lemma_opening_gap(source, open, start, gone);
        assert(seq![own].remove(0) =~= Seq::<Seq<u8>>::empty());
    }
}

/// An item does not start with a closing delimiter.
proof fn lemma_more_is_no_closer(source: Seq<u8>, at: int, keyed: bool)
    requires
        items_shape(source, at, keyed) is Some,
        0 <= at < source.len(),
    ensures
        !closer(source[at]),
{
    if closer(source[at]) {
        assert(ends_word(source[at]));
        assert(shape_end(source, at) is None);
        assert(value_place(source, at, keyed) == if keyed {
            None::<int>
        } else {
            Some(at)
        });
        assert(items_shape(source, at, keyed) is None);
    }
}

/// A later member leaves, and the others close up.
#[verifier::spinoff_prover]
#[verifier::rlimit(40)]
proof fn lemma_later_member_leaves(source: Seq<u8>, open: int, index: nat)
    requires
        0 <= open < source.len(),
        opener(source[open]),
        index > 0,
        items_shape(source, run_end(source, open + 1, StopSet::Ws), source[open] == OPEN_BRACE) is Some,
        item_span(source, run_end(source, open + 1, StopSet::Ws), source[open] == OPEN_BRACE, index) is Some,
        !closer(source[run_end(source, open + 1, StopSet::Ws)]),
    ensures
        ({
            let keyed = source[open] == OPEN_BRACE;
            let (member, value, end) = item_span(source, run_end(source, open + 1, StopSet::Ws), keyed, index)->0;
            let (start, gone) = cut_range(source, open, member, end);
            &&& member_start_is(source, open, value, keyed, member)
            &&& container_items(source, open) is Some
            &&& index < container_items(source, open)->0.len()
            &&& container_items(source.take(start) + source.skip(gone), open) == Some(
                container_items(source, open)->0.remove(index as int),
            )
        }),
{
    let keyed = source[open] == OPEN_BRACE;
    let first = run_end(source, open + 1, StopSet::Ws);
    let (member, value, end) = item_span(source, first, keyed, index)->0;
    let (start, gone) = cut_range(source, open, member, end);
    lemma_run_end(source, open + 1, StopSet::Ws);
    lemma_items_end_values(source, first, keyed);
    lemma_later_item(source, first, keyed, index);
    lemma_later_item_leaves(source, first, keyed, index);
    let comma = comma_before(source, first, keyed, index);
    if keyed {
        assert(source[member - 1] != BACKSLASH) by {
            if member - 1 > comma {
                assert(json_ws(source[member - 1]));
            }
        }
        lemma_key_is_found(source, open, member, value);
    }
    lemma_back_to(source, member, open, comma + 1);
    assert(start == comma && gone == end);
    let result = source.take(start) + source.skip(gone);
    assert forall|i: int| open + 1 <= i < first implies !StopSet::Ws.stops(#[trigger] result[i]) by {
        assert(source[i] == result[i]);
        assert(!StopSet::Ws.stops(source[i]));
    }
    assert(source[first] == result[first]);
    assert(source[open] == result[open]);
    lemma_run_end_is(result, open + 1, StopSet::Ws, first);
}

/// A shrunk container holds its members without the one that was removed: the walk back from the removed value finds its
/// member, and reading the members of a strict container without the cut gives the texts that were there, unchanged and
/// in order, but for that one.
#[verifier::spinoff_prover]
#[verifier::rlimit(40)]
pub proof fn lemma_shrunk_container_loses_one_member(source: Seq<u8>, open: int, index: nat)
    requires
        0 <= open < source.len(),
        opener(source[open]),
        shape_end(source, open) is Some,
        item_span(source, run_end(source, open + 1, StopSet::Ws), source[open] == OPEN_BRACE, index) is Some,
        !closer(source[run_end(source, open + 1, StopSet::Ws)]),
    ensures
        ({
            let keyed = source[open] == OPEN_BRACE;
            let (member, value, end) = item_span(source, run_end(source, open + 1, StopSet::Ws), keyed, index)->0;
            let (start, gone) = cut_range(source, open, member, end);
            &&& member_start_is(source, open, value, keyed, member)
            &&& container_items(source, open) is Some
            &&& index < container_items(source, open)->0.len()
            &&& container_items(source.take(start) + source.skip(gone), open) == Some(
                container_items(source, open)->0.remove(index as int),
            )
        }),
{
    let keyed = source[open] == OPEN_BRACE;
    let first = run_end(source, open + 1, StopSet::Ws);
    let (member, value, _) = item_span(source, first, keyed, index)->0;
    lemma_run_end(source, open + 1, StopSet::Ws);
    lemma_items_end_values(source, first, keyed);
    if index == 0 {
        if keyed {
            assert(source[member - 1] != BACKSLASH) by {
                if member - 1 > open {
                    assert(!StopSet::Ws.stops(source[member - 1]));
                }
            }
            lemma_key_is_found(source, open, member, value);
        }
        lemma_first_item_leaves(source, open);
    } else {
        lemma_later_member_leaves(source, open, index);
    }
}

} // verus!
