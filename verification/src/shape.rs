//! The shape of JSON text: strings with their escapes, bare words, and containers with their commas and colons. Every
//! RFC 8259 text has it. On text of this shape the scans agree: each passes over a value in one go, wherever it meets it.

use vstd::prelude::*;

use crate::ascii::{BACKSLASH, CLOSE_BRACE, CLOSE_BRACKET, COLON, COMMA, LOWER_U, OPEN_BRACE, OPEN_BRACKET, QUOTE};

use crate::byte_scan::{json_ws, lemma_run_end, lemma_run_end_is, run_end, StopSet};
use crate::count_filter::{element_member, last_match, members_from, tested_members, true_answers};
use crate::edit::{close_from, closer_of, opener, region_end, string_close};
use crate::edit_support::back_over_ws;
use crate::element_batch::{batch_width, lemma_batches_lose_nothing, stepped, walked, window_ends_whole, ElementWalk};
use crate::json_escape::simple_unescape;
use crate::jsonc::encode::{ends_word, jsonc_region, region_from, word_end, Region};
use crate::lazy::{
    after_element, array_count, content_end, counted_from, nested_end, past_window, unescaped, value_end, AfterElement,
    CountStep,
};
use crate::lex::hex_value;

verus! {

/// Just past the quote that closes the string body at `at`: RFC 8259's escapes, and no raw control byte.
pub open spec fn string_shape(bytes: Seq<u8>, at: int) -> Option<int>
    decreases bytes.len() - at,
{
    if at < 0 || at >= bytes.len() {
        None
    } else if bytes[at] == QUOTE {
        Some(at + 1)
    } else if bytes[at] == BACKSLASH {
        if at + 1 >= bytes.len() {
            None
        } else if bytes[at + 1] == LOWER_U {
            if at + 6 <= bytes.len() && hex_value(bytes[at + 2]) is Some && hex_value(bytes[at + 3]) is Some && hex_value(
                bytes[at + 4],
            ) is Some && hex_value(bytes[at + 5]) is Some {
                string_shape(bytes, at + 6)
            } else {
                None
            }
        } else if simple_unescape(bytes[at + 1]) is Some {
            string_shape(bytes, at + 2)
        } else {
            None
        }
    } else if bytes[at] < 0x20 {
        None
    } else {
        string_shape(bytes, at + 1)
    }
}

/// Where the value of the item at `at` starts: behind a string and a colon for an object's member, and at once for an
/// array's element.
pub open spec fn value_place(bytes: Seq<u8>, at: int, keyed: bool) -> Option<int> {
    if !keyed {
        Some(at)
    } else if !(0 <= at < bytes.len()) || bytes[at] != QUOTE {
        None
    } else {
        match string_shape(bytes, at + 1) {
            Some(end) => {
                let colon = run_end(bytes, end, StopSet::Ws);
                if 0 <= colon < bytes.len() && bytes[colon] == COLON {
                    Some(run_end(bytes, colon + 1, StopSet::Ws))
                } else {
                    None
                }
            },
            None => None,
        }
    }
}

/// Just past the value at `at`.
pub open spec fn shape_end(bytes: Seq<u8>, at: int) -> Option<int>
    decreases bytes.len() - at, 0int,
{
    if !(0 <= at < bytes.len()) {
        None
    } else if bytes[at] == QUOTE {
        string_shape(bytes, at + 1)
    } else if opener(bytes[at]) {
        let first = run_end(bytes, at + 1, StopSet::Ws);
        if !(at < first < bytes.len()) {
            None
        } else if bytes[first] == closer_of(bytes[at]) {
            Some(first + 1)
        } else {
            match items_shape(bytes, first, bytes[at] == OPEN_BRACE) {
                Some(items) => Some(items.close),
                None => None,
            }
        }
    } else if ends_word(bytes[at]) {
        None
    } else {
        Some(word_end(bytes, at))
    }
}

/// A container's items, from the one at `at` on: just past its closing delimiter, and just past its last value.
pub open spec fn items_shape(bytes: Seq<u8>, at: int, keyed: bool) -> Option<Region>
    decreases bytes.len() - at, 1int,
{
    match value_place(bytes, at, keyed) {
        Some(value) => if !(0 <= at <= value < bytes.len()) {
            None
        } else {
            match shape_end(bytes, value) {
                Some(end) => {
                    let next = run_end(bytes, end, StopSet::Ws);
                    let more = run_end(bytes, next + 1, StopSet::Ws);
                    if !(value < end <= next < bytes.len()) {
                        None
                    } else if bytes[next] == if keyed {
                        CLOSE_BRACE
                    } else {
                        CLOSE_BRACKET
                    } {
                        Some(Region { close: next + 1, value_end: end })
                    } else if bytes[next] == COMMA && next < more <= bytes.len() {
                        items_shape(bytes, more, keyed)
                    } else {
                        None
                    }
                },
                None => None,
            }
        },
        None => None,
    }
}

/// A string of this shape is one to every scan.
pub proof fn lemma_string_shape(bytes: Seq<u8>, at: int)
    requires
        0 <= at,
        string_shape(bytes, at) is Some,
    ensures
        ({
            let end = string_shape(bytes, at)->0;
            &&& at < end <= bytes.len()
            &&& bytes[end - 1] == QUOTE
            &&& content_end(bytes, at) == Some(end - 1)
            &&& string_close(bytes, at, QUOTE) == Some(end)
        }),
    decreases bytes.len() - at,
{
    if bytes[at] == QUOTE {
    } else if bytes[at] == BACKSLASH {
        if bytes[at + 1] == LOWER_U {
            lemma_string_shape(bytes, at + 6);
            assert(bytes[at + 2] != QUOTE && bytes[at + 2] != BACKSLASH);
            assert(bytes[at + 3] != QUOTE && bytes[at + 3] != BACKSLASH);
            assert(bytes[at + 4] != QUOTE && bytes[at + 4] != BACKSLASH);
            assert(bytes[at + 5] != QUOTE && bytes[at + 5] != BACKSLASH);
            assert(string_close(bytes, at + 5, QUOTE) == string_close(bytes, at + 6, QUOTE));
            assert(string_close(bytes, at + 4, QUOTE) == string_close(bytes, at + 5, QUOTE));
            assert(string_close(bytes, at + 3, QUOTE) == string_close(bytes, at + 4, QUOTE));
            assert(string_close(bytes, at + 2, QUOTE) == string_close(bytes, at + 3, QUOTE));
        } else {
            lemma_string_shape(bytes, at + 2);
        }
    } else {
        lemma_string_shape(bytes, at + 1);
    }
}

/// A bare word is one to every scan, and ends in no whitespace, delimiter or quote.
proof fn lemma_word_shape(bytes: Seq<u8>, at: int, depth: nat)
    requires
        0 <= at < bytes.len(),
        !ends_word(bytes[at]),
    ensures
        ({
            let end = word_end(bytes, at);
            &&& at < end <= bytes.len()
            &&& !ends_word(bytes[end - 1])
            &&& end < bytes.len() ==> ends_word(bytes[end])
            &&& nested_end(bytes, at, depth) == nested_end(bytes, end, depth)
            &&& close_from(bytes, at, depth) == close_from(bytes, end, depth)
        }),
    decreases bytes.len() - at,
{
    assert(word_end(bytes, at) == word_end(bytes, at + 1));
    if at + 1 < bytes.len() && !ends_word(bytes[at + 1]) {
        lemma_word_shape(bytes, at + 1, depth);
    }
}

/// A bare word that whitespace, a comma or a closing delimiter follows is skipped as one.
proof fn lemma_word_is_a_run(bytes: Seq<u8>, at: int)
    requires
        0 <= at < bytes.len(),
        !ends_word(bytes[at]),
        ({
            let end = word_end(bytes, at);
            end == bytes.len() || StopSet::Delimiter.stops(bytes[end])
        }),
    ensures
        run_end(bytes, at, StopSet::Delimiter) == word_end(bytes, at),
    decreases bytes.len() - at,
{
    assert(word_end(bytes, at) == word_end(bytes, at + 1));
    assert(run_end(bytes, at, StopSet::Delimiter) == run_end(bytes, at + 1, StopSet::Delimiter));
    if at + 1 < bytes.len() && !ends_word(bytes[at + 1]) {
        lemma_word_is_a_run(bytes, at + 1);
    }
}

/// Every scan passes over whitespace.
pub proof fn lemma_scans_pass_whitespace(bytes: Seq<u8>, at: int, depth: nat, last: int)
    requires
        0 <= at <= bytes.len(),
    ensures
        ({
            let end = run_end(bytes, at, StopSet::Ws);
            &&& at <= end <= bytes.len()
            &&& nested_end(bytes, at, depth) == nested_end(bytes, end, depth)
            &&& close_from(bytes, at, depth) == close_from(bytes, end, depth)
            &&& region_from(bytes, at, depth, last) == region_from(bytes, end, depth, last)
        }),
    decreases bytes.len() - at,
{
    lemma_run_end(bytes, at, StopSet::Ws);
    if at < bytes.len() && json_ws(bytes[at]) {
        lemma_scans_pass_whitespace(bytes, at + 1, depth, last);
    }
}

/// What comes behind a value, for the scan of regions: the value's end is noted inside one open container.
pub open spec fn noted(depth: nat, end: int, last: int) -> int {
    if depth == 1 {
        end
    } else {
        last
    }
}

/// Every scan passes over a value, inside any open container.
pub proof fn lemma_scans_pass_a_value(bytes: Seq<u8>, at: int, depth: nat, last: int)
    requires
        shape_end(bytes, at) is Some,
        depth >= 1,
    ensures
        ({
            let end = shape_end(bytes, at)->0;
            &&& 0 <= at < end <= bytes.len()
            &&& !json_ws(bytes[end - 1]) && !opener(bytes[end - 1])
            &&& nested_end(bytes, at, depth) == nested_end(bytes, end, depth)
            &&& close_from(bytes, at, depth) == close_from(bytes, end, depth)
            &&& region_from(bytes, at, depth, last) == region_from(bytes, end, depth, noted(depth, end, last))
        }),
    decreases bytes.len() - at, 0int,
{
    if bytes[at] == QUOTE {
        lemma_string_shape(bytes, at + 1);
    } else if opener(bytes[at]) {
        let first = run_end(bytes, at + 1, StopSet::Ws);
        lemma_scans_pass_whitespace(bytes, at + 1, depth + 1, last);
        if bytes[first] != closer_of(bytes[at]) {
            lemma_scans_pass_items(bytes, first, bytes[at] == OPEN_BRACE, depth + 1, last);
        }
    } else {
        lemma_word_shape(bytes, at, depth);
    }
}

/// Every scan passes over a container's items and its closing delimiter.
pub proof fn lemma_scans_pass_items(bytes: Seq<u8>, at: int, keyed: bool, depth: nat, last: int)
    requires
        items_shape(bytes, at, keyed) is Some,
        depth >= 1,
    ensures
        ({
            let items = items_shape(bytes, at, keyed)->0;
            let outer = (depth - 1) as nat;
            &&& 0 <= at < items.value_end < items.close <= bytes.len()
            &&& bytes[items.close - 1] == if keyed {
                CLOSE_BRACE
            } else {
                CLOSE_BRACKET
            }
            &&& !json_ws(bytes[items.value_end - 1]) && !opener(bytes[items.value_end - 1])
            &&& forall|i: int| items.value_end <= i < items.close - 1 ==> json_ws(#[trigger] bytes[i])
            &&& nested_end(bytes, at, depth) == if depth == 1 {
                items.close
            } else {
                nested_end(bytes, items.close, outer)
            }
            &&& close_from(bytes, at, depth) == if depth == 1 {
                Some(items.close)
            } else {
                close_from(bytes, items.close, outer)
            }
            &&& region_from(bytes, at, depth, last) == if depth == 1 {
                Some(items)
            } else {
                region_from(bytes, items.close, outer, noted(outer, items.close, last))
            }
        }),
    decreases bytes.len() - at, 1int,
{
    let value = value_place(bytes, at, keyed)->0;
    if keyed {
        lemma_string_shape(bytes, at + 1);
        let name = string_shape(bytes, at + 1)->0;
        let seen = noted(depth, name, last);
        let colon = run_end(bytes, name, StopSet::Ws);
        lemma_scans_pass_whitespace(bytes, name, depth, seen);
        lemma_scans_pass_whitespace(bytes, colon + 1, depth, seen);
        lemma_scans_pass_a_value(bytes, value, depth, seen);
    } else {
        lemma_scans_pass_a_value(bytes, value, depth, last);
    }
    let end = shape_end(bytes, value)->0;
    let now = noted(depth, end, if keyed { noted(depth, string_shape(bytes, at + 1)->0, last) } else { last });
    let next = run_end(bytes, end, StopSet::Ws);
    lemma_scans_pass_whitespace(bytes, end, depth, now);
    lemma_run_end(bytes, end, StopSet::Ws);
    if bytes[next] == COMMA {
        let more = run_end(bytes, next + 1, StopSet::Ws);
        lemma_scans_pass_whitespace(bytes, next + 1, depth, now);
        lemma_scans_pass_items(bytes, more, keyed, depth, now);
    } else {
        assert forall|i: int| end <= i < next implies json_ws(#[trigger] bytes[i]) by {
            assert(!StopSet::Ws.stops(bytes[i]));
        }
    }
}

/// A string's shape does not depend on what comes behind.
proof fn lemma_string_shape_by_prefix(left: Seq<u8>, right: Seq<u8>, at: int)
    requires
        0 <= at,
        string_shape(left, at) matches Some(end) && end <= right.len() && forall|i: int|
            0 <= i < end ==> #[trigger] left[i] == right[i],
    ensures
        string_shape(right, at) == string_shape(left, at),
    decreases left.len() - at,
{
    lemma_string_shape(left, at);
    assert(left[at] == right[at]);
    if left[at] == QUOTE {
    } else if left[at] == BACKSLASH {
        if left[at + 1] == LOWER_U {
            lemma_string_shape(left, at + 6);
            assert(left[at + 1] == right[at + 1]);
            assert(left[at + 2] == right[at + 2]);
            assert(left[at + 3] == right[at + 3]);
            assert(left[at + 4] == right[at + 4]);
            assert(left[at + 5] == right[at + 5]);
            lemma_string_shape_by_prefix(left, right, at + 6);
        } else {
            lemma_string_shape(left, at + 2);
            assert(left[at + 1] == right[at + 1]);
            lemma_string_shape_by_prefix(left, right, at + 2);
        }
    } else {
        lemma_string_shape(left, at + 1);
        lemma_string_shape_by_prefix(left, right, at + 1);
    }
}

/// Whitespace that ends before `to` ends there whatever stands from `to` on.
proof fn lemma_whitespace_by_prefix(left: Seq<u8>, right: Seq<u8>, at: int, to: int)
    requires
        0 <= at <= left.len(),
        run_end(left, at, StopSet::Ws) < to <= left.len(),
        to <= right.len(),
        forall|i: int| 0 <= i < to ==> #[trigger] left[i] == right[i],
    ensures
        run_end(right, at, StopSet::Ws) == run_end(left, at, StopSet::Ws),
{
    lemma_run_end(left, at, StopSet::Ws);
    let end = run_end(left, at, StopSet::Ws);
    assert forall|i: int| at <= i < end implies !StopSet::Ws.stops(#[trigger] right[i]) by {
        assert(left[i] == right[i]);
    }
    assert(left[end] == right[end]);
    lemma_run_end_is(right, at, StopSet::Ws, end);
}

/// A bare word's end does not depend on what comes behind, as long as that ends a word.
proof fn lemma_word_by_prefix(left: Seq<u8>, right: Seq<u8>, at: int)
    requires
        0 <= at <= left.len(),
        word_end(left, at) <= right.len(),
        forall|i: int| 0 <= i < word_end(left, at) ==> #[trigger] left[i] == right[i],
        word_end(left, at) < right.len() ==> ends_word(right[word_end(left, at)]),
    ensures
        word_end(right, at) == word_end(left, at),
    decreases left.len() - at,
{
    if at < left.len() && !ends_word(left[at]) {
        lemma_word_shape(left, at, 1);
        assert(left[at] == right[at]);
        lemma_word_by_prefix(left, right, at + 1);
    }
}

/// A value's shape does not depend on what comes behind, as long as that ends a word.
pub proof fn lemma_shape_by_prefix(left: Seq<u8>, right: Seq<u8>, at: int)
    requires
        shape_end(left, at) matches Some(end) && end <= right.len() && (end < right.len() ==> ends_word(right[end]))
            && forall|i: int| 0 <= i < end ==> #[trigger] left[i] == right[i],
    ensures
        shape_end(right, at) == shape_end(left, at),
    decreases left.len() - at, 0int,
{
    let end = shape_end(left, at)->0;
    lemma_scans_pass_a_value(left, at, 1, 0);
    assert(left[at] == right[at]);
    if left[at] == QUOTE {
        lemma_string_shape_by_prefix(left, right, at + 1);
    } else if opener(left[at]) {
        let first = run_end(left, at + 1, StopSet::Ws);
        if left[first] != closer_of(left[at]) {
            lemma_scans_pass_items(left, first, left[at] == OPEN_BRACE, 1, 0);
            lemma_whitespace_by_prefix(left, right, at + 1, end);
            lemma_items_by_prefix(left, right, first, left[at] == OPEN_BRACE);
        } else {
            lemma_whitespace_by_prefix(left, right, at + 1, end);
        }
        assert(left[first] == right[first]);
    } else {
        lemma_word_by_prefix(left, right, at);
    }
}

/// The shape of a container's items does not depend on what comes behind it.
proof fn lemma_items_by_prefix(left: Seq<u8>, right: Seq<u8>, at: int, keyed: bool)
    requires
        items_shape(left, at, keyed) matches Some(items) && items.close <= right.len() && forall|i: int|
            0 <= i < items.close ==> #[trigger] left[i] == right[i],
    ensures
        items_shape(right, at, keyed) == items_shape(left, at, keyed),
    decreases left.len() - at, 2int,
{
    let items = items_shape(left, at, keyed)->0;
    lemma_scans_pass_items(left, at, keyed, 1, 0);
    let value = value_place(left, at, keyed)->0;
    let end = shape_end(left, value)->0;
    let next = run_end(left, end, StopSet::Ws);
    if left[next] == COMMA {
        lemma_scans_pass_items(left, run_end(left, next + 1, StopSet::Ws), keyed, 1, 0);
    }
    lemma_item_by_prefix(left, right, at, keyed, items.close);
    if left[next] == COMMA {
        let more = run_end(left, next + 1, StopSet::Ws);
        lemma_whitespace_by_prefix(left, right, end, items.close);
        lemma_whitespace_by_prefix(left, right, next + 1, items.close);
        lemma_items_by_prefix(left, right, more, keyed);
    } else {
        lemma_whitespace_by_prefix(left, right, end, items.close);
    }
    assert(left[next] == right[next]);
}

/// One item that ends before `to` is the same whatever stands from `to` on.
pub proof fn lemma_item_by_prefix(left: Seq<u8>, right: Seq<u8>, at: int, keyed: bool, to: int)
    requires
        items_shape(left, at, keyed) is Some,
        ({
            let end = shape_end(left, value_place(left, at, keyed)->0)->0;
            end <= to <= left.len() && (end == to ==> to < right.len() && ends_word(right[to]))
        }),
        to <= right.len(),
        forall|i: int| 0 <= i < to ==> #[trigger] left[i] == right[i],
    ensures
        value_place(right, at, keyed) == value_place(left, at, keyed),
        shape_end(right, value_place(left, at, keyed)->0) == shape_end(left, value_place(left, at, keyed)->0),
    decreases left.len() - at, 1int,
{
    let value = value_place(left, at, keyed)->0;
    let end = shape_end(left, value)->0;
    lemma_items_end_values(left, at, keyed);
    if keyed {
        lemma_string_shape(left, at + 1);
        let name = string_shape(left, at + 1)->0;
        lemma_run_end(left, name, StopSet::Ws);
        let colon = run_end(left, name, StopSet::Ws);
        lemma_run_end(left, colon + 1, StopSet::Ws);
        assert(left[at] == right[at]);
        lemma_string_shape_by_prefix(left, right, at + 1);
        lemma_whitespace_by_prefix(left, right, name, to);
        assert(left[colon] == right[colon]);
        lemma_whitespace_by_prefix(left, right, colon + 1, to);
    }
    lemma_run_end(left, end, StopSet::Ws);
    if end < to {
        assert(left[end] == right[end]);
        assert(ends_word(left[end])) by {
            if end < run_end(left, end, StopSet::Ws) {
                assert(!StopSet::Ws.stops(left[end]));
            }
        }
    }
    lemma_shape_by_prefix(left, right, value);
}

/// On strict text the comment-aware scan names the strict scan's region: the same close, the same last value's end and
/// the same emptiness.
pub proof fn lemma_strict_text_is_one_region_to_both_scans(source: Seq<u8>, open: int)
    requires
        0 <= open < source.len(),
        opener(source[open]),
        shape_end(source, open) is Some,
    ensures
        ({
            let close = shape_end(source, open)->0;
            let end = back_over_ws(source, close - 1, open);
            let empty = closer_of(source[end - 1]) == source[close - 1] && opener(source[end - 1]);
            &&& region_end(source, open) == Some(close)
            &&& jsonc_region(source, open) == Some(
                Region {
                    close,
                    value_end: if empty {
                        open
                    } else {
                        end
                    },
                },
            )
        }),
{
    let close = shape_end(source, open)->0;
    let first = run_end(source, open + 1, StopSet::Ws);
    lemma_scans_pass_whitespace(source, open + 1, 1, open);
    lemma_run_end(source, open + 1, StopSet::Ws);
    if source[first] == closer_of(source[open]) {
        assert forall|i: int| open + 1 <= i < first implies json_ws(#[trigger] source[i]) by {
            assert(!StopSet::Ws.stops(source[i]));
        }
        lemma_back_to(source, close - 1, open, open + 1);
    } else {
        lemma_scans_pass_items(source, first, source[open] == OPEN_BRACE, 1, open);
        let items = items_shape(source, first, source[open] == OPEN_BRACE)->0;
        lemma_back_to(source, close - 1, open, items.value_end);
    }
}

/// Going back over whitespace stops behind the first byte that is none.
pub proof fn lemma_back_to(source: Seq<u8>, from: int, floor: int, to: int)
    requires
        0 <= floor < to <= from <= source.len(),
        !json_ws(source[to - 1]),
        forall|i: int| to <= i < from ==> json_ws(#[trigger] source[i]),
    ensures
        back_over_ws(source, from, floor) == to,
    decreases from - to,
{
    if from > to {
        assert(json_ws(source[from - 1]));
        lemma_back_to(source, from - 1, floor, to);
    }
}

/// A value of this shape is skipped as one, where what follows it ends a value.
pub proof fn lemma_skip_passes_a_value(bytes: Seq<u8>, at: int)
    requires
        shape_end(bytes, at) is Some,
        ({
            let end = shape_end(bytes, at)->0;
            end >= bytes.len() || StopSet::Delimiter.stops(bytes[end])
        }),
    ensures
        value_end(bytes, at) == shape_end(bytes, at)->0,
        0 <= at < value_end(bytes, at) <= bytes.len(),
{
    lemma_scans_pass_a_value(bytes, at, 1, 0);
    if bytes[at] == QUOTE {
        lemma_string_shape(bytes, at + 1);
    } else if opener(bytes[at]) {
        let first = run_end(bytes, at + 1, StopSet::Ws);
        lemma_scans_pass_whitespace(bytes, at + 1, 1, 0);
        assert(nested_end(bytes, at, 0) == nested_end(bytes, at + 1, 1));
        if bytes[first] != closer_of(bytes[at]) {
            lemma_scans_pass_items(bytes, first, bytes[at] == OPEN_BRACE, 1, 0);
        }
    } else {
        lemma_word_is_a_run(bytes, at);
    }
}

/// What follows a container's value ends it.
pub proof fn lemma_items_end_values(bytes: Seq<u8>, at: int, keyed: bool)
    requires
        items_shape(bytes, at, keyed) is Some,
    ensures
        ({
            let value = value_place(bytes, at, keyed)->0;
            let end = shape_end(bytes, value)->0;
            &&& 0 <= at <= value < end <= bytes.len()
            &&& value_end(bytes, value) == end
        }),
{
    let value = value_place(bytes, at, keyed)->0;
    let end = shape_end(bytes, value)->0;
    lemma_run_end(bytes, end, StopSet::Ws);
    if end < run_end(bytes, end, StopSet::Ws) {
        assert(!StopSet::Ws.stops(bytes[end]));
    }
    lemma_skip_passes_a_value(bytes, value);
}

/// The member walk reads an object of this shape to its end.
proof fn lemma_member_walk_reads_to_the_end(bytes: Seq<u8>, at: int, key: Seq<char>, matched: Option<int>)
    requires
        items_shape(bytes, at, true) is Some,
    ensures
        last_match(bytes, at, key, matched) matches Some((_, close)) && close + 1 == (items_shape(bytes, at, true)->0).close,
    decreases bytes.len() - at,
{
    lemma_items_end_values(bytes, at, true);
    lemma_string_shape(bytes, at + 1);
    let value = value_place(bytes, at, true)->0;
    let end = shape_end(bytes, value)->0;
    let next = run_end(bytes, end, StopSet::Ws);
    let quote = string_shape(bytes, at + 1)->0 - 1;
    let now = if unescaped(bytes.subrange(at + 1, quote)) == Some(key) {
        Some(value)
    } else {
        matched
    };
    if bytes[next] == COMMA {
        lemma_member_walk_reads_to_the_end(bytes, run_end(bytes, next + 1, StopSet::Ws), key, now);
    }
}

/// Every element of an array of this shape ends, to a filter, where it is skipped to.
pub proof fn lemma_filter_ends_where_the_skip_does(bytes: Seq<u8>, at: int, key: Seq<char>)
    requires
        items_shape(bytes, at, false) is Some,
    ensures
        element_member(bytes, at, key) matches Some((_, end)) ==> end == value_end(bytes, at),
{
    lemma_items_end_values(bytes, at, false);
    if bytes[at] == OPEN_BRACE {
        let first = run_end(bytes, at + 1, StopSet::Ws);
        if bytes[first] != CLOSE_BRACE {
            lemma_member_walk_reads_to_the_end(bytes, first, key, None);
        }
    }
}

/// A filter tests one member of each element that the unfiltered count counts.
proof fn lemma_filter_tests_what_is_counted(
    bytes: Seq<u8>,
    at: int,
    index: int,
    limits: (u64, Option<u64>),
    key: Seq<char>,
)
    requires
        bytes.len() <= usize::MAX,
        items_shape(bytes, at, false) is Some,
        members_from(bytes, at, index, limits, key) is Some,
    ensures
        counted_from(bytes, at, index, limits, seq![]) == Some(members_from(bytes, at, index, limits, key)->0.len()),
    decreases bytes.len() - at,
{
    lemma_items_end_values(bytes, at, false);
    lemma_filter_ends_where_the_skip_does(bytes, at, key);
    let end = value_end(bytes, at);
    let next = run_end(bytes, end, StopSet::Ws);
    if !past_window(index + 1, limits) && bytes[next] == COMMA {
        let more = run_end(bytes, next + 1, StopSet::Ws);
        lemma_scans_pass_items(bytes, more, false, 1, 0);
        lemma_filter_tests_what_is_counted(bytes, more, index + 1, limits, key);
    }
}

/// A filter never counts more than the unfiltered walk over the same range: on a strict array it tests exactly the members
/// of the elements that the walk counts, one each, and each answer counts for one at most.
pub proof fn lemma_filtered_count_is_no_larger(
    bytes: Seq<u8>,
    limits: (u64, Option<u64>),
    path: Seq<CountStep>,
    answers: Seq<Option<bool>>,
)
    requires
        0 < bytes.len() <= usize::MAX,
        bytes[0] == OPEN_BRACKET,
        shape_end(bytes, 0) is Some,
        tested_members(bytes, limits, path) is Some,
        answers.len() == tested_members(bytes, limits, path)->0.len(),
    ensures
        array_count(bytes, limits, seq![]) == Some(answers.len()),
        true_answers(answers, answers.len() as int) <= answers.len(),
{
    let first = run_end(bytes, 1, StopSet::Ws);
    if bytes[first] != CLOSE_BRACKET {
        if let CountStep::ObjectKey(key) = path[0] {
            lemma_filter_tests_what_is_counted(bytes, first, 0, limits, key@);
        }
    }
    lemma_true_answers(answers, answers.len() as int);
}

proof fn lemma_true_answers(answers: Seq<Option<bool>>, upto: int)
    ensures
        0 <= upto ==> true_answers(answers, upto) <= upto,
    decreases upto,
{
    if 0 < upto <= answers.len() {
        lemma_true_answers(answers, upto - 1);
    }
}

/// Where an array's walk goes on from one of its elements: to the next one, or to the closing bracket.
proof fn lemma_strict_step(bytes: Seq<u8>, at: int)
    requires
        bytes.len() <= usize::MAX,
        items_shape(bytes, at, false) is Some,
    ensures
        0 <= at < bytes.len(),
        bytes[at] != CLOSE_BRACKET,
        stepped(bytes, at) matches Some(next) && at < next && next < bytes.len() && (bytes[next] == CLOSE_BRACKET || items_shape(
            bytes,
            next,
            false,
        ) is Some),
        ({
            let end = run_end(bytes, value_end(bytes, at), StopSet::Ws);
            if bytes[end] == COMMA {
                &&& after_element(bytes, value_end(bytes, at)) == AfterElement::Next(stepped(bytes, at)->0 as usize)
                &&& items_shape(bytes, stepped(bytes, at)->0, false) is Some
            } else {
                &&& after_element(bytes, value_end(bytes, at)) == AfterElement::Close(stepped(bytes, at)->0 as usize)
                &&& bytes[stepped(bytes, at)->0] == CLOSE_BRACKET
            }
        }),
{
    lemma_items_end_values(bytes, at, false);
    let end = shape_end(bytes, at)->0;
    let next = run_end(bytes, end, StopSet::Ws);
    if bytes[next] == COMMA {
        lemma_scans_pass_items(bytes, run_end(bytes, next + 1, StopSet::Ws), false, 1, 0);
    }
}

/// A strict array's walk stands at an element or at the closing bracket, and never breaks off.
proof fn lemma_strict_walk(bytes: Seq<u8>, pos: int, count: nat)
    requires
        bytes.len() <= usize::MAX,
        items_shape(bytes, pos, false) is Some,
    ensures
        walked(bytes, pos, count) matches Some(at) ==> 0 <= at < bytes.len() && (bytes[at] == CLOSE_BRACKET || items_shape(
            bytes,
            at,
            false,
        ) is Some),
    decreases count,
{
    lemma_scans_pass_items(bytes, pos, false, 1, 0);
    if count > 0 {
        lemma_strict_walk(bytes, pos, (count - 1) as nat);
        if let Some(at) = walked(bytes, pos, (count - 1) as nat) {
            if bytes[at] != CLOSE_BRACKET {
                lemma_strict_step(bytes, at);
            }
        }
    }
}

/// Every strict array ends whole behind its last in-range element.
pub proof fn lemma_strict_arrays_end_whole(bytes: Seq<u8>, limits: (u64, Option<u64>))
    requires
        0 < bytes.len() <= usize::MAX,
        bytes[0] == OPEN_BRACKET,
        shape_end(bytes, 0) is Some,
        bytes[run_end(bytes, 1, StopSet::Ws)] != CLOSE_BRACKET,
    ensures
        window_ends_whole(bytes, run_end(bytes, 1, StopSet::Ws), limits),
{
    let pos = run_end(bytes, 1, StopSet::Ws);
    if let Some(end) = limits.1 {
        if end > 0 {
            lemma_strict_walk(bytes, pos, (end - 1) as nat);
            if let Some(last) = walked(bytes, pos, (end - 1) as nat) {
                if bytes[last] != CLOSE_BRACKET {
                    lemma_strict_step(bytes, last);
                }
            }
        }
    }
}

/// The ordinals from `index` up to `index + count` that are not skipped.
spec fn unskipped(index: int, count: nat, skip: u64) -> nat {
    if index >= skip {
        count
    } else if index + count > skip {
        (index + count - skip) as nat
    } else {
        0
    }
}

/// A walk that ends at the window's end or at the closing bracket has passed every element that is counted.
proof fn lemma_walk_passes_what_is_counted(
    bytes: Seq<u8>,
    at: int,
    index: int,
    limits: (u64, Option<u64>),
    count: nat,
)
    requires
        bytes.len() <= usize::MAX,
        items_shape(bytes, at, false) is Some,
        0 <= index,
        walked(bytes, at, count) matches Some(end) && (past_window(index + count, limits) || bytes[end] == CLOSE_BRACKET),
        limits.1 matches Some(last) ==> index + count <= last,
        count > 0,
    ensures
        counted_from(bytes, at, index, limits, seq![]) == Some(unskipped(index, count, limits.0)),
    decreases count,
{
    lemma_strict_step(bytes, at);
    let next = stepped(bytes, at)->0;
    assert(walked(bytes, at, 0) == Some(at));
    assert(walked(bytes, at, 1) == Some(next));
    if items_shape(bytes, next, false) is Some {
        lemma_strict_step(bytes, next);
    }
    if count > 1 {
        let rest = (count - 1) as nat;
        lemma_batches_lose_nothing(bytes, at, 1, rest);
        if bytes[next] == CLOSE_BRACKET {
            lemma_walk_stops_at_the_close(bytes, next, rest);
        } else {
            lemma_walk_passes_what_is_counted(bytes, next, index + 1, limits, rest);
        }
    }
}

/// No walk goes on from the closing bracket.
proof fn lemma_walk_stops_at_the_close(bytes: Seq<u8>, at: int, count: nat)
    requires
        0 <= at < bytes.len(),
        bytes[at] == CLOSE_BRACKET,
        count > 0,
    ensures
        walked(bytes, at, count) is None,
    decreases count,
{
    assert(walked(bytes, at, 0) == Some(at));
    if count > 1 {
        lemma_walk_stops_at_the_close(bytes, at, (count - 1) as nat);
    }
}

/// A pass over a strict array that completes has visited every in-range element: at the window's end or at the closing
/// bracket, as many elements were handed out as the array counts in range.
pub proof fn lemma_completed_pass_visited_every_element(bytes: Seq<u8>, limits: (u64, Option<u64>), walk: ElementWalk)
    requires
        0 < bytes.len() <= usize::MAX,
        bytes[0] == OPEN_BRACKET,
        shape_end(bytes, 0) is Some,
        bytes[run_end(bytes, 1, StopSet::Ws)] != CLOSE_BRACKET,
        walk.reached(bytes, run_end(bytes, 1, StopSet::Ws)),
        walk.limit == limits.1,
        walk.index >= limits.0,
        walk.visited == walk.index - limits.0,
        limits.1 matches Some(last) ==> walk.index <= last,
        batch_width(walk.index as int, walk.limit) == 0 || bytes[walk.pos as int] == CLOSE_BRACKET,
    ensures
        array_count(bytes, limits, seq![]) == Some(walk.visited as nat),
{
    let pos = run_end(bytes, 1, StopSet::Ws);
    lemma_scans_pass_items(bytes, pos, false, 1, 0);
    if walk.index > 0 {
        lemma_walk_passes_what_is_counted(bytes, pos, 0, limits, walk.index as nat);
    } else {
        lemma_strict_step(bytes, pos);
    }
}

} // verus!
