//! Reading a deferred container span without building it: skipping values, counting elements, and reading the strings and
//! decimal literals in it.
//!
//! The spans these walks read were proved to be one complete container text before they were deferred, so a shape a walk
//! cannot read is answered by DECLINING, never by guessing: the caller then builds the value and asks it instead.

use vstd::prelude::*;

use crate::ascii::{
    BACKSLASH, CLOSE_BRACE, CLOSE_BRACKET, COMMA, DOT, LOWER_E, LOWER_L, LOWER_N, LOWER_U, MINUS, NINE, OPEN_BRACE,
    OPEN_BRACKET, PLUS, QUOTE, UPPER_E, ZERO,
};
use vstd::utf8::{decode_first_scalar, decode_utf8, pop_first_scalar, valid_first_scalar, valid_utf8};

use crate::byte_scan::{continuation_count, lemma_starts_by_ranges, run_end, scan_to, special_second_violated, StopSet};
use crate::edit::{closer, opener};
use crate::encode_text::decode_scalar;
use crate::json_escape::{json_simple_unescape, simple_unescape};
use crate::lex::{hex, hex_value};
use crate::number::{digit_run_end, is_digit};
use crate::number_laws::digits_number;
use crate::text::{same_bytes, same_text};

verus! {

/// Where the string body at `at` closes: the index of its closing quote. An escape takes its second byte with it, and a
/// `\u` escape its four digits; a raw control byte ends no string.
pub open spec fn content_end(bytes: Seq<u8>, at: int) -> Option<int>
    decreases bytes.len() - at,
{
    if at < 0 || at >= bytes.len() {
        None
    } else if bytes[at] == QUOTE {
        Some(at)
    } else if bytes[at] == BACKSLASH {
        let width = if at + 1 < bytes.len() && bytes[at + 1] == LOWER_U {
            6int
        } else {
            2
        };
        if at + width <= bytes.len() {
            content_end(bytes, at + width)
        } else {
            None
        }
    } else if bytes[at] < 0x20 {
        None
    } else {
        content_end(bytes, at + 1)
    }
}

pub proof fn lemma_content_end(bytes: Seq<u8>, at: int)
    requires
        0 <= at,
    ensures
        content_end(bytes, at) matches Some(end) ==> at <= end < bytes.len() && bytes[end] == QUOTE,
    decreases bytes.len() - at,
{
    if at < bytes.len() {
        if bytes[at] == BACKSLASH {
            let width = if at + 1 < bytes.len() && bytes[at + 1] == LOWER_U {
                6int
            } else {
                2
            };
            if at + width <= bytes.len() {
                lemma_content_end(bytes, at + width);
            }
        } else if bytes[at] != QUOTE && bytes[at] >= 0x20 {
            lemma_content_end(bytes, at + 1);
        }
    }
}

/// Reads one string's raw content (between the opening and closing quotes) and the position one past the closing quote.
/// `None` when the token is not a well-formed string.
pub fn read_string_content(bytes: &[u8], pos: usize) -> (read: Option<(usize, &[u8])>)
    ensures
        match read {
            Some((end, raw)) => {
                &&& pos + 1 < end <= bytes.len()
                &&& bytes@[pos as int] == QUOTE
                &&& content_end(bytes@, pos + 1) == Some(end - 1)
                &&& raw@ == bytes@.subrange(pos + 1, end - 1)
            },
            None => pos >= bytes.len() || bytes@[pos as int] != QUOTE || content_end(bytes@, pos + 1) is None,
        },
{
    if pos >= bytes.len() || bytes[pos] != QUOTE {
        return None;
    }
    let mut cursor: usize = pos + 1;
    while cursor < bytes.len()
        invariant
            pos < cursor <= bytes.len(),
            bytes@[pos as int] == QUOTE,
            content_end(bytes@, pos + 1) == content_end(bytes@, cursor as int),
        decreases bytes.len() - cursor,
    {
        let byte = bytes[cursor];
        if byte == QUOTE {
            return Some((cursor + 1, vstd::slice::slice_subrange(bytes, pos + 1, cursor)));
        }
        if byte == BACKSLASH {
            // An escape: skip the backslash and its one escaped byte (or a `\u` sequence's six bytes).
            let width: usize = if bytes.len() - cursor > 1 && bytes[cursor + 1] == LOWER_U {
                6
            } else {
                2
            };
            if bytes.len() - cursor < width {
                return None;
            }
            cursor += width;
        } else if byte < 0x20 {
            return None;
        } else {
            cursor += 1;
        }
    }
    None
}

/// Where the container whose scan stands at `at`, inside `depth` open containers, ends: just past the closer that brings
/// the depth to zero. Every opener counts up and every closer down, whatever its kind: the span's brackets balance.
pub open spec fn nested_end(bytes: Seq<u8>, at: int, depth: nat) -> int
    decreases bytes.len() - at,
{
    if at < 0 || at >= bytes.len() {
        at
    } else if bytes[at] == QUOTE {
        match content_end(bytes, at + 1) {
            Some(end) => if at < end < bytes.len() {
                nested_end(bytes, end + 1, depth)
            } else {
                at
            },
            None => at,
        }
    } else if opener(bytes[at]) {
        nested_end(bytes, at + 1, depth + 1)
    } else if closer(bytes[at]) {
        if depth <= 1 {
            at + 1
        } else {
            nested_end(bytes, at + 1, (depth - 1) as nat)
        }
    } else {
        nested_end(bytes, at + 1, depth)
    }
}

/// Where the value whose first byte stands at `pos` ends.
pub open spec fn value_end(bytes: Seq<u8>, pos: int) -> int {
    if 0 <= pos < bytes.len() && bytes[pos] == QUOTE {
        match content_end(bytes, pos + 1) {
            Some(end) => end + 1,
            None => pos,
        }
    } else if 0 <= pos < bytes.len() && opener(bytes[pos]) {
        nested_end(bytes, pos, 0)
    } else {
        run_end(bytes, pos, StopSet::Delimiter)
    }
}

proof fn lemma_nested_end(bytes: Seq<u8>, at: int, depth: nat)
    requires
        0 <= at <= bytes.len(),
    ensures
        at <= nested_end(bytes, at, depth) <= bytes.len(),
    decreases bytes.len() - at,
{
    if at < bytes.len() {
        if bytes[at] == QUOTE {
            lemma_content_end(bytes, at + 1);
            if let Some(end) = content_end(bytes, at + 1) {
                lemma_nested_end(bytes, end + 1, depth);
            }
        } else if opener(bytes[at]) {
            lemma_nested_end(bytes, at + 1, depth + 1);
        } else if closer(bytes[at]) {
            if depth > 1 {
                lemma_nested_end(bytes, at + 1, (depth - 1) as nat);
            }
        } else {
            lemma_nested_end(bytes, at + 1, depth);
        }
    }
}

pub proof fn lemma_value_end(bytes: Seq<u8>, pos: int)
    requires
        0 <= pos <= bytes.len(),
    ensures
        pos <= value_end(bytes, pos) <= bytes.len(),
{
    lemma_content_end(bytes, pos + 1);
    lemma_nested_end(bytes, pos, 0);
    crate::byte_scan::lemma_run_end(bytes, pos, StopSet::Delimiter);
}

/// Skips one complete JSON value starting at `pos` (its first significant byte), returning the position one past its last
/// byte.
pub fn skip_value(bytes: &[u8], pos: usize) -> (end: usize)
    requires
        pos <= bytes.len(),
    ensures
        end == value_end(bytes@, pos as int),
        pos <= end <= bytes.len(),
{
    proof {
        lemma_value_end(bytes@, pos as int);
    }
    if pos >= bytes.len() {
        return pos;
    }
    match bytes[pos] {
        QUOTE => match read_string_content(bytes, pos) {
            Some((end, _)) => end,
            None => pos,
        },
        OPEN_BRACE | OPEN_BRACKET => {
            let mut depth: usize = 0;
            let mut cursor: usize = pos;
            while cursor < bytes.len()
                invariant
                    pos <= cursor <= bytes.len(),
                    depth <= cursor - pos,
                    value_end(bytes@, pos as int) == nested_end(bytes@, cursor as int, depth as nat),
                decreases bytes.len() - cursor,
            {
                match bytes[cursor] {
                    QUOTE => match read_string_content(bytes, cursor) {
                        Some((end, _)) => cursor = end,
                        None => return cursor,
                    },
                    OPEN_BRACKET | OPEN_BRACE => {
                        depth += 1;
                        cursor += 1;
                    }
                    CLOSE_BRACKET | CLOSE_BRACE => {
                        if depth <= 1 {
                            return cursor + 1;
                        }
                        depth -= 1;
                        cursor += 1;
                    }
                    _ => cursor += 1,
                }
            }
            cursor
        }
        // A bare word: true / false / null / a number. Skip to its delimiter.
        _ => scan_to(StopSet::Delimiter, bytes, pos),
    }
}

/// The position past the whitespace at `pos`.
pub fn skip_ws(bytes: &[u8], pos: usize) -> (at: usize)
    requires
        pos <= bytes.len(),
    ensures
        at == run_end(bytes@, pos as int, StopSet::Ws),
        pos <= at <= bytes.len(),
{
    scan_to(StopSet::Ws, bytes, pos)
}

/// What follows an array element.
#[derive(Clone, Copy, Debug, PartialEq, Eq, Structural)]
pub enum AfterElement {
    /// Another element, at this position.
    Next(usize),
    /// The closing bracket, at this position.
    Close(usize),
    /// Neither.
    Broken,
}

/// What follows the array element that ends at `end`.
pub open spec fn after_element(bytes: Seq<u8>, end: int) -> AfterElement {
    let at = run_end(bytes, end, StopSet::Ws);
    if at >= bytes.len() {
        AfterElement::Broken
    } else if bytes[at] == COMMA {
        let next = run_end(bytes, at + 1, StopSet::Ws);
        if next >= bytes.len() {
            AfterElement::Broken
        } else {
            AfterElement::Next(next as usize)
        }
    } else if bytes[at] == CLOSE_BRACKET {
        AfterElement::Close(at as usize)
    } else {
        AfterElement::Broken
    }
}

/// What follows the array element that ends at `end`.
pub fn step_over(bytes: &[u8], end: usize) -> (after: AfterElement)
    requires
        end <= bytes.len(),
    ensures
        after == after_element(bytes@, end as int),
        after matches AfterElement::Next(next) ==> end < next < bytes.len(),
        after matches AfterElement::Close(close) ==> end <= close < bytes.len() && bytes@[close as int] == CLOSE_BRACKET,
{
    let at = skip_ws(bytes, end);
    if at >= bytes.len() {
        return AfterElement::Broken;
    }
    match bytes[at] {
        COMMA => {
            let next = skip_ws(bytes, at + 1);
            if next >= bytes.len() {
                AfterElement::Broken
            } else {
                AfterElement::Next(next)
            }
        }
        CLOSE_BRACKET => AfterElement::Close(at),
        _ => AfterElement::Broken,
    }
}

/// One step of the path a count probes each element with.
#[derive(Debug)]
pub enum CountStep {
    /// A member by its key.
    ObjectKey(String),
    /// An element by its index.
    ArrayIndex(i64),
}

/// What a count comes to.
#[derive(Clone, Copy, Debug, PartialEq, Eq, Structural)]
pub enum CountVerdict {
    /// The count.
    Count(u64),
    /// The walk cannot tell.
    Decline,
}

/// The element ordinals a walk visits: from `skip` on, and before `limit` where there is one.
pub open spec fn window(range: Option<(Option<i64>, Option<i64>)>) -> (u64, Option<u64>) {
    match range {
        None => (0, None),
        Some((start, end)) => (
            match start {
                Some(start) => if start > 0 {
                    start as u64
                } else {
                    0
                },
                None => 0,
            },
            match end {
                Some(end) => Some(
                    if end > 0 {
                        end as u64
                    } else {
                        0
                    },
                ),
                None => None,
            },
        ),
    }
}

/// The skip/limit reading of a demand range: the element ordinals the walk visits are `[skip, limit)` — a `limit` of
/// `None` is the container edge. A negative bound reads as zero.
pub fn span_limits(range: Option<(Option<i64>, Option<i64>)>) -> (limits: (u64, Option<u64>))
    ensures
        limits == window(range),
{
    match range {
        None => (0, None),
        Some((start, end)) => {
            let skip = match start {
                Some(start) => clamped(start),
                None => 0,
            };
            let limit = match end {
                Some(end) => Some(clamped(end)),
                None => None,
            };
            (skip, limit)
        }
    }
}

/// A bound, or zero for a negative one.
fn clamped(bound: i64) -> (value: u64)
    ensures
        value == if bound > 0 {
            bound as u64
        } else {
            0
        },
{
    if bound > 0 {
        bound as u64
    } else {
        0
    }
}

/// Whether element `index` is in the window.
pub open spec fn in_window(index: int, limits: (u64, Option<u64>)) -> bool {
    index >= limits.0 && (limits.1 matches Some(end) ==> index < end)
}

/// Whether the window holds nothing from element `index` on.
pub open spec fn past_window(index: int, limits: (u64, Option<u64>)) -> bool {
    limits.1 matches Some(end) && index >= end
}

/// Whether `null` is spelled out at `at`.
pub open spec fn null_at(bytes: Seq<u8>, at: int) -> bool {
    at + 4 <= bytes.len() && bytes[at] == LOWER_N && bytes[at + 1] == LOWER_U && bytes[at + 2] == LOWER_L && bytes[at + 3]
        == LOWER_L
}

/// Whether `null` is spelled out at `at`.
pub fn spells_null(bytes: &[u8], at: usize) -> (null: bool)
    requires
        at <= bytes.len(),
    ensures
        null == null_at(bytes@, at as int),
{
    bytes.len() - at >= 4 && bytes[at] == LOWER_N && bytes[at + 1] == LOWER_U && bytes[at + 2] == LOWER_L && bytes[at + 3]
        == LOWER_L
}

/// Whether a probe counts the element that starts at `pos`: any element under an empty probe, and an object or null under
/// a one-key probe. Any other probe or element is declined.
pub open spec fn probe_counts(bytes: Seq<u8>, pos: int, probe: Seq<CountStep>) -> bool {
    ||| probe.len() == 0
    ||| probe.len() == 1 && probe[0] is ObjectKey && 0 <= pos < bytes.len() && (bytes[pos] == OPEN_BRACE || null_at(
        bytes,
        pos,
    ))
}

/// How many elements in the window a probe counts, from the one at `pos` with ordinal `index` on; `None` where the walk
/// cannot tell.
pub open spec fn counted_from(
    bytes: Seq<u8>,
    pos: int,
    index: int,
    limits: (u64, Option<u64>),
    probe: Seq<CountStep>,
) -> Option<nat>
    decreases bytes.len() - pos,
    when 0 <= pos <= bytes.len() <= usize::MAX
    via counted_from_decreases
{
    let own: nat = if in_window(index, limits) {
        1
    } else {
        0
    };
    if in_window(index, limits) && !probe_counts(bytes, pos, probe) {
        None
    } else if past_window(index + 1, limits) {
        Some(own)
    } else {
        match after_element(bytes, value_end(bytes, pos)) {
            AfterElement::Next(next) => match counted_from(bytes, next as int, index + 1, limits, probe) {
                Some(rest) => Some(own + rest),
                None => None,
            },
            AfterElement::Close(_) => Some(own),
            AfterElement::Broken => None,
        }
    }
}

#[via_fn]
proof fn counted_from_decreases(
    bytes: Seq<u8>,
    pos: int,
    index: int,
    limits: (u64, Option<u64>),
    probe: Seq<CountStep>,
) {
    lemma_value_end(bytes, pos);
    lemma_after_element(bytes, value_end(bytes, pos));
}

pub proof fn lemma_after_element(bytes: Seq<u8>, end: int)
    requires
        0 <= end <= bytes.len() <= usize::MAX,
    ensures
        after_element(bytes, end) matches AfterElement::Next(next) ==> end < next < bytes.len(),
{
    crate::byte_scan::lemma_run_end(bytes, end, StopSet::Ws);
    let at = run_end(bytes, end, StopSet::Ws);
    if at < bytes.len() {
        crate::byte_scan::lemma_run_end(bytes, at + 1, StopSet::Ws);
    }
}

/// What counting an array span comes to.
pub open spec fn array_count(
    bytes: Seq<u8>,
    limits: (u64, Option<u64>),
    probe: Seq<CountStep>,
) -> Option<nat> {
    let pos = run_end(bytes, 1, StopSet::Ws);
    if pos >= bytes.len() || bytes[pos] == CLOSE_BRACKET {
        Some(0)
    } else {
        counted_from(bytes, pos, 0, limits, probe)
    }
}

/// Counts an ARRAY span's in-range top-level elements under a count probe: a byte scan that never builds a leaf. The
/// range cuts the out-of-range elements before the count, so their category is irrelevant, and a container shorter than
/// the range's start counts 0. An empty probe counts every in-range element; a one-key probe counts an object (an absent
/// member is null, still exactly one output) and a null, and declines any other category; every other probe declines.
/// Null is matched by its exact spelling: the non-finite spellings share its leading byte and are numbers.
///
/// The bytes must be STRICT-grammar valid: a trailing comma would count as one more element.
pub fn count_array_span(bytes: &[u8], range: Option<(Option<i64>, Option<i64>)>, probe: &Vec<CountStep>) -> (verdict:
    CountVerdict)
    requires
        bytes.len() > 0,
    ensures
        verdict == match array_count(bytes@, window(range), probe@) {
            Some(count) => CountVerdict::Count(count as u64),
            None => CountVerdict::Decline,
        },
{
    // The span starts with `[`; walk past it and the leading whitespace.
    let mut pos: usize = skip_ws(bytes, 1);
    if pos >= bytes.len() || bytes[pos] == CLOSE_BRACKET {
        return CountVerdict::Count(0);
    }
    let limits = span_limits(range);
    let mut index: u64 = 0;
    let mut total: u64 = 0;
    loop
        invariant
            pos < bytes.len(),
            limits == window(range),
            index <= pos,
            total <= index,
            array_count(bytes@, limits, probe@) == match counted_from(bytes@, pos as int, index as int, limits, probe@) {
                Some(rest) => Some((total + rest) as nat),
                None => None,
            },
        decreases bytes.len() - pos,
    {
        let in_range = index >= limits.0 && match limits.1 {
            Some(end) => index < end,
            None => true,
        };
        if in_range {
            let counts = if probe.len() == 0 {
                true
            } else if probe.len() == 1 {
                match &probe[0] {
                    CountStep::ObjectKey(_) => bytes[pos] == OPEN_BRACE || spells_null(bytes, pos),
                    CountStep::ArrayIndex(_) => false,
                }
            } else {
                false
            };
            if !counts {
                return CountVerdict::Decline;
            }
            total += 1;
        }
        let end = skip_value(bytes, pos);
        index += 1;
        if let Some(last) = limits.1 {
            if index >= last {
                return CountVerdict::Count(total);
            }
        }
        match step_over(bytes, end) {
            AfterElement::Next(next) => pos = next,
            AfterElement::Close(_) => return CountVerdict::Count(total),
            AfterElement::Broken => return CountVerdict::Decline,
        }
    }
}

/// The four hex digits at `start`.
pub open spec fn hex4_value(raw: Seq<u8>, start: int) -> Option<int> {
    if start < 0 || start + 4 > raw.len() {
        None
    } else {
        match (hex_value(raw[start]), hex_value(raw[start + 1]), hex_value(raw[start + 2]), hex_value(raw[start + 3])) {
            (Some(a), Some(b), Some(c), Some(d)) => Some(a * 4096 + b * 256 + c * 16 + d),
            _ => None,
        }
    }
}

/// What the string escape at the start of `raw` stands for, and how many bytes it takes: a short form, a `\u` unit, or a
/// surrogate pair of them. A lone low surrogate stands for U+FFFD; a high surrogate without its low half for nothing.
pub open spec fn escape_at(raw: Seq<u8>) -> Option<(char, int)> {
    if raw.len() < 2 {
        None
    } else if raw[1] == LOWER_U {
        match hex4_value(raw, 2) {
            Some(high) => if 0xd800 <= high <= 0xdbff {
                if raw.len() >= 8 && raw[6] == BACKSLASH && raw[7] == LOWER_U {
                    match hex4_value(raw, 8) {
                        Some(low) => if 0xdc00 <= low <= 0xdfff {
                            Some(((0x10000 + (high - 0xd800) * 0x400 + (low - 0xdc00)) as char, 12))
                        } else {
                            None
                        },
                        None => None,
                    }
                } else {
                    None
                }
            } else if 0xdc00 <= high <= 0xdfff {
                Some(('\u{fffd}', 6))
            } else {
                Some((high as char, 6))
            },
            None => None,
        }
    } else {
        match simple_unescape(raw[1]) {
            Some(character) => Some((character, 2)),
            None => None,
        }
    }
}

/// The text that raw string content spells: its characters, with escapes decoded. `None` where an escape or the UTF-8 is
/// malformed.
pub open spec fn unescaped(raw: Seq<u8>) -> Option<Seq<char>>
    decreases raw.len(),
{
    if raw.len() == 0 {
        Some(seq![])
    } else if raw[0] == BACKSLASH {
        match escape_at(raw) {
            Some((character, width)) => if 0 < width <= raw.len() {
                match unescaped(raw.skip(width)) {
                    Some(rest) => Some(seq![character] + rest),
                    None => None,
                }
            } else {
                None
            },
            None => None,
        }
    } else if valid_first_scalar(raw) {
        match unescaped(pop_first_scalar(raw)) {
            Some(rest) => Some(seq![decode_first_scalar(raw) as char] + rest),
            None => None,
        }
    } else {
        None
    }
}

/// Reads four hex digits at `start`, or `None`.
pub fn hex4(raw_content: &[u8], start: usize) -> (value: Option<u32>)
    ensures
        match value {
            Some(value) => hex4_value(raw_content@, start as int) == Some(value as int) && value <= 0xffff,
            None => hex4_value(raw_content@, start as int) is None,
        },
{
    if start > raw_content.len() || raw_content.len() - start < 4 {
        return None;
    }
    match (hex(raw_content[start]), hex(raw_content[start + 1]), hex(raw_content[start + 2]), hex(raw_content[start + 3]))
    {
        (Some(a), Some(b), Some(c), Some(d)) => Some(a as u32 * 4096 + b as u32 * 256 + c as u32 * 16 + d as u32),
        _ => None,
    }
}

/// Decodes the escape at `at`: the character, and how many bytes the escape takes.
fn read_escape(raw: &[u8], at: usize) -> (read: Option<(char, usize)>)
    requires
        at <= raw.len(),
    ensures
        match read {
            Some((character, width)) => escape_at(raw@.skip(at as int)) == Some((character, width as int)) && 0 < width
                <= raw.len() - at,
            None => escape_at(raw@.skip(at as int)) is None,
        },
{
    let ghost rest = raw@.skip(at as int);
    if raw.len() - at < 2 {
        return None;
    }
    assert(rest[1] == raw@[at + 1]);
    if raw[at + 1] != LOWER_U {
        return match json_simple_unescape(raw[at + 1]) {
            Some(character) => Some((character, 2)),
            None => None,
        };
    }
    proof {
        assert(hex4_value(rest, 2) == hex4_value(raw@, at + 2)) by {
            if at + 6 <= raw@.len() {
                assert(rest[2] == raw@[at + 2] && rest[3] == raw@[at + 3] && rest[4] == raw@[at + 4] && rest[5]
                    == raw@[at + 5]);
            }
        }
        assert(at + 8 <= raw@.len() ==> hex4_value(rest, 8) == hex4_value(raw@, at + 8)) by {
            if at + 12 <= raw@.len() {
                assert(rest[8] == raw@[at + 8] && rest[9] == raw@[at + 9] && rest[10] == raw@[at + 10] && rest[11]
                    == raw@[at + 11]);
            }
        }
    }
    let high = match hex4(raw, at + 2) {
        Some(high) => high,
        None => return None,
    };
    if 0xd800 <= high && high <= 0xdbff {
        // A high surrogate must pair with \uDC00..\uDFFF next.
        if raw.len() - at < 8 {
            return None;
        }
        assert(rest[6] == raw@[at + 6] && rest[7] == raw@[at + 7]);
        if raw[at + 6] != BACKSLASH || raw[at + 7] != LOWER_U {
            return None;
        }
        let low = match hex4(raw, at + 8) {
            Some(low) => low,
            None => return None,
        };
        if low < 0xdc00 || low > 0xdfff {
            return None;
        }
        return match char::from_u32(0x1_0000 + (high - 0xd800) * 0x400 + (low - 0xdc00)) {
            Some(character) => Some((character, 12)),
            None => None,
        };
    }
    if 0xdc00 <= high && high <= 0xdfff {
        return Some(('\u{fffd}', 6));
    }
    match char::from_u32(high) {
        Some(character) => Some((character, 6)),
        None => None,
    }
}

/// Whether a scalar starts at `at`.
fn scalar_starts(raw: &[u8], at: usize) -> (starts: bool)
    requires
        at < raw.len(),
    ensures
        starts == valid_first_scalar(raw@.skip(at as int)),
{
    let ghost rest = raw@.skip(at as int);
    proof {
        lemma_starts_by_ranges(rest);
        assert(rest[0] == raw@[at as int]);
    }
    let first = raw[at];
    if first < 0x80 {
        return true;
    }
    let total = match continuation_count(first) {
        Some(total) => total,
        None => return false,
    };
    if raw.len() - at <= total {
        return false;
    }
    let second = raw[at + 1];
    assert(rest[1] == second);
    if second < 0x80 || second > 0xbf || special_second_violated(first, second) {
        return false;
    }
    if total >= 2 {
        assert(rest[2] == raw@[at + 2]);
        if raw[at + 2] < 0x80 || raw[at + 2] > 0xbf {
            return false;
        }
    }
    if total >= 3 {
        assert(rest[3] == raw@[at + 3]);
        if raw[at + 3] < 0x80 || raw[at + 3] > 0xbf {
            return false;
        }
    }
    true
}

/// Decodes raw JSON string content (between the quotes) into owned text. `None` on any escape the grammar forbids, a
/// broken surrogate pair, or bytes that are not UTF-8.
pub fn unescape_string(raw_content: &[u8]) -> (text: Option<String>)
    ensures
        match text {
            Some(text) => unescaped(raw_content@) == Some(text@),
            None => unescaped(raw_content@) is None,
        },
{
    let mut out = String::new();
    let mut cursor: usize = 0;
    assert(raw_content@.skip(0) =~= raw_content@);
    assert(out@ =~= seq![]);
    proof {
        if let Some(all) = unescaped(raw_content@) {
            assert(out@ + all =~= all);
        }
    }
    while cursor < raw_content.len()
        invariant
            cursor <= raw_content.len(),
            unescaped(raw_content@) == match unescaped(raw_content@.skip(cursor as int)) {
                Some(rest) => Some(out@ + rest),
                None => None,
            },
        decreases raw_content.len() - cursor,
    {
        let ghost rest = raw_content@.skip(cursor as int);
        let ghost before = out@;
        assert(rest[0] == raw_content@[cursor as int]);
        let (character, width) = if raw_content[cursor] == BACKSLASH {
            match read_escape(raw_content, cursor) {
                Some(read) => read,
                None => return None,
            }
        } else {
            if !scalar_starts(raw_content, cursor) {
                return None;
            }
            let (codepoint, width) = decode_scalar(raw_content, cursor);
            let character = match char::from_u32(codepoint) {
                Some(character) => character,
                None => {
                    proof {
                        lemma_first_scalar_is_a_character(rest);
                    }
                    return None;
                }
            };
            assert(pop_first_scalar(rest) =~= rest.skip(width as int));
            (character, width)
        };
        out.push(character);
        proof {
            let tail = rest.skip(width as int);
            assert(tail =~= raw_content@.skip(cursor + width));
            if let Some(more) = unescaped(tail) {
                assert(out@ + more =~= before + (seq![character] + more));
            }
        }
        cursor += width;
    }
    assert(raw_content@.skip(cursor as int) =~= seq![]);
    assert(out@ + Seq::<char>::empty() =~= out@);
    Some(out)
}

/// A text's first scalar is a Unicode scalar value.
pub proof fn lemma_first_scalar_is_a_character(bytes: Seq<u8>)
    requires
        valid_first_scalar(bytes),
    ensures
        vstd::utf8::is_scalar(decode_first_scalar(bytes)),
{
    lemma_starts_by_ranges(bytes);
    let (a, b) = (bytes[0], bytes[1]);
    if 0xc0 <= a <= 0xdf {
        assert((((a & 0x1f) as u32) << 6 | ((b & 0x3f) as u32)) <= 0x7ff) by (bit_vector);
    } else if 0xe0 <= a <= 0xef {
        let c = bytes[2];
        assert((((a & 0x0f) as u32) << 12 | ((b & 0x3f) as u32) << 6 | ((c & 0x3f) as u32)) <= 0xffff) by (bit_vector);
    } else if a < 0x80 {
        assert((a & 0x7f) as u32 <= 0x7f) by (bit_vector);
    }
}

/// Content without a backslash is its own text.
pub proof fn lemma_plain_content_is_its_text(raw: Seq<u8>)
    requires
        forall|i: int| 0 <= i < raw.len() ==> #[trigger] raw[i] != BACKSLASH,
    ensures
        unescaped(raw) == if valid_utf8(raw) {
            Some(decode_utf8(raw))
        } else {
            None
        },
    decreases raw.len(),
{
    if raw.len() > 0 && valid_first_scalar(raw) {
        let rest = pop_first_scalar(raw);
        lemma_starts_by_ranges(raw);
        assert forall|i: int| 0 <= i < rest.len() implies #[trigger] rest[i] != BACKSLASH by {
            assert(rest[i] == raw[i + (raw.len() - rest.len())]);
        }
        assert(raw[0] != BACKSLASH);
        lemma_plain_content_is_its_text(rest);
    } else if raw.len() > 0 {
        assert(raw[0] != BACKSLASH);
    }
}

/// Whether `bytes` holds a backslash.
fn holds_backslash(bytes: &[u8]) -> (holds: bool)
    ensures
        !holds ==> forall|i: int| 0 <= i < bytes.len() ==> #[trigger] bytes@[i] != BACKSLASH,
{
    let mut i: usize = 0;
    while i < bytes.len()
        invariant
            i <= bytes.len(),
            forall|k: int| 0 <= k < i ==> #[trigger] bytes@[k] != BACKSLASH,
        decreases bytes.len() - i,
    {
        if bytes[i] == BACKSLASH {
            return true;
        }
        i += 1;
    }
    false
}

/// Whether one raw JSON string content decodes to exactly `expected`. Content without an escape is compared byte for
/// byte.
pub fn decoded_is(raw_content: &[u8], expected: &str) -> (same: bool)
    ensures
        same == (unescaped(raw_content@) == Some(expected@)),
{
    if !holds_backslash(raw_content) {
        proof {
            lemma_plain_content_is_its_text(raw_content@);
            vstd::utf8::encode_utf8_decode_utf8(expected@);
            vstd::utf8::encode_utf8_valid_utf8(expected@);
            if valid_utf8(raw_content@) {
                vstd::utf8::decode_utf8_encode_utf8(raw_content@);
            }
        }
        return same_bytes(raw_content, expected.as_bytes());
    }
    match unescape_string(raw_content) {
        Some(decoded) => same_text(decoded.as_str(), expected),
        None => false,
    }
}

/// The largest exponent magnitude a literal's scale is read with.
pub const MAX_SCALE_EXPONENT: u64 = 1_000_000_000_000;

/// Where a literal's magnitude starts: past its sign.
pub open spec fn magnitude_start(literal: Seq<u8>) -> int {
    if literal.len() > 0 && literal[0] == MINUS {
        1
    } else {
        0
    }
}

/// Where a literal's coefficient ends: past its integer digits and, behind a point, its fraction digits.
pub open spec fn coefficient_end(literal: Seq<u8>) -> int {
    let whole = digit_run_end(literal, magnitude_start(literal));
    if 0 <= whole < literal.len() && literal[whole] == DOT {
        digit_run_end(literal, whole + 1)
    } else {
        whole
    }
}

/// How many digits a literal's fraction has.
pub open spec fn fraction_len(literal: Seq<u8>) -> int {
    let whole = digit_run_end(literal, magnitude_start(literal));
    if 0 <= whole < literal.len() && literal[whole] == DOT {
        digit_run_end(literal, whole + 1) - whole - 1
    } else {
        0
    }
}

/// Whether an exponent marker stands at `at`.
pub open spec fn marker_at(literal: Seq<u8>, at: int) -> bool {
    0 <= at < literal.len() && (literal[at] == LOWER_E || literal[at] == UPPER_E)
}

/// Where a literal's exponent digits start: past the marker and its sign.
pub open spec fn exponent_start(literal: Seq<u8>) -> int {
    let marker = coefficient_end(literal);
    if marker + 1 < literal.len() && (literal[marker + 1] == PLUS || literal[marker + 1] == MINUS) {
        marker + 2
    } else {
        marker + 1
    }
}

/// A literal's explicit exponent; `None` where it has no digits or is too large to carry.
pub open spec fn literal_exponent(literal: Seq<u8>) -> Option<int> {
    let marker = coefficient_end(literal);
    if marker_at(literal, marker) {
        let start = exponent_start(literal);
        let end = digit_run_end(literal, start);
        let value = digits_number(literal.subrange(start, end)) as int;
        if end == start || value > MAX_SCALE_EXPONENT {
            None
        } else if literal[marker + 1] == MINUS {
            Some(-value)
        } else {
            Some(value)
        }
    } else {
        Some(0)
    }
}

/// Where a literal ends: past its exponent where it has one.
pub open spec fn literal_end(literal: Seq<u8>) -> int {
    if marker_at(literal, coefficient_end(literal)) {
        digit_run_end(literal, exponent_start(literal))
    } else {
        coefficient_end(literal)
    }
}

/// A literal's sign and scale: the fraction's digit count less the exponent.
pub open spec fn literal_parts(literal: Seq<u8>) -> Option<(bool, int)> {
    match literal_exponent(literal) {
        Some(exponent) => {
            let scale = fraction_len(literal) - exponent;
            if literal_end(literal) == literal.len() && fraction_len(literal) <= i64::MAX && i64::MIN <= scale
                <= i64::MAX {
                Some((magnitude_start(literal) == 1, scale))
            } else {
                None
            }
        },
        None => None,
    }
}

/// End of the digit run from `from`.
fn skip_digits(literal: &[u8], from: usize) -> (end: usize)
    requires
        from <= literal.len(),
    ensures
        end == digit_run_end(literal@, from as int),
        from <= end <= literal.len(),
        forall|i: int| from <= i < end ==> is_digit(#[trigger] literal@[i]),
{
    let mut end: usize = from;
    while end < literal.len() && ZERO <= literal[end] && literal[end] <= NINE
        invariant
            from <= end <= literal.len(),
            digit_run_end(literal@, from as int) == digit_run_end(literal@, end as int),
            forall|i: int| from <= i < end ==> is_digit(#[trigger] literal@[i]),
        decreases literal.len() - end,
    {
        end += 1;
    }
    end
}

/// More digits never spell a smaller number.
proof fn lemma_more_digits_are_no_less(digits: Seq<u8>, upto: int)
    requires
        0 <= upto <= digits.len(),
        forall|i: int| 0 <= i < digits.len() ==> is_digit(#[trigger] digits[i]),
    ensures
        digits_number(digits.take(upto)) <= digits_number(digits),
    decreases digits.len(),
{
    if upto == digits.len() {
        assert(digits.take(upto) =~= digits);
    } else {
        let head = digits.drop_last();
        assert(head.take(upto) =~= digits.take(upto));
        lemma_more_digits_are_no_less(head, upto);
        assert(is_digit(digits[digits.len() - 1]));
    }
}

/// The number that the digits from `start` to `end` spell, or `None` past the largest exponent that is read.
fn bounded_number(literal: &[u8], start: usize, end: usize) -> (value: Option<u64>)
    requires
        start <= end <= literal.len(),
        forall|i: int| start <= i < end ==> is_digit(#[trigger] literal@[i]),
    ensures
        ({
            let number = digits_number(literal@.subrange(start as int, end as int));
            match value {
                Some(value) => value == number && number <= MAX_SCALE_EXPONENT,
                None => number > MAX_SCALE_EXPONENT,
            }
        }),
{
    let ghost digits = literal@.subrange(start as int, end as int);
    let mut value: u64 = 0;
    let mut at: usize = start;
    assert(digits.take(0) =~= seq![]);
    while at < end
        invariant
            start <= at <= end <= literal.len(),
            digits == literal@.subrange(start as int, end as int),
            forall|i: int| start <= i < end ==> is_digit(#[trigger] literal@[i]),
            value == digits_number(digits.take(at - start)),
            value <= MAX_SCALE_EXPONENT,
        decreases end - at,
    {
        assert(is_digit(literal@[at as int]));
        value = value * 10 + (literal[at] - ZERO) as u64;
        at += 1;
        proof {
            assert(digits.take(at - start).drop_last() =~= digits.take(at - 1 - start));
            assert(digits.take(at - start).last() == literal@[at - 1]);
            assert forall|i: int| 0 <= i < digits.len() implies is_digit(#[trigger] digits[i]) by {
                assert(digits[i] == literal@[start + i]);
            }
            lemma_more_digits_are_no_less(digits, at - start);
        }
        if value > MAX_SCALE_EXPONENT {
            return None;
        }
    }
    assert(digits.take(at - start) =~= digits);
    Some(value)
}

/// Where a literal's integer digits end, and where its coefficient does.
pub fn coefficient_span(literal: &[u8]) -> (span: (usize, usize))
    ensures
        span.0 == digit_run_end(literal@, magnitude_start(literal@)),
        span.1 == coefficient_end(literal@),
        span.0 <= span.1 <= literal.len(),
        fraction_len(literal@) == if span.0 < span.1 {
            span.1 - span.0 - 1
        } else {
            0
        },
{
    let first: usize = if literal.len() > 0 && literal[0] == MINUS {
        1
    } else {
        0
    };
    let whole = skip_digits(literal, first);
    if whole < literal.len() && literal[whole] == DOT {
        (whole, skip_digits(literal, whole + 1))
    } else {
        (whole, whole)
    }
}

/// The sign and scale of a JSON number literal: scale is the fraction's digit count minus the exponent. An exponent too
/// large to carry, or any spelling that is no number, declines.
pub fn decimal_parts(literal: &[u8]) -> (parts: Option<(bool, i64)>)
    ensures
        match parts {
            Some((negative, scale)) => literal_parts(literal@) == Some((negative, scale as int)),
            None => literal_parts(literal@) is None,
        },
{
    let negative = literal.len() > 0 && literal[0] == MINUS;
    let (whole, end) = coefficient_span(literal);
    let fraction: usize = if whole < end {
        end - whole - 1
    } else {
        0
    };
    let mut cursor: usize = end;
    let mut exponent: i64 = 0;
    if cursor < literal.len() && (literal[cursor] == LOWER_E || literal[cursor] == UPPER_E) {
        let marker = cursor;
        let signed = marker < literal.len() - 1 && (literal[marker + 1] == PLUS || literal[marker + 1] == MINUS);
        let start = if signed {
            marker + 2
        } else {
            marker + 1
        };
        assert(start == exponent_start(literal@));
        cursor = skip_digits(literal, start);
        if cursor == start {
            return None;
        }
        let magnitude = match bounded_number(literal, start, cursor) {
            Some(magnitude) => magnitude as i64,
            None => return None,
        };
        exponent = if literal[marker + 1] == MINUS {
            -magnitude
        } else {
            magnitude
        };
    }
    assert(literal_exponent(literal@) == Some(exponent as int));
    if cursor != literal.len() || fraction as u64 > i64::MAX as u64 {
        return None;
    }
    match (fraction as i64).checked_sub(exponent) {
        Some(scale) => Some((negative, scale)),
        None => None,
    }
}

/// The kind of a deferred container.
#[derive(Clone, Copy, Debug, PartialEq, Eq, Structural)]
pub enum ContainerSpanKind {
    /// An array.
    Array,
    /// An object.
    Object,
}

/// Counts a deferred container's elements. An object's member count needs the duplicate-key law over the raw key text,
/// which only the built value answers: an object declines.
pub fn count_span(
    bytes: &[u8],
    container: ContainerSpanKind,
    range: Option<(Option<i64>, Option<i64>)>,
    probe: &Vec<CountStep>,
) -> (verdict: CountVerdict)
    requires
        container == ContainerSpanKind::Array ==> bytes.len() > 0,
    ensures
        verdict == match container {
            ContainerSpanKind::Array => match array_count(bytes@, window(range), probe@) {
                Some(count) => CountVerdict::Count(count as u64),
                None => CountVerdict::Decline,
            },
            ContainerSpanKind::Object => CountVerdict::Decline,
        },
{
    match container {
        ContainerSpanKind::Array => count_array_span(bytes, range, probe),
        ContainerSpanKind::Object => CountVerdict::Decline,
    }
}

} // verus!
