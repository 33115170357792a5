//! The commented-JSON edit splice: strict JSON's, with scans that know comments. JSON5 shares it.
//!
//! - A grown container splices its new members after its last one. A trailing comment block after the last member is not
//!   part of the separator, so new members land BEFORE it and the comment stays a trailer.
//! - A shrunk container cuts the member with one adjacent comma and its owned whitespace, extended up through the member's
//!   own leading comment block.
//! - A seam the scan cannot name — a block comment before the member, an unterminated region — declines.

use vstd::prelude::*;

use crate::ascii::{
    APOSTROPHE, CLOSE_BRACE, CLOSE_BRACKET, COLON, COMMA, CR, LF, OPEN_BRACE, OPEN_BRACKET, QUOTE, SLASH, SPACE, STAR,
    TAB,
};

use crate::byte_scan::{block_close, is_json_ws, json_ws, lemma_run_end, line_end, run_end, scan_to, StopSet};
use crate::edit::{
    append_text, breaks_line, closer, closer_of, find_string_close, first_cut_end, first_member_cut_end,
    has_line_break, key_start_is, last_member_indent, lemma_member_start_is_unique, lemma_token_stays_inside,
    member_indent, member_key_start, member_start_is, opener, string_close, through_final_line_break,
    through_last_break, token_extent, value_extent, EditAppendMembers, EditInsertion, EditRemoval, EditRemoveMembers,
    GrowthPlan, Span,
};
use crate::edit_support::{back_to_line, walk_back_to_line};
use crate::encode_text::push_all;
use crate::error::CodecFailureKind;
use crate::jsonc::seam::{find_seam, find_trivia_end, lemma_seam_is_trivia, seam_before, trivia_between, trivia_end};

verus! {

/// Whether `byte` ends a bare word: JSON whitespace, a comma or colon, any container delimiter, a quote, or a slash.
pub open spec fn ends_word(byte: u8) -> bool {
    ||| json_ws(byte)
    ||| byte == COMMA
    ||| byte == COLON
    ||| opener(byte)
    ||| closer(byte)
    ||| byte == QUOTE
    ||| byte == APOSTROPHE
    ||| byte == SLASH
}

/// Whether `byte` ends a bare JSON word (`true`, `false`, `null`, a number): JSON whitespace, a comma or colon, any
/// container delimiter, a quote, or a comment open. Every stop is a byte the scan's structured arms own.
pub fn delimiter_hit(byte: u8) -> (ends: bool)
    ensures
        ends == ends_word(byte),
{
    is_json_ws(byte) || matches!(byte, COMMA | COLON | OPEN_BRACE | OPEN_BRACKET | CLOSE_BRACE | CLOSE_BRACKET | QUOTE | APOSTROPHE | SLASH)
}

/// End of the bare word from `from`.
pub open spec fn word_end(source: Seq<u8>, from: int) -> int
    decreases source.len() - from,
{
    if 0 <= from < source.len() && !ends_word(source[from]) {
        word_end(source, from + 1)
    } else {
        from
    }
}

/// A container's region: just past its closing delimiter, and just past the last value it holds.
pub struct Region {
    pub close: int,
    pub value_end: int,
}

/// The scan of a container from `at`, inside `depth` open containers, with the last value of the outermost ending at
/// `value_end` so far. Strings of either quote and comments are skipped whole.
pub open spec fn region_from(source: Seq<u8>, at: int, depth: nat, value_end: int) -> Option<Region>
    decreases source.len() - at,
    when 0 <= at
    via region_from_decreases
{
    if at >= source.len() {
        None
    } else if source[at] == QUOTE || source[at] == APOSTROPHE {
        match string_close(source, at + 1, source[at]) {
            Some(end) => region_from(
                source,
                end,
                depth,
                if depth == 1 {
                    end
                } else {
                    value_end
                },
            ),
            None => None,
        }
    } else if source[at] == SLASH && at + 1 < source.len() && source[at + 1] == SLASH {
        region_from(source, line_end(source, at + 2), depth, value_end)
    } else if source[at] == SLASH && at + 1 < source.len() && source[at + 1] == STAR {
        let end = block_close(source, at + 2);
        if end < source.len() {
            region_from(source, end + 2, depth, value_end)
        } else {
            None
        }
    } else if opener(source[at]) {
        region_from(source, at + 1, depth + 1, value_end)
    } else if closer(source[at]) {
        if depth == 0 {
            None
        } else if depth == 1 {
            Some(Region { close: at + 1, value_end })
        } else {
            region_from(
                source,
                at + 1,
                (depth - 1) as nat,
                if depth == 2 {
                    at + 1
                } else {
                    value_end
                },
            )
        }
    } else if source[at] == COMMA || source[at] == COLON || json_ws(source[at]) {
        region_from(source, at + 1, depth, value_end)
    } else {
        let end = word_end(source, at);
        if end > at {
            region_from(
                source,
                end,
                depth,
                if depth == 1 {
                    end
                } else {
                    value_end
                },
            )
        } else {
            None
        }
    }
}

#[via_fn]
proof fn region_from_decreases(source: Seq<u8>, at: int, depth: nat, value_end: int) {
    if at < source.len() {
        crate::edit::lemma_string_close(source, at + 1, source[at]);
        lemma_word_end(source, at);
        if at + 2 <= source.len() {
            crate::byte_scan::lemma_line_end(source, at + 2);
            crate::byte_scan::lemma_block_close(source, at + 2);
        }
    }
}

pub proof fn lemma_word_end(source: Seq<u8>, from: int)
    requires
        0 <= from <= source.len(),
    ensures
        from <= word_end(source, from) <= source.len(),
    decreases source.len() - from,
{
    if from < source.len() && !ends_word(source[from]) {
        lemma_word_end(source, from + 1);
    }
}

/// The region of the container opened at `open`, when its delimiters match.
pub open spec fn jsonc_region(source: Seq<u8>, open: int) -> Option<Region> {
    if 0 <= open < source.len() && opener(source[open]) {
        match region_from(source, open, 0, open) {
            Some(region) => if source[region.close - 1] == closer_of(source[open]) {
                Some(region)
            } else {
                None
            },
            None => None,
        }
    } else {
        None
    }
}

/// A comment-aware container scan: names the container's region and its last member's value end, skipping strings AND
/// comments. Returns `(close, value_end, empty)` where `value_end` is the first delimiter after the last top-level value
/// (whitespace, comma, comment open, or close) and `empty` says the container holds no value. `None` when the region
/// cannot be named (an unterminated string or comment, a mismatched close).
pub fn jsonc_container_scan(source: &[u8], open: usize) -> (found: Option<(usize, usize, bool)>)
    ensures
        match found {
            Some((close, value_end, empty)) => {
                &&& jsonc_region(source@, open as int) matches Some(region)
                &&& close == region.close
                &&& value_end == region.value_end
                &&& empty == (value_end == open)
                &&& open + 1 < close <= source.len()
                &&& open <= value_end < close
            },
            None => jsonc_region(source@, open as int) is None,
        },
{
    if open >= source.len() {
        return None;
    }
    let close = match source[open] {
        OPEN_BRACE => CLOSE_BRACE,
        OPEN_BRACKET => CLOSE_BRACKET,
        _ => return None,
    };
    let mut depth: usize = 0;
    let mut i: usize = open;
    // One past the last byte seen at depth 1 that closed a VALUE (a string quote, a nested container's close, a bare
    // word's end).
    let mut value_end: usize = open;
    while i < source.len()
        invariant
            open <= i <= source.len(),
            open <= value_end <= i,
            depth <= i - open,
            i == open ==> depth == 0,
            opener(source@[open as int]),
            close == closer_of(source@[open as int]),
            region_from(source@, open as int, 0, open as int) == region_from(
                source@,
                i as int,
                depth as nat,
                value_end as int,
            ),
        decreases source.len() - i,
    {
        let byte = source[i];
        match byte {
            QUOTE | APOSTROPHE => {
                match find_string_close(source, i + 1, byte) {
                    Some(end) => i = end,
                    None => return None,
                }
                if depth == 1 {
                    value_end = i;
                }
            }
            OPEN_BRACE | OPEN_BRACKET => {
                depth += 1;
                i += 1;
            }
            CLOSE_BRACE | CLOSE_BRACKET => {
                if depth == 0 {
                    return None;
                }
                if depth == 1 {
                    if byte != close {
                        return None;
                    }
                    return Some((i + 1, value_end, value_end == open));
                }
                depth -= 1;
                i += 1;
                if depth == 1 {
                    value_end = i;
                }
            }
            // A comma at ANY depth advances, and so do whitespace and the member's colon: none carries a position of its
            // own.
            COMMA | COLON | SPACE | TAB | LF | CR => i += 1,
            SLASH => {
                if source.len() - i < 2 {
                    return None;
                }
                if source[i + 1] == SLASH {
                    i = crate::byte_scan::find_line_end(source, i + 2);
                } else if source[i + 1] == STAR {
                    let end = crate::byte_scan::find_block_close(source, i + 2);
                    if end >= source.len() {
                        return None;
                    }
                    i = end + 2;
                } else {
                    return None;
                }
            }
            _ => {
                // A bare word (true/false/null/number): advance to its delimiter.
                let start = i;
                while i < source.len() && !delimiter_hit(source[i])
                    invariant
                        start <= i <= source.len(),
                        word_end(source@, start as int) == word_end(source@, i as int),
                    decreases source.len() - i,
                {
                    i += 1;
                }
                if depth == 1 {
                    value_end = i;
                }
            }
        }
    }
    None
}

/// The position reached from `from` going on over whitespace, never past `end`.
pub open spec fn on_over_ws(source: Seq<u8>, from: int, end: int) -> int
    decreases end - from,
{
    if from < end && json_ws(source[from]) {
        on_over_ws(source, from + 1, end)
    } else {
        from
    }
}

pub proof fn lemma_on_over_ws(source: Seq<u8>, from: int, end: int)
    ensures
        from <= on_over_ws(source, from, end),
        from <= end ==> on_over_ws(source, from, end) <= end,
    decreases end - from,
{
    if from < end && json_ws(source[from]) {
        lemma_on_over_ws(source, from + 1, end);
    }
}

/// The position reached from `from` going on over whitespace, never past `end`.
fn walk_on_over_ws(source: &[u8], from: usize, end: usize) -> (at: usize)
    requires
        end <= source.len(),
    ensures
        at == on_over_ws(source@, from as int, end as int),
        from <= at,
        from <= end ==> at <= end,
{
    let mut at: usize = from;
    while at < end && is_json_ws(source[at])
        invariant
            from <= at,
            from <= end ==> at <= end,
            end <= source.len(),
            on_over_ws(source@, from as int, end as int) == on_over_ws(source@, at as int, end as int),
        decreases end - at,
    {
        at += 1;
    }
    at
}

/// The last member's trailing comma, or the value's end when there is none.
pub open spec fn member_comma(source: Seq<u8>, value_end: int, close: int) -> int {
    let at = on_over_ws(source, value_end, close - 1);
    if at < source.len() && source[at] == COMMA {
        at
    } else {
        value_end
    }
}

/// The last member's trailing comma, or `value_end` when the container has none. Walks from the last value's first
/// delimiter over whitespace to at most one comma. New members insert at that comma so it stays with the trailer. A
/// comment between the value and the comma is not skipped: that comma stays in the suffix.
pub fn last_member_comma(source: &[u8], value_end: usize, close: usize) -> (at: usize)
    requires
        value_end < close <= source.len(),
    ensures
        at == member_comma(source@, value_end as int, close as int),
        value_end <= at < close,
{
    let at = walk_on_over_ws(source, value_end, close - 1);
    if source[at] == COMMA {
        at
    } else {
        value_end
    }
}

/// Whether a comment opens at `at`.
pub open spec fn opens_comment(source: Seq<u8>, at: int) -> bool {
    0 <= at && at + 1 < source.len() && source[at] == SLASH && (source[at + 1] == SLASH || source[at + 1] == STAR)
}

/// Where the trivia that trails the last member begins.
pub open spec fn trailer_start(source: Seq<u8>, value_end: int, close: int) -> int {
    let end = close - 1;
    let comma = on_over_ws(source, value_end, end);
    let after = if comma < source.len() && source[comma] == COMMA {
        comma + 1
    } else {
        comma
    };
    let at = on_over_ws(source, after, end);
    if at < end && opens_comment(source, at) {
        at
    } else {
        end
    }
}

/// The position where trailing trivia after the last member begins: the first comment start after the last value and its
/// optional trailing comma, or the closing delimiter when the run to it holds none. A comma after whitespace is the last
/// member's own punctuation, never a stop.
pub fn trailing_comment_start(source: &[u8], value_end: usize, close: usize) -> (at: usize)
    requires
        value_end < close <= source.len(),
    ensures
        at == trailer_start(source@, value_end as int, close as int),
        value_end <= at < close,
{
    let end = close - 1;
    let mut i: usize = walk_on_over_ws(source, value_end, end);
    if source[i] == COMMA {
        i += 1;
    }
    i = walk_on_over_ws(source, i, end);
    if i < end && source[i] == SLASH && (source[i + 1] == SLASH || source[i + 1] == STAR) {
        i
    } else {
        end
    }
}

/// `run` without a leading comma.
pub open spec fn without_leading_comma(run: Seq<u8>) -> Seq<u8> {
    if run.len() > 0 && run[0] == COMMA {
        run.skip(1)
    } else {
        run
    }
}

/// A member's separator in the container's observed style, comments kept out of it.
pub open spec fn jsonc_separator_text(
    source: Seq<u8>,
    open: int,
    at: int,
    close: int,
    empty: bool,
    wrapped: bool,
) -> Seq<u8> {
    let trailer = trailer_start(source, at, close);
    let run = without_leading_comma(source.subrange(at, trailer));
    if empty {
        seq![]
    } else if !wrapped {
        seq![COMMA]
    } else if trailer == close - 1 {
        seq![COMMA] + through_last_break(run) + member_indent(source, open, at)
    } else {
        seq![COMMA] + run
    }
}

/// The separator run a grown container reuses, comment-aware: the comma, then the whitespace between the last member's
/// value and the trailing comment block (or the closing delimiter), then the last member's indentation. A trailing comma
/// in the run belongs to the LAST member and is stripped; a trailing comment block is never part of the separator, so the
/// new member lands BEFORE it. The run before a trailing comment carries its own column, so no indent is appended there.
pub fn jsonc_member_separator(source: &[u8], open: usize, at: usize, close: usize, empty: bool, wrapped: bool) -> (
bytes: Vec<u8>)
    requires
        !empty && wrapped ==> at < close <= source.len(),
    ensures
        bytes@ == jsonc_separator_text(source@, open as int, at as int, close as int, empty, wrapped),
{
    let mut bytes: Vec<u8> = Vec::new();
    if empty {
        assert(bytes@ =~= seq![]);
        return bytes;
    }
    bytes.push(COMMA);
    if wrapped {
        let trailer = trailing_comment_start(source, at, close);
        let start = if at < trailer && source[at] == COMMA {
            at + 1
        } else {
            at
        };
        let run = vstd::slice::slice_subrange(source, start, trailer);
        assert(run@ =~= without_leading_comma(source@.subrange(at as int, trailer as int)));
        if trailer == close - 1 {
            push_all(&mut bytes, through_final_line_break(run));
            push_all(&mut bytes, last_member_indent(source, open, at).as_slice());
        } else {
            push_all(&mut bytes, run);
        }
    }
    assert(bytes@ =~= jsonc_separator_text(source@, open as int, at as int, close as int, empty, wrapped));
    bytes
}

/// Where and how the container opened at `open` grows, when its region can be named. The members insert at the last
/// member's trailing comma, or at its value's end when there is none, so the comma stays with the trailer; whether the
/// container wraps is read from the value's end, since a line break before the comma is the file's wrap too.
pub open spec fn jsonc_growth_plan(source: Seq<u8>, open: int) -> Option<GrowthPlan> {
    match jsonc_region(source, open) {
        Some(region) => {
            let empty = region.value_end == open;
            let at = if empty {
                open + 1
            } else {
                member_comma(source, region.value_end, region.close)
            };
            let wrapped = !empty && breaks_line(source, region.value_end, region.close - 1);
            Some(
                GrowthPlan {
                    at,
                    separator: jsonc_separator_text(source, open, at, region.close, empty, wrapped),
                    empty,
                    wrapped,
                },
            )
        },
        None => None,
    }
}

/// Renders the splice for a container the edit GREW: the new members land inside the closing delimiter — after the last
/// member, reusing the observed separator run — or directly after the opening delimiter for an empty container. Returns
/// an empty insertion set when the container has no span or its region cannot be named, and a member's refusal where one
/// cannot be rendered.
pub fn jsonc_render_edit_append(
    container: Option<Span>,
    source: &[u8],
    members: EditAppendMembers,
    max_nesting_depth: usize,
) -> (insertions: Result<Vec<EditInsertion>, CodecFailureKind>)
    ensures
        ({
            let plan = match container {
                Some(span) => jsonc_growth_plan(source@, span.start as int),
                None => None,
            };
            match plan {
                Some(plan) => {
                    let text = members.text(
                        members.count() as int,
                        plan.separator,
                        plan.empty,
                        plan.wrapped,
                        max_nesting_depth,
                    );
                    match insertions {
                        Ok(insertions) => {
                            &&& text.refused is None
                            &&& insertions@.len() == 1
                            &&& insertions@[0].at == plan.at
                            &&& insertions@[0].bytes@ == text.bytes
                        },
                        Err(kind) => text.refused == Some(kind),
                    }
                },
                None => insertions matches Ok(insertions) && insertions@.len() == 0,
            }
        }),
{
    let open = match container {
        Some(span) => span.start,
        None => return Ok(Vec::new()),
    };
    let (close, value_end, empty) = match jsonc_container_scan(source, open) {
        Some(found) => found,
        None => return Ok(Vec::new()),
    };
    let at = if empty {
        open + 1
    } else {
        last_member_comma(source, value_end, close)
    };
    let wrapped = !empty && has_line_break(source, value_end, close - 1);
    let separator = jsonc_member_separator(source, open, at, close, empty, wrapped);
    let text = match append_text(members, &separator, empty, wrapped, max_nesting_depth) {
        Ok(text) => text,
        Err(kind) => return Err(kind),
    };
    let mut insertions: Vec<EditInsertion> = Vec::new();
    insertions.push(EditInsertion { at, bytes: text });
    Ok(insertions)
}

/// New members land inside their container, and before the comments that trail its last member: what stands from the
/// last value's end to where they land is whitespace.
pub proof fn lemma_growth_keeps_trailing_comments(source: Seq<u8>, open: int)
    requires
        jsonc_growth_plan(source, open) is Some,
    ensures
        ({
            let plan = jsonc_growth_plan(source, open)->0;
            let region = jsonc_region(source, open)->0;
            &&& 0 <= open < plan.at < region.close <= source.len()
            &&& !plan.empty ==> region.value_end <= plan.at && forall|i: int|
                region.value_end <= i < plan.at ==> json_ws(#[trigger] source[i])
        }),
{
    lemma_region_from(source, open, 0, open);
    let region = jsonc_region(source, open)->0;
    assert(region_from(source, open, 0, open) == region_from(source, open + 1, 1, open));
    lemma_region_from(source, open + 1, 1, open);
    lemma_on_over_ws(source, region.value_end, region.close - 1);
    lemma_on_over_ws_is_ws(source, region.value_end, region.close - 1);
}

pub proof fn lemma_on_over_ws_is_ws(source: Seq<u8>, from: int, end: int)
    ensures
        forall|i: int| from <= i < on_over_ws(source, from, end) ==> json_ws(#[trigger] source[i]),
    decreases end - from,
{
    if from < end && json_ws(source[from]) {
        lemma_on_over_ws_is_ws(source, from + 1, end);
    }
}

pub proof fn lemma_region_from(source: Seq<u8>, at: int, depth: nat, value_end: int)
    requires
        0 <= value_end <= at,
    ensures
        region_from(source, at, depth, value_end) matches Some(region) ==> at < region.close <= source.len()
            && value_end <= region.value_end < region.close && closer(source[region.close - 1]),
    decreases source.len() - at,
{
    if at < source.len() {
        crate::edit::lemma_string_close(source, at + 1, source[at]);
        lemma_word_end(source, at);
        if at + 2 <= source.len() {
            crate::byte_scan::lemma_line_end(source, at + 2);
            crate::byte_scan::lemma_block_close(source, at + 2);
        }
        if source[at] == QUOTE || source[at] == APOSTROPHE {
            if let Some(end) = string_close(source, at + 1, source[at]) {
                lemma_region_from(source, end, depth, if depth == 1 { end } else { value_end });
            }
        } else if source[at] == SLASH && at + 1 < source.len() && source[at + 1] == SLASH {
            lemma_region_from(source, line_end(source, at + 2), depth, value_end);
        } else if source[at] == SLASH && at + 1 < source.len() && source[at + 1] == STAR {
            let end = block_close(source, at + 2);
            if end < source.len() {
                lemma_region_from(source, end + 2, depth, value_end);
            }
        } else if opener(source[at]) {
            lemma_region_from(source, at + 1, depth + 1, value_end);
        } else if closer(source[at]) {
            if depth > 1 {
                lemma_region_from(
                    source,
                    at + 1,
                    (depth - 1) as nat,
                    if depth == 2 {
                        at + 1
                    } else {
                        value_end
                    },
                );
            }
        } else if source[at] == COMMA || source[at] == COLON || json_ws(source[at]) {
            lemma_region_from(source, at + 1, depth, value_end);
        } else {
            let end = word_end(source, at);
            if end > at {
                lemma_region_from(source, end, depth, if depth == 1 { end } else { value_end });
            }
        }
    }
}

/// The start of the line that holds position `at`, or `floor` when no line feed comes before it.
pub open spec fn line_back(source: Seq<u8>, at: int, floor: int) -> int {
    let start = back_to_line(
        source,
        if at < source.len() {
            at
        } else {
            source.len() as int
        },
        0,
    );
    if start == 0 {
        floor
    } else {
        start
    }
}

/// The start of the line holding byte `at`, or `floor` when no line feed precedes it. The scan walks BACKWARD from `at` to
/// the nearest `\n`, so a walk over consecutive comment lines costs the run's length once.
pub fn line_start_backward(source: &[u8], at: usize, floor: usize) -> (start: usize)
    ensures
        start == line_back(source@, at as int, floor as int),
        start <= at || start == floor,
{
    let from = if at < source.len() {
        at
    } else {
        source.len()
    };
    let start = walk_back_to_line(source, from, 0);
    if start == 0 {
        floor
    } else {
        start
    }
}

/// Just past the last token before `at` in the container opened at `open`, or past its opening delimiter. A block comment
/// behind that token is a seam the walk does not name.
pub open spec fn back_over_comments(source: Seq<u8>, at: int, open: int) -> Option<int> {
    match seam_before(source, open + 1, at) {
        Some(seam) => if seam.block {
            None
        } else {
            Some(seam.end as int)
        },
        None => None,
    }
}

/// The comment-aware trivia skip of the removal seam: the position just after the last non-trivia byte before `from`,
/// whitespace and `//` comments skipped, one behind a comma on the comma's own line too. A block comment in between is a
/// seam the skip does not name: `None`. The container is read from its opening delimiter on, so a `//` inside a string is
/// no comment, and a quote inside a comment no string.
pub fn back_over_comment_lines(source: &[u8], from: usize, open: usize) -> (at: Option<usize>)
    requires
        open < from <= source.len(),
    ensures
        match at {
            Some(at) => back_over_comments(source@, from as int, open as int) == Some(at as int) && open < at <= from,
            None => back_over_comments(source@, from as int, open as int) is None,
        },
{
    proof {
        lemma_seam_is_trivia(source@, open + 1, from as int);
    }
    match find_seam(source, open + 1, from) {
        Some(seam) => if seam.block {
            None
        } else {
            Some(seam.end)
        },
        None => None,
    }
}

/// Where the cut of a container's FIRST member ends. A comment between the value and its comma is a seam the cut does not
/// name.
pub open spec fn jsonc_first_cut_end(source: Seq<u8>, value_end: int) -> Option<int> {
    let next = trivia_end(source, value_end);
    if next == run_end(source, value_end, StopSet::Ws) {
        Some(first_cut_end(source, value_end))
    } else if 0 <= next < source.len() && source[next] == COMMA {
        None
    } else {
        Some(value_end)
    }
}

/// Where the cut of a container's FIRST member ends.
fn jsonc_first_member_cut_end(source: &[u8], value_end: usize) -> (end: Option<usize>)
    requires
        value_end <= source.len(),
    ensures
        match end {
            Some(end) => jsonc_first_cut_end(source@, value_end as int) == Some(end as int),
            None => jsonc_first_cut_end(source@, value_end as int) is None,
        },
{
    let next = find_trivia_end(source, value_end);
    if next == scan_to(StopSet::Ws, source, value_end) {
        Some(first_member_cut_end(source, value_end))
    } else if next < source.len() && source[next] == COMMA {
        None
    } else {
        Some(value_end)
    }
}

/// The range cut with the member that starts at `member_start` and whose value ends at `value_end`, its leading comments
/// with it: from the preceding comma where there is one, and from the opening delimiter, through the following comma, for
/// the first member. `None` where a seam cannot be named.
pub open spec fn jsonc_cut_range(source: Seq<u8>, open: int, member_start: int, value_end: int) -> Option<(int, int)> {
    match back_over_comments(source, member_start, open) {
        Some(before) => if before == open + 1 {
            match jsonc_first_cut_end(source, value_end) {
                Some(end) => Some((open + 1, end)),
                None => None,
            }
        } else if source[before - 1] == COMMA {
            Some((before - 1, value_end))
        } else {
            None
        },
        None => None,
    }
}

/// One removed member's cut: the member plus exactly one adjacent comma — the preceding one, or the following one for the
/// first member — plus the whitespace run the member owned (its line break, indentation, and its own leading comment
/// block). `preceded_by_key` selects the object walk (backtrack to the key) over the array walk (the value IS the
/// member). `None` for an object member whose key cannot be found, and for a seam the walk cannot name.
pub fn jsonc_member_cut(
    source: &[u8],
    open: usize,
    token_start: usize,
    value_end: usize,
    preceded_by_key: bool,
) -> (cut: Option<EditRemoval>)
    requires
        open < token_start <= value_end <= source.len(),
    ensures
        match cut {
            Some(cut) => {
                &&& cut.replacement@.len() == 0
                &&& exists|start: int|
                    #[trigger] member_start_is(source@, open as int, token_start as int, preceded_by_key, start)
                        && jsonc_cut_range(source@, open as int, start, value_end as int) == Some(
                        (cut.start as int, cut.end as int),
                    )
            },
            None => forall|start: int|
                #[trigger] member_start_is(source@, open as int, token_start as int, preceded_by_key, start)
                    ==> jsonc_cut_range(source@, open as int, start, value_end as int) is None,
        },
{
    let member_start = if preceded_by_key {
        match member_key_start(source, open, token_start) {
            Some(start) => start,
            None => {
                assert forall|start: int|
                    #[trigger] member_start_is(
                        source@,
                        open as int,
                        token_start as int,
                        preceded_by_key,
                        start,
                    ) implies false by {
                    assert(key_start_is(source@, open as int, token_start as int, start));
                }
                return None;
            }
        }
    } else {
        token_start
    };
    proof {
        assert(member_start_is(source@, open as int, token_start as int, preceded_by_key, member_start as int));
        assert forall|start: int|
            #[trigger] member_start_is(source@, open as int, token_start as int, preceded_by_key, start) implies start
            == member_start by {
            lemma_member_start_is_unique(
                source@,
                open as int,
                token_start as int,
                preceded_by_key,
                start,
                member_start as int,
            );
        }
    }
    let before = match back_over_comment_lines(source, member_start, open) {
        Some(before) => before,
        None => return None,
    };
    if before == open + 1 {
        return match jsonc_first_member_cut_end(source, value_end) {
            Some(end) => Some(EditRemoval { start: open + 1, end, replacement: Vec::new() }),
            None => None,
        };
    }
    if source[before - 1] == COMMA {
        Some(EditRemoval { start: before - 1, end: value_end, replacement: Vec::new() })
    } else {
        None
    }
}

/// A comment-aware cut stays inside its container and takes the whole member.
pub proof fn lemma_jsonc_cut_stays_inside(source: Seq<u8>, open: int, member_start: int, value_end: int)
    requires
        0 <= open < member_start <= value_end <= source.len() <= usize::MAX,
        opener(source[open]),
        jsonc_cut_range(source, open, member_start, value_end) is Some,
    ensures
        ({
            let (start, end) = jsonc_cut_range(source, open, member_start, value_end)->0;
            &&& open < start <= member_start
            &&& value_end <= end <= source.len()
        }),
{
    lemma_seam_is_trivia(source, open + 1, member_start);
    lemma_run_end(source, value_end, StopSet::Ws);
    let after = run_end(source, value_end, StopSet::Ws);
    if after < source.len() {
        lemma_run_end(source, after + 1, StopSet::Ws);
    }
}

/// A comment-aware cut spares every other member: it takes no byte but the member's, one comma's, and those of whole
/// comments and whitespace. Behind the comma that it starts with, or from its start where no comma comes before, comments
/// and whitespace lead up to the member; behind the value stand whitespace and, only where no comma came before, the one
/// comma that follows.
pub proof fn lemma_jsonc_cut_spares_other_members(source: Seq<u8>, open: int, member_start: int, value_end: int)
    requires
        0 <= open < member_start <= value_end <= source.len() <= usize::MAX,
        opener(source[open]),
        jsonc_cut_range(source, open, member_start, value_end) is Some,
    ensures
        ({
            let (start, end) = jsonc_cut_range(source, open, member_start, value_end)->0;
            let first = back_over_comments(source, member_start, open) == Some(open + 1);
            let after = run_end(source, value_end, StopSet::Ws);
            &&& first ==> trivia_between(source, start, member_start)
            &&& !first ==> source[start] == COMMA && trivia_between(source, start + 1, member_start) && end == value_end
            &&& forall|i: int|
                value_end <= i < end ==> json_ws(#[trigger] source[i]) || (source[i] == COMMA && i == after)
        }),
{
    lemma_seam_is_trivia(source, open + 1, member_start);
    lemma_run_end(source, value_end, StopSet::Ws);
    let (_, end) = jsonc_cut_range(source, open, member_start, value_end)->0;
    let after = run_end(source, value_end, StopSet::Ws);
    if after < source.len() {
        lemma_run_end(source, after + 1, StopSet::Ws);
    }
    assert forall|i: int| value_end <= i < end implies json_ws(#[trigger] source[i]) || (source[i] == COMMA && i
        == after) by {
        if i != after {
            assert(!StopSet::Ws.stops(source[i]));
        }
    }
}

/// Whether `cut` removes the member whose token was recorded at `span`, comments and all.
pub open spec fn jsonc_cuts_member(source: Seq<u8>, open: int, span: Option<Span>, keyed: bool, cut: EditRemoval) -> bool {
    &&& span is Some && span->0.end <= source.len()
    &&& token_extent(source, span->0) matches Some((token_start, value_end))
    &&& cut.replacement@.len() == 0
    &&& exists|start: int|
        #[trigger] member_start_is(source, open, token_start, keyed, start) && jsonc_cut_range(
            source,
            open,
            start,
            value_end,
        ) == Some((cut.start as int, cut.end as int))
}

/// Whether the member whose token was recorded at `span` can be cut at all.
pub open spec fn jsonc_cuttable(source: Seq<u8>, open: int, span: Option<Span>, keyed: bool) -> bool {
    &&& span is Some && span->0.end <= source.len()
    &&& token_extent(source, span->0) matches Some((token_start, value_end))
    &&& exists|start: int|
        #[trigger] member_start_is(source, open, token_start, keyed, start) && jsonc_cut_range(
            source,
            open,
            start,
            value_end,
        ) is Some
}

/// Renders the cuts for a container the edit SHRANK: each removed member's value token is cut with one adjacent comma,
/// its owned whitespace, and its leading comment block. ANY member the source does not fully cover — no span, a span
/// past the source's end, a token that cannot be named or does not back up to its key, a block-comment seam — declines
/// the whole removal.
pub fn jsonc_render_edit_remove(container: Option<Span>, source: &[u8], members: &EditRemoveMembers) -> (removals: Vec<
    EditRemoval,
>)
    requires
        container matches Some(span) ==> members.inside(span.start as int),
    ensures
        ({
            let named = container is Some && container->0.start < source.len() && opener(
                source@[container->0.start as int],
            );
            let open = container->0.start as int;
            if named && forall|i: int|
                0 <= i < members.spans@.len() ==> jsonc_cuttable(
                    source@,
                    open,
                    #[trigger] members.spans@[i],
                    members.keyed,
                ) {
                &&& removals@.len() == members.spans@.len()
                &&& forall|i: int|
                    0 <= i < removals@.len() ==> jsonc_cuts_member(
                        source@,
                        open,
                        members.spans@[i],
                        members.keyed,
                        #[trigger] removals@[i],
                    )
            } else {
                removals@.len() == 0
            }
        }),
{
    let open = match container {
        Some(span) => span.start,
        None => return Vec::new(),
    };
    if open >= source.len() || (source[open] != OPEN_BRACE && source[open] != OPEN_BRACKET) {
        return Vec::new();
    }
    let mut removals: Vec<EditRemoval> = Vec::new();
    let mut i: usize = 0;
    while i < members.spans.len()
        invariant
            i <= members.spans.len(),
            container is Some && container->0.start == open,
            open < source.len(),
            opener(source@[open as int]),
            members.inside(open as int),
            removals@.len() == i,
            forall|k: int|
                0 <= k < i ==> jsonc_cuttable(source@, open as int, #[trigger] members.spans@[k], members.keyed),
            forall|k: int|
                0 <= k < i ==> jsonc_cuts_member(
                    source@,
                    open as int,
                    members.spans@[k],
                    members.keyed,
                    #[trigger] removals@[k],
                ),
        decreases members.spans.len() - i,
    {
        let ghost recorded = members.spans@[i as int];
        let span = match members.spans[i] {
            Some(span) => span,
            None => {
                assert(!jsonc_cuttable(source@, open as int, recorded, members.keyed));
                return Vec::new();
            }
        };
        if span.end > source.len() {
            assert(!jsonc_cuttable(source@, open as int, recorded, members.keyed));
            return Vec::new();
        }
        let (token_start, value_end) = match value_extent(source, span) {
            Some(extent) => extent,
            None => {
                assert(!jsonc_cuttable(source@, open as int, recorded, members.keyed));
                return Vec::new();
            }
        };
        proof {
            lemma_token_stays_inside(source@, open as int, span);
        }
        match jsonc_member_cut(source, open, token_start, value_end, members.keyed) {
            Some(cut) => {
                assert(jsonc_cuts_member(source@, open as int, recorded, members.keyed, cut));
                removals.push(cut);
            }
            None => {
                assert(!jsonc_cuttable(source@, open as int, recorded, members.keyed));
                return Vec::new();
            }
        }
        i += 1;
    }
    removals
}

} // verus!
