//! What a grown commented container holds: its old members, and then the new ones, each on its own.

use vstd::prelude::*;

use crate::ascii::{
    APOSTROPHE, CLOSE_BRACE, CLOSE_BRACKET, COLON, COMMA, OPEN_BRACE, OPEN_BRACKET, QUOTE, SLASH, SPACE, STAR,
};

use crate::byte_scan::{block_close, json_ws, line_end};
use crate::edit::{
    blank_end, closer, closer_of, is_blank, joint, member_indent, opener, string_close, through_last_break,
    EditAppendMembers,
};
use crate::edit_laws::{lemma_blank_end, lemma_through_last_break, members_spelled};
use crate::edit_support::{back_to_line, lemma_back_to_line};
use crate::encode_text::text_body;
use crate::growth_laws::{added, lemma_added_text, pieces, separates};
use crate::jsonc::encode::{
    ends_word, jsonc_growth_plan, jsonc_region, jsonc_separator_text, lemma_growth_keeps_trailing_comments,
    lemma_on_over_ws, lemma_on_over_ws_is_ws, lemma_region_from, lemma_word_end, member_comma, on_over_ws,
    opens_comment, region_from, trailer_start, without_leading_comma, word_end, Region,
};
use crate::jsonc::members::{
    commented_close, commented_items, lemma_commented_close, lemma_commented_close_by_prefix,
    lemma_commented_close_shifts, lemma_piece_by_prefix, lemma_piece_moves, members_from, moved_by, Reading,
};
use crate::jsonc::seam::{lemma_piece_at, piece_at, Piece};
use crate::render::{compact_style, render_value, RenderStyle};
use crate::render_laws::{
    array_inner, balanced, bare_word, flat, lemma_array_bytes, lemma_array_inner_is_balanced,
    lemma_body_is_closed_by_its_quote, lemma_close_is_past_unit, lemma_container_is_balanced, lemma_object_bytes,
    lemma_object_inner_is_balanced, lemma_string_close_shifts, lemma_text_is_utf8, object_inner, quote_free, spelled,
    writes_json,
};
use crate::value::{utf8, Value};

verus! {

/// A bare word inside a nested container is passed over.
proof fn lemma_close_passes_a_word(source: Seq<u8>, at: int, depth: nat)
    requires
        0 <= at <= source.len(),
    ensures
        commented_close(source, at, depth) == commented_close(source, word_end(source, at), depth),
    decreases source.len() - at,
{
    if at < source.len() && !ends_word(source[at]) {
        lemma_close_passes_a_word(source, at + 1, depth);
    }
}

/// A region's scan of a nested container goes to the container's close.
proof fn lemma_region_passes_a_container(source: Seq<u8>, at: int, depth: nat, value_end: int)
    requires
        0 <= at,
        depth > 0,
    ensures
        region_from(source, at, depth + 1, value_end) == match commented_close(source, at, depth) {
            Some(close) => region_from(source, close, 1, close),
            None => None,
        },
    decreases source.len() - at,
{
    if at < source.len() {
        lemma_piece_at(source, at);
        lemma_word_end(source, at);
        if source[at] == QUOTE || source[at] == APOSTROPHE {
            if let Some(end) = string_close(source, at + 1, source[at]) {
                lemma_region_passes_a_container(source, end, depth, value_end);
            }
        } else if source[at] == SLASH && at + 1 < source.len() && source[at + 1] == SLASH {
            lemma_region_passes_a_container(source, line_end(source, at + 2), depth, value_end);
        } else if source[at] == SLASH && at + 1 < source.len() && source[at + 1] == STAR {
            let end = block_close(source, at + 2);
            if end < source.len() {
                lemma_region_passes_a_container(source, end + 2, depth, value_end);
            }
        } else if opener(source[at]) {
            lemma_region_passes_a_container(source, at + 1, depth + 1, value_end);
        } else if closer(source[at]) {
            if depth > 1 {
                lemma_region_passes_a_container(source, at + 1, (depth - 1) as nat, value_end);
            }
        } else if source[at] == COMMA || source[at] == COLON || json_ws(source[at]) {
            lemma_region_passes_a_container(source, at + 1, depth, value_end);
        } else if source[at] == SLASH {
            assert(word_end(source, at) == at);
        } else {
            assert(!ends_word(source[at]));
            lemma_word_end(source, at + 1);
            lemma_close_passes_a_word(source, at, depth);
            lemma_region_passes_a_container(source, word_end(source, at), depth, value_end);
        }
    }
}

/// The last value of a region that goes on from `at` ends past it, or has ended already.
proof fn lemma_last_value(source: Seq<u8>, at: int, value_end: int)
    requires
        0 <= value_end <= at,
    ensures
        region_from(source, at, 1, value_end) matches Some(region) ==> region.value_end == value_end || region.value_end
            > at,
    decreases source.len() - at,
{
    if at < source.len() {
        lemma_piece_at(source, at);
        lemma_word_end(source, at);
        if source[at] == QUOTE || source[at] == APOSTROPHE {
            if let Some(end) = string_close(source, at + 1, source[at]) {
                lemma_region_from(source, end, 1, end);
            }
        } else if source[at] == SLASH && at + 1 < source.len() && source[at + 1] == SLASH {
            lemma_last_value(source, line_end(source, at + 2), value_end);
        } else if source[at] == SLASH && at + 1 < source.len() && source[at + 1] == STAR {
            let end = block_close(source, at + 2);
            if end < source.len() {
                lemma_last_value(source, end + 2, value_end);
            }
        } else if opener(source[at]) {
            lemma_region_passes_a_container(source, at + 1, 1, value_end);
            lemma_commented_close(source, at + 1, 1);
            if let Some(close) = commented_close(source, at + 1, 1) {
                lemma_region_from(source, close, 1, close);
            }
        } else if closer(source[at]) {
        } else if source[at] == COMMA || source[at] == COLON || json_ws(source[at]) {
            lemma_last_value(source, at + 1, value_end);
        } else {
            let end = word_end(source, at);
            if end > at {
                lemma_region_from(source, end, 1, end);
            }
        }
    }
}

/// A bare word is one more value.
proof fn lemma_members_pass_a_word(source: Seq<u8>, at: int, end: int, reading: Reading)
    requires
        0 <= at < end <= source.len(),
        forall|i: int| at <= i < end ==> !ends_word(#[trigger] source[i]),
    ensures
        members_from(source, at, reading) == members_from(source, end, reading.with(at, end)),
    decreases end - at,
{
    assert(!ends_word(source[at]));
    assert(members_from(source, at, reading) == members_from(source, at + 1, reading.with(at, at + 1)));
    if at + 1 < end {
        lemma_members_pass_a_word(source, at + 1, end, reading.with(at, at + 1));
        assert(reading.with(at, at + 1).with(at + 1, end) == reading.with(at, end));
    }
}

/// A bare word holds no byte that would end it.
proof fn lemma_word_bytes(source: Seq<u8>, at: int)
    requires
        0 <= at <= source.len(),
    ensures
        forall|i: int| at <= i < word_end(source, at) ==> !ends_word(#[trigger] source[i]),
    decreases source.len() - at,
{
    if at < source.len() && !ends_word(source[at]) {
        lemma_word_bytes(source, at + 1);
    }
}

/// Whitespace is passed over.
proof fn lemma_members_pass_whitespace(source: Seq<u8>, at: int, end: int, reading: Reading)
    requires
        0 <= at <= end <= source.len(),
        forall|i: int| at <= i < end ==> json_ws(#[trigger] source[i]),
    ensures
        members_from(source, at, reading) == members_from(source, end, reading),
    decreases end - at,
{
    if at < end {
        assert(json_ws(source[at]));
        lemma_members_pass_whitespace(source, at + 1, end, reading);
    }
}

/// Two sources that agree up to the end of a region's last value are read alike up to there.
proof fn lemma_members_up_to_the_last_value(source: Seq<u8>, grown: Seq<u8>, at: int, reading: Reading) -> (stop: Reading)
    requires
        0 <= reading.end <= at,
        reading.start matches Some(start) ==> 0 <= start <= reading.end,
        region_from(source, at, 1, reading.end) matches Some(region) && {
            &&& at < region.value_end <= source.len()
            &&& region.value_end <= grown.len()
            &&& forall|i: int| 0 <= i < region.value_end ==> #[trigger] source[i] == grown[i]
        },
    ensures
        ({
            let region = region_from(source, at, 1, reading.end)->0;
            let end = region.value_end;
            &&& stop.end == end
            &&& stop.start matches Some(start) && 0 <= start <= end
            &&& region_from(source, end, 1, end) == Some(region)
            &&& members_from(source, at, reading) == members_from(source, end, stop)
            &&& members_from(grown, at, reading) == members_from(grown, end, stop)
        }),
    decreases source.len() - at, 1int,
{
    let region = region_from(source, at, 1, reading.end)->0;
    let last = region.value_end;
    lemma_piece_at(source, at);
    lemma_word_end(source, at);
    assert(source[at] == grown[at]);
    if source[at] == QUOTE || source[at] == APOSTROPHE {
        let end = string_close(source, at + 1, source[at])->0;
        lemma_region_from(source, end, 1, end);
        lemma_piece_by_prefix(source, grown, at, last);
        lemma_value_passed(source, grown, at, end, reading)
    } else if source[at] == SLASH && at + 1 < source.len() && source[at + 1] == SLASH {
        let end = line_end(source, at + 2);
        lemma_last_value(source, end, reading.end);
        lemma_piece_by_prefix(source, grown, at, last);
        lemma_members_up_to_the_last_value(source, grown, end, reading)
    } else if source[at] == SLASH && at + 1 < source.len() && source[at + 1] == STAR {
        let end = block_close(source, at + 2) + 2;
        lemma_last_value(source, end, reading.end);
        lemma_piece_by_prefix(source, grown, at, last);
        lemma_members_up_to_the_last_value(source, grown, end, reading)
    } else if opener(source[at]) {
        lemma_region_passes_a_container(source, at + 1, 1, reading.end);
        lemma_commented_close(source, at + 1, 1);
        let end = commented_close(source, at + 1, 1)->0;
        lemma_region_from(source, end, 1, end);
        lemma_commented_close_by_prefix(source, grown, at + 1, 1, last);
        lemma_piece_by_prefix(source, grown, at, last);
        lemma_value_passed(source, grown, at, end, reading)
    } else if source[at] == COMMA || source[at] == COLON || json_ws(source[at]) {
        lemma_last_value(source, at + 1, reading.end);
        lemma_piece_by_prefix(source, grown, at, last);
        if source[at] == COMMA {
            lemma_texts_agree(source, grown, reading, last);
            lemma_members_up_to_the_last_value(source, grown, at + 1, reading.past_comma(source))
        } else {
            lemma_members_up_to_the_last_value(source, grown, at + 1, reading)
        }
    } else {
        let end = word_end(source, at);
        assert(!closer(source[at]));
        lemma_region_from(source, end, 1, end);
        lemma_word_bytes(source, at);
        assert forall|i: int| at <= i < end implies !ends_word(#[trigger] grown[i]) by {
            assert(source[i] == grown[i]);
        }
        lemma_members_pass_a_word(source, at, end, reading);
        lemma_members_pass_a_word(grown, at, end, reading);
        lemma_value_passed(source, grown, at, end, reading)
    }
}

/// One step of the reading past a value: the region's last, or one with more behind it.
proof fn lemma_value_passed(source: Seq<u8>, grown: Seq<u8>, at: int, end: int, reading: Reading) -> (stop: Reading)
    requires
        0 <= reading.end <= at < end <= source.len(),
        reading.start matches Some(start) ==> 0 <= start <= reading.end,
        region_from(source, at, 1, reading.end) == region_from(source, end, 1, end),
        members_from(source, at, reading) == members_from(source, end, reading.with(at, end)),
        members_from(grown, at, reading) == members_from(grown, end, reading.with(at, end)),
        region_from(source, at, 1, reading.end) matches Some(region) && {
            &&& end <= region.value_end <= source.len()
            &&& region.value_end <= grown.len()
            &&& forall|i: int| 0 <= i < region.value_end ==> #[trigger] source[i] == grown[i]
        },
    ensures
        ({
            let region = region_from(source, at, 1, reading.end)->0;
            let last = region.value_end;
            &&& stop.end == last
            &&& stop.start matches Some(start) && 0 <= start <= last
            &&& region_from(source, last, 1, last) == Some(region)
            &&& members_from(source, at, reading) == members_from(source, last, stop)
            &&& members_from(grown, at, reading) == members_from(grown, last, stop)
        }),
    decreases source.len() - at, 0int,
{
    let region = region_from(source, at, 1, reading.end)->0;
    if region.value_end == end {
        reading.with(at, end)
    } else {
        lemma_members_up_to_the_last_value(source, grown, end, reading.with(at, end))
    }
}

/// The members read so far have the same texts in two sources that agree up to where the last value ended.
proof fn lemma_texts_agree(source: Seq<u8>, grown: Seq<u8>, reading: Reading, to: int)
    requires
        0 <= reading.end <= to <= source.len(),
        to <= grown.len(),
        reading.start matches Some(start) ==> 0 <= start <= reading.end,
        forall|i: int| 0 <= i < to ==> #[trigger] source[i] == grown[i],
    ensures
        reading.texts(source) == reading.texts(grown),
        reading.past_comma(source) == reading.past_comma(grown),
{
    if let Some(start) = reading.start {
        assert(source.subrange(start, reading.end) =~= grown.subrange(start, reading.end));
    }
}

/// Behind a container's last value no member is read any more, wherever what stands there is moved to.
proof fn lemma_no_member_follows(
    source: Seq<u8>,
    moved: Seq<u8>,
    at: int,
    by: int,
    from: int,
    value_end: int,
    reading: Reading,
)
    requires
        moved_by(source, moved, at, by),
        0 <= value_end <= from,
        at <= from,
        region_from(source, from, 1, value_end) matches Some(region) && region.value_end == value_end,
    ensures
        members_from(moved, from + by, reading) == Some(
            (reading.texts(moved), region_from(source, from, 1, value_end)->0.close + by),
        ),
    decreases source.len() - from,
{
    lemma_piece_at(source, from);
    lemma_word_end(source, from);
    lemma_piece_moves(source, moved, at, by, from);
    assert(source[from] == moved[from + by]);
    if source[from] == QUOTE || source[from] == APOSTROPHE {
        let end = string_close(source, from + 1, source[from])->0;
        lemma_region_from(source, end, 1, end);
        assert(false);
    } else if source[from] == SLASH && from + 1 < source.len() && source[from + 1] == SLASH {
        lemma_no_member_follows(source, moved, at, by, line_end(source, from + 2), value_end, reading);
    } else if source[from] == SLASH && from + 1 < source.len() && source[from + 1] == STAR {
        lemma_no_member_follows(source, moved, at, by, block_close(source, from + 2) + 2, value_end, reading);
    } else if opener(source[from]) {
        lemma_region_passes_a_container(source, from + 1, 1, value_end);
        lemma_commented_close(source, from + 1, 1);
        let end = commented_close(source, from + 1, 1)->0;
        lemma_region_from(source, end, 1, end);
        assert(false);
    } else if closer(source[from]) {
    } else if source[from] == COMMA {
        lemma_no_member_follows(source, moved, at, by, from + 1, value_end, reading.past_comma(moved));
    } else if source[from] == COLON || json_ws(source[from]) {
        lemma_no_member_follows(source, moved, at, by, from + 1, value_end, reading);
    } else {
        let end = word_end(source, from);
        lemma_region_from(source, end, 1, end);
        assert(false);
    }
}

/// Whether a reading that stands at `at` comes to stand at `end` as `next`.
#[verifier::opaque]
spec fn reads_on(source: Seq<u8>, at: int, reading: Reading, end: int, next: Reading) -> bool {
    members_from(source, at, reading) == members_from(source, end, next)
}

/// One stretch is read after the other.
proof fn lemma_reads_on(source: Seq<u8>, at: int, reading: Reading, mid: int, half: Reading, end: int, next: Reading)
    requires
        reads_on(source, at, reading, mid, half),
        reads_on(source, mid, half, end, next),
    ensures
        reads_on(source, at, reading, end, next),
{
    reveal(reads_on);
}

/// A colon, and the whitespace behind it, part a key from its value.
proof fn lemma_members_pass_a_colon(before: Seq<u8>, gap: Seq<u8>, behind: Seq<u8>, reading: Reading)
    requires
        gap.len() > 0 && gap[0] == COLON,
        forall|i: int| 1 <= i < gap.len() ==> json_ws(#[trigger] gap[i]),
    ensures
        reads_on(before + gap + behind, before.len() as int, reading, before.len() + gap.len() as int, reading),
{
    reveal(reads_on);
    let whole = before + gap + behind;
    let at = before.len() as int;
    assert(whole[at] == gap[0]);
    assert(piece_at(whole, at) == Some((Piece::Token, at + 1)));
    assert forall|i: int| at + 1 <= i < at + gap.len() implies json_ws(#[trigger] whole[i]) by {
        assert(whole[i] == gap[i - at]);
    }
    lemma_members_pass_whitespace(whole, at + 1, at + gap.len(), reading);
}

/// A string is one more key or value.
proof fn lemma_members_pass_a_string(before: Seq<u8>, body: Seq<u8>, behind: Seq<u8>, reading: Reading)
    requires
        string_close(body + seq![QUOTE] + behind, 0, QUOTE) == Some(body.len() + 1int),
    ensures
        ({
            let whole = before + (seq![QUOTE] + body + seq![QUOTE]) + behind;
            let end = before.len() + body.len() + 2int;
            reads_on(whole, before.len() as int, reading, end, reading.with(before.len() as int, end))
        }),
{
    reveal(reads_on);
    let whole = before + (seq![QUOTE] + body + seq![QUOTE]) + behind;
    let opening = before + seq![QUOTE];
    let tail = body + seq![QUOTE] + behind;
    assert(whole =~= opening + tail);
    assert(whole[before.len() as int] == QUOTE);
    lemma_string_close_shifts(opening, tail, 0);
    assert(piece_at(whole, before.len() as int) == Some((Piece::Token, before.len() + body.len() + 2int)));
}

/// A container is one more value.
proof fn lemma_members_pass_a_container(
    before: Seq<u8>,
    open: u8,
    inner: Seq<u8>,
    close: u8,
    behind: Seq<u8>,
    reading: Reading,
)
    requires
        opener(open),
        closer(close),
        balanced(inner),
    ensures
        ({
            let whole = before + (seq![open] + inner + seq![close]) + behind;
            let end = before.len() + inner.len() + 2int;
            reads_on(whole, before.len() as int, reading, end, reading.with(before.len() as int, end))
        }),
{
    reveal(reads_on);
    let whole = before + (seq![open] + inner + seq![close]) + behind;
    let opening = before + seq![open];
    let tail = inner + (seq![close] + behind);
    assert(whole =~= opening + tail);
    assert(whole[before.len() as int] == open);
    lemma_container_is_balanced(open, inner, close);
    assert(commented_close(inner + (seq![close] + behind), 0, 1) == Some(inner.len() + 1int));
    lemma_commented_close_shifts(opening, tail, 0, 1);
    assert(piece_at(whole, before.len() as int) == Some((Piece::Token, before.len() + 1int)));
}

/// A rendered value is one more value, wherever it stands.
proof fn lemma_members_pass_a_value(
    before: Seq<u8>,
    value: Value,
    depth: nat,
    style: RenderStyle,
    behind: Seq<u8>,
    reading: Reading,
)
    requires
        spelled(value),
        writes_json(depth, style),
    ensures
        ({
            let bytes = render_value(value, depth, style).bytes;
            let end = before.len() + bytes.len() as int;
            reads_on(before + bytes + behind, before.len() as int, reading, end, reading.with(before.len() as int, end))
        }),
    decreases value,
{
    let bytes = render_value(value, depth, style).bytes;
    match value {
        Value::Null => {
            lemma_members_pass_bare_bytes(before, bytes, behind, reading);
        },
        Value::Bool(_) => {
            lemma_members_pass_bare_bytes(before, bytes, behind, reading);
        },
        Value::Number(_) => {
            lemma_members_pass_bare_bytes(before, bytes, behind, reading);
        },
        Value::Text(text) => {
            lemma_text_is_utf8(text);
            lemma_body_is_closed_by_its_quote(utf8(text), style.options.ascii_output, behind);
            lemma_members_pass_a_string(before, text_body(utf8(text), style.options.ascii_output), behind, reading);
        },
        Value::Projected(text) => {
            let body = utf8(text);
            let tail = seq![QUOTE] + behind;
            assert(body + seq![QUOTE] + behind =~= body + tail);
            assert(tail[0] == QUOTE);
            assert(quote_free(body));
            lemma_close_is_past_unit(body, tail);
            lemma_members_pass_a_string(before, body, behind, reading);
        },
        Value::Array(items) => {
            lemma_array_bytes(items, depth, style);
            lemma_array_inner_is_balanced(items, depth, style);
            let inner = array_inner(items, depth, style);
            lemma_members_pass_a_container(before, OPEN_BRACKET, inner, CLOSE_BRACKET, behind, reading);
        },
        Value::Object(members) => {
            lemma_object_bytes(members, depth, style);
            lemma_object_inner_is_balanced(members, depth, style);
            let inner = object_inner(members, depth, style);
            lemma_members_pass_a_container(before, OPEN_BRACE, inner, CLOSE_BRACE, behind, reading);
        },
        Value::Tagged(inner) => {
            lemma_members_pass_a_value(before, *inner, depth, style, behind, reading);
            assert(bytes =~= render_value(*inner, depth, style).bytes);
        },
    }
}

/// A number or a literal name is one more value.
proof fn lemma_members_pass_bare_bytes(before: Seq<u8>, word: Seq<u8>, behind: Seq<u8>, reading: Reading)
    requires
        bare_word(word),
    ensures
        ({
            let end = before.len() + word.len() as int;
            reads_on(before + word + behind, before.len() as int, reading, end, reading.with(before.len() as int, end))
        }),
{
    reveal(reads_on);
    let whole = before + word + behind;
    let end = before.len() + word.len() as int;
    assert forall|i: int| before.len() <= i < end implies !ends_word(#[trigger] whole[i]) by {
        assert(whole[i] == word[i - before.len()]);
        assert(flat(word[i - before.len()]));
    }
    lemma_members_pass_a_word(whole, before.len() as int, end, reading);
}

/// A rendered member is one member, wherever it stands.
proof fn lemma_members_pass_a_pair(
    before: Seq<u8>,
    body: Seq<u8>,
    gap: Seq<u8>,
    value: Value,
    style: RenderStyle,
    behind: Seq<u8>,
    reading: Reading,
)
    requires
        spelled(value),
        writes_json(0, style),
        gap.len() > 0 && gap[0] == COLON,
        forall|i: int| 1 <= i < gap.len() ==> json_ws(#[trigger] gap[i]),
        string_close(
            body + seq![QUOTE] + (gap + render_value(value, 0, style).bytes + behind),
            0,
            QUOTE,
        ) == Some(body.len() + 1int),
    ensures
        ({
            let piece = seq![QUOTE] + body + seq![QUOTE] + gap + render_value(value, 0, style).bytes;
            let end = before.len() + piece.len() as int;
            reads_on(before + piece + behind, before.len() as int, reading, end, reading.with(before.len() as int, end))
        }),
{
    let key = seq![QUOTE] + body + seq![QUOTE];
    let bytes = render_value(value, 0, style).bytes;
    let whole = before + (key + gap + bytes) + behind;
    let start = before.len() as int;
    let lead = before + key + gap;
    let quoted = start + key.len();
    let end = lead.len() + bytes.len() as int;
    let keyed = reading.with(start, quoted);
    lemma_regroup_pair(before, key, gap, bytes, behind);
    lemma_members_pass_a_string(before, body, gap + bytes + behind, reading);
    lemma_members_pass_a_colon(before + key, gap, bytes + behind, keyed);
    lemma_members_pass_a_value(lead, value, 0, style, behind, keyed);
    assert(keyed.with(lead.len() as int, end) == reading.with(start, end));
    lemma_reads_on(whole, start, reading, quoted, keyed, lead.len() as int, keyed);
    lemma_reads_on(whole, start, reading, lead.len() as int, keyed, end, reading.with(start, end));
}

proof fn lemma_regroup_pair(before: Seq<u8>, key: Seq<u8>, gap: Seq<u8>, bytes: Seq<u8>, behind: Seq<u8>)
    ensures
        before + (key + gap + bytes) + behind == before + key + (gap + bytes + behind),
        before + (key + gap + bytes) + behind == before + key + gap + (bytes + behind),
        before + (key + gap + bytes) + behind == before + key + gap + bytes + behind,
{
    let whole = before + (key + gap + bytes) + behind;
    assert(whole =~= before + key + (gap + bytes + behind));
    assert(whole =~= before + key + gap + (bytes + behind));
    assert(whole =~= before + key + gap + bytes + behind);
}

/// An added member is one member, wherever it stands.
proof fn lemma_members_pass_a_piece(
    before: Seq<u8>,
    members: EditAppendMembers,
    index: int,
    wrapped: bool,
    max_nesting_depth: usize,
    behind: Seq<u8>,
    reading: Reading,
)
    requires
        members_spelled(members),
        0 <= index < members.count(),
        reading.start is None,
    ensures
        ({
            let piece = members.piece(index, wrapped, max_nesting_depth).bytes;
            let whole = before + piece + behind;
            let end = before.len() + piece.len() as int;
            &&& reads_on(whole, before.len() as int, reading, end, reading.with(before.len() as int, end))
            &&& reading.with(before.len() as int, end).texts(whole) == reading.done.push(piece)
        }),
{
    let style = compact_style(max_nesting_depth);
    let piece = members.piece(index, wrapped, max_nesting_depth).bytes;
    let start = before.len() as int;
    match members {
        EditAppendMembers::Array(items) => {
            assert(spelled(items@[index].value));
            lemma_members_pass_a_value(before, items@[index].value, 0, style, behind, reading);
        },
        EditAppendMembers::Table(table) => {
            let member = table@[index];
            assert(spelled(table@[index].item.value));
            let gap: Seq<u8> = if wrapped {
                seq![COLON, SPACE]
            } else {
                seq![COLON]
            };
            let body = text_body(utf8(member.key), false);
            let value = render_value(member.item.value, 0, style).bytes;
            lemma_text_is_utf8(member.key);
            lemma_body_is_closed_by_its_quote(utf8(member.key), false, gap + value + behind);
            lemma_members_pass_a_pair(before, body, gap, member.item.value, style, behind, reading);
            assert(piece =~= seq![QUOTE] + body + seq![QUOTE] + gap + value);
        },
    }
    assert((before + piece + behind).subrange(start, start + piece.len()) =~= piece);
}

/// The added members are read one by one.
proof fn lemma_members_pass_what_was_added(
    before: Seq<u8>,
    members: EditAppendMembers,
    from: int,
    separator: Seq<u8>,
    empty: bool,
    wrapped: bool,
    max_nesting_depth: usize,
    tail: Seq<u8>,
    reading: Reading,
) -> (stop: Reading)
    requires
        members_spelled(members),
        0 <= from < members.count(),
        !empty ==> separates(separator),
        reading.start is None,
    ensures
        ({
            let text = added(members, from, separator, empty, wrapped, max_nesting_depth);
            let whole = before + text + tail;
            &&& reads_on(whole, before.len() as int, reading, before.len() + text.len() as int, stop)
            &&& stop.texts(whole) == reading.done + pieces(members, from, wrapped, max_nesting_depth)
        }),
    decreases members.count() - from,
{
    let piece = members.piece(from, wrapped, max_nesting_depth).bytes;
    let text = added(members, from, separator, empty, wrapped, max_nesting_depth);
    let whole = before + text + tail;
    let start = before.len() as int;
    let end = start + piece.len();
    if from + 1 < members.count() {
        let lead = joint(from + 1, separator, empty);
        let more = added(members, from + 1, separator, empty, wrapped, max_nesting_depth);
        let next = before + piece + lead;
        assert(separates(lead));
        assert(whole =~= before + piece + (lead + more + tail));
        assert(whole =~= next + more + tail);
        lemma_members_pass_a_piece(before, members, from, wrapped, max_nesting_depth, lead + more + tail, reading);
        let member = reading.with(start, end);
        let past = member.past_comma(whole);
        lemma_members_pass_a_separator(before + piece, lead, more + tail, member);
        assert(whole =~= before + piece + lead + (more + tail));
        let stop = lemma_members_pass_what_was_added(
            next,
            members,
            from + 1,
            separator,
            empty,
            wrapped,
            max_nesting_depth,
            tail,
            past,
        );
        let rest = pieces(members, from + 1, wrapped, max_nesting_depth);
        assert(reading.done.push(piece) + rest =~= reading.done + (seq![piece] + rest));
        lemma_reads_on(whole, start, reading, end, member, next.len() as int, past);
        lemma_reads_on(whole, start, reading, next.len() as int, past, start + text.len(), stop);
        stop
    } else {
        assert(text == piece);
        lemma_members_pass_a_piece(before, members, from, wrapped, max_nesting_depth, tail, reading);
        assert(pieces(members, from + 1, wrapped, max_nesting_depth) =~= Seq::<Seq<u8>>::empty());
        assert(reading.done.push(piece) =~= reading.done + (seq![piece] + Seq::<Seq<u8>>::empty()));
        reading.with(start, end)
    }
}

/// A separator ends the member before it.
proof fn lemma_members_pass_a_separator(before: Seq<u8>, lead: Seq<u8>, behind: Seq<u8>, reading: Reading)
    requires
        separates(lead),
    ensures
        ({
            let whole = before + lead + behind;
            reads_on(whole, before.len() as int, reading, before.len() + lead.len() as int, reading.past_comma(whole))
        }),
{
    reveal(reads_on);
    let whole = before + lead + behind;
    let at = before.len() as int;
    assert(whole[at] == lead[0]);
    assert(piece_at(whole, at) == Some((Piece::Token, at + 1)));
    assert forall|i: int| at + 1 <= i < at + lead.len() implies json_ws(#[trigger] whole[i]) by {
        assert(whole[i] == lead[i - at]);
    }
    lemma_members_pass_whitespace(whole, at + 1, at + lead.len(), reading.past_comma(whole));
}

/// Whether nothing but comments, whitespace and, where one is allowed, a comma stands from `at` to `to`.
pub open spec fn trails(source: Seq<u8>, at: int, to: int, comma: bool) -> bool
    decreases to - at,
{
    at == to || match piece_at(source, at) {
        Some((piece, end)) => at < end <= to && if piece != Piece::Token {
            trails(source, end, to, comma)
        } else {
            comma && source[at] == COMMA && trails(source, end, to, false)
        },
        None => false,
    }
}

/// What trails is still the same past some of its whitespace.
proof fn lemma_trails_past_whitespace(source: Seq<u8>, at: int, to: int, comma: bool)
    requires
        0 <= at <= to <= source.len(),
        trails(source, at, to, comma),
    ensures
        ({
            let next = on_over_ws(source, at, to);
            &&& at <= next <= to
            &&& trails(source, next, to, comma)
            &&& next < to ==> !json_ws(source[next])
        }),
    decreases to - at,
{
    if at < to && json_ws(source[at]) {
        lemma_trails_past_whitespace(source, at + 1, to, comma);
    }
}

/// The separator that a commented container's new members take over is a comma, and whitespace behind it.
proof fn lemma_commented_separator(source: Seq<u8>, open: int, value_end: int, close: int, wrapped: bool)
    requires
        0 <= open < value_end < close <= source.len(),
        closer(source[close - 1]),
        wrapped ==> trails(source, value_end, close - 1, true),
    ensures
        separates(
            jsonc_separator_text(source, open, member_comma(source, value_end, close), close, false, wrapped),
        ),
{
    let end = close - 1;
    let at = member_comma(source, value_end, close);
    let text = jsonc_separator_text(source, open, at, close, false, wrapped);
    if wrapped {
        let comma = on_over_ws(source, value_end, end);
        lemma_on_over_ws(source, value_end, end);
        lemma_on_over_ws_is_ws(source, value_end, end);
        lemma_trails_past_whitespace(source, value_end, end, true);
        assert(on_over_ws(source, at, end) == comma);
        let after = if source[comma] == COMMA {
            comma + 1
        } else {
            comma
        };
        let next = on_over_ws(source, after, end);
        lemma_on_over_ws_is_ws(source, after, end);
        lemma_trails_past_whitespace(source, after, end, source[comma] != COMMA);
        assert(next < end ==> opens_comment(source, next));
        assert(trailer_start(source, at, close) == next);
        let run = without_leading_comma(source.subrange(at, next));
        assert forall|i: int| 0 <= i < run.len() implies json_ws(#[trigger] run[i]) by {
            if source[comma] == COMMA {
                assert(run[i] == source[comma + 1 + i]);
            } else {
                if next > value_end {
                    assert(json_ws(source.subrange(at, next)[0]));
                }
                assert(run[i] == source[value_end + i]);
            }
        }
        let line = back_to_line(source, at - 1, open);
        lemma_through_last_break(run);
        lemma_back_to_line(source, at - 1, open);
        lemma_blank_end(source, line);
        let lead = through_last_break(run);
        let indent = member_indent(source, open, at);
        assert(indent == source.subrange(line, blank_end(source, line)));
        assert forall|i: int| 1 <= i < text.len() implies json_ws(#[trigger] text[i]) by {
            if next < end {
                assert(text[i] == run[i - 1]);
            } else if i - 1 < lead.len() {
                assert(text[i] == lead[i - 1]);
                assert(lead[i - 1] == run[i - 1]);
            } else {
                let k = i - 1 - lead.len();
                assert(text[i] == indent[k]);
                assert(indent[k] == source[line + k]);
                assert(is_blank(source[line + k]));
            }
        }
    }
}

/// A region's scan passes over whitespace.
proof fn lemma_region_passes_whitespace(source: Seq<u8>, at: int, end: int, value_end: int)
    requires
        0 <= at <= end <= source.len(),
        forall|i: int| at <= i < end ==> json_ws(#[trigger] source[i]),
    ensures
        region_from(source, at, 1, value_end) == region_from(source, end, 1, value_end),
    decreases end - at,
{
    if at < end {
        assert(json_ws(source[at]));
        lemma_region_passes_whitespace(source, at + 1, end, value_end);
    }
}

/// Whether a reading that stands at `at` comes to the container's end with `texts` read, just past its close.
#[verifier::opaque]
spec fn reads_off(source: Seq<u8>, at: int, reading: Reading, texts: Seq<Seq<u8>>, close: int) -> bool {
    members_from(source, at, reading) == Some((texts, close))
}

/// A reading at its start.
spec fn fresh(open: int) -> Reading {
    Reading { done: seq![], start: None, end: open }
}

/// A container holds what a reading from its opening delimiter to its closing one has read.
proof fn lemma_items_are_what_was_read(
    source: Seq<u8>,
    open: int,
    at: int,
    reading: Reading,
    texts: Seq<Seq<u8>>,
    close: int,
)
    requires
        0 <= open < source.len(),
        opener(source[open]),
        reads_on(source, open + 1, fresh(open), at, reading),
        reads_off(source, at, reading, texts, close),
        source[close - 1] == closer_of(source[open]),
    ensures
        commented_items(source, open) == Some(texts),
{
    reveal(reads_on);
    reveal(reads_off);
}

/// A reading has come to where it stands.
proof fn lemma_stands(source: Seq<u8>, at: int, reading: Reading)
    ensures
        reads_on(source, at, reading, at, reading),
{
    reveal(reads_on);
}

/// Behind a container's last value no member is read any more, wherever what stands there is moved to.
proof fn lemma_tail_reads_off(
    source: Seq<u8>,
    moved: Seq<u8>,
    at: int,
    by: int,
    value_end: int,
    region: Region,
    reading: Reading,
)
    requires
        moved_by(source, moved, at, by),
        0 <= value_end <= at,
        region_from(source, at, 1, value_end) == Some(region),
        region.value_end == value_end,
    ensures
        reads_off(moved, at + by, reading, reading.texts(moved), region.close + by),
{
    reveal(reads_off);
    lemma_no_member_follows(source, moved, at, by, at, value_end, reading);
}

/// Two sources that agree up to the end of a container's last value are read alike up to there.
proof fn lemma_old_members_are_read(source: Seq<u8>, grown: Seq<u8>, open: int, at: int, region: Region) -> (stop: Reading)
    requires
        0 <= open,
        region_from(source, open + 1, 1, open) == Some(region),
        open < region.value_end <= at <= source.len(),
        at <= grown.len(),
        forall|i: int| 0 <= i < at ==> #[trigger] source[i] == grown[i],
        forall|i: int| region.value_end <= i < at ==> json_ws(#[trigger] source[i]),
    ensures
        reads_on(source, open + 1, fresh(open), at, stop),
        reads_on(grown, open + 1, fresh(open), at, stop),
        region_from(source, at, 1, region.value_end) == Some(region),
        stop.texts(source) == stop.texts(grown),
{
    reveal(reads_on);
    let last = region.value_end;
    lemma_last_value(source, open + 1, open);
    let stop = lemma_members_up_to_the_last_value(source, grown, open + 1, fresh(open));
    assert forall|i: int| last <= i < at implies json_ws(#[trigger] grown[i]) by {
        assert(source[i] == grown[i]);
    }
    lemma_members_pass_whitespace(source, last, at, stop);
    lemma_members_pass_whitespace(grown, last, at, stop);
    lemma_region_passes_whitespace(source, last, at, last);
    lemma_texts_agree(source, grown, stop, last);
    stop
}

/// An empty container's new members are read from its opening delimiter on.
proof fn lemma_empty_commented_container_grows(
    source: Seq<u8>,
    open: int,
    region: Region,
    members: EditAppendMembers,
    separator: Seq<u8>,
    wrapped: bool,
    max_nesting_depth: usize,
)
    requires
        0 <= open < source.len(),
        opener(source[open]),
        region_from(source, open + 1, 1, open) == Some(region),
        region.value_end == open,
        open + 1 < region.close <= source.len(),
        source[region.close - 1] == closer_of(source[open]),
        members.count() > 0,
        members_spelled(members),
    ensures
        commented_items(source, open) == Some(Seq::<Seq<u8>>::empty()),
        commented_items(
            source.take(open + 1) + added(members, 0, separator, true, wrapped, max_nesting_depth) + source.skip(
                open + 1,
            ),
            open,
        ) == Some(pieces(members, 0, wrapped, max_nesting_depth)),
{
    let head = source.take(open + 1);
    let tail = source.skip(open + 1);
    let text = added(members, 0, separator, true, wrapped, max_nesting_depth);
    let new = pieces(members, 0, wrapped, max_nesting_depth);
    let grown = head + text + tail;
    let by = text.len() as int;
    let first = fresh(open);
    lemma_stands(source, open + 1, first);
    assert(moved_by(source, source, open + 1, 0));
    lemma_tail_reads_off(source, source, open + 1, 0, open, region, first);
    lemma_items_are_what_was_read(source, open, open + 1, first, first.texts(source), region.close);
    let stop = lemma_members_pass_what_was_added(
        head,
        members,
        0,
        separator,
        true,
        wrapped,
        max_nesting_depth,
        tail,
        first,
    );
    assert(Seq::<Seq<u8>>::empty() + new =~= new);
    assert(moved_by(source, grown, open + 1, by));
    lemma_tail_reads_off(source, grown, open + 1, by, open, region, stop);
    assert(grown[open] == source[open]);
    assert(source[region.close - 1] == grown[region.close - 1 + by]);
    lemma_items_are_what_was_read(grown, open, open + 1 + by, stop, stop.texts(grown), region.close + by);
}

/// A container's new members are read behind its old ones.
#[verifier::spinoff_prover]
#[verifier::rlimit(40)]
proof fn lemma_commented_container_grows(
    source: Seq<u8>,
    open: int,
    at: int,
    region: Region,
    members: EditAppendMembers,
    separator: Seq<u8>,
    wrapped: bool,
    max_nesting_depth: usize,
)
    requires
        0 <= open < source.len(),
        opener(source[open]),
        region_from(source, open + 1, 1, open) == Some(region),
        open < region.value_end <= at < region.close <= source.len(),
        forall|i: int| region.value_end <= i < at ==> json_ws(#[trigger] source[i]),
        source[region.close - 1] == closer_of(source[open]),
        members.count() > 0,
        members_spelled(members),
        separates(separator),
    ensures
        commented_items(source, open) is Some,
        commented_items(
            source.take(at) + (separator + added(members, 0, separator, false, wrapped, max_nesting_depth)) + source.skip(
                at,
            ),
            open,
        ) == Some(commented_items(source, open)->0 + pieces(members, 0, wrapped, max_nesting_depth)),
{
    let head = source.take(at);
    let tail = source.skip(at);
    let rest = added(members, 0, separator, false, wrapped, max_nesting_depth);
    let text = separator + rest;
    let grown = head + text + tail;
    let by = text.len() as int;
    let next = at + separator.len() as int;
    assert forall|i: int| 0 <= i < at implies #[trigger] source[i] == grown[i] by {}
    let stop = lemma_old_members_are_read(source, grown, open, at, region);
    assert(moved_by(source, source, at, 0));
    lemma_tail_reads_off(source, source, at, 0, region.value_end, region, stop);
    lemma_items_are_what_was_read(source, open, at, stop, stop.texts(source), region.close);
    assert(grown =~= head + separator + (rest + tail));
    assert(grown =~= (head + separator) + rest + tail);
    lemma_members_pass_a_separator(head, separator, rest + tail, stop);
    let past = stop.past_comma(grown);
    let after = lemma_members_pass_what_was_added(
        head + separator,
        members,
        0,
        separator,
        false,
        wrapped,
        max_nesting_depth,
        tail,
        past,
    );
    lemma_reads_on(grown, open + 1, fresh(open), at, stop, next, past);
    lemma_reads_on(grown, open + 1, fresh(open), next, past, at + by, after);
    assert(moved_by(source, grown, at, by));
    lemma_tail_reads_off(source, grown, at, by, region.value_end, region, after);
    assert(grown[open] == source[open]);
    assert(source[region.close - 1] == grown[region.close - 1 + by]);
    lemma_items_are_what_was_read(grown, open, at + by, after, after.texts(grown), region.close + by);
}

/// A grown commented container holds its old members and then the new ones, each on its own: reading the members of a
/// container with the new ones spliced in gives the texts that were there, unchanged and in order, and behind them the
/// texts of the added members. Behind the last value of a container that wraps, at most one comma stands.
pub proof fn lemma_grown_commented_container_holds_old_and_new(
    source: Seq<u8>,
    open: int,
    members: EditAppendMembers,
    max_nesting_depth: usize,
)
    requires
        jsonc_region(source, open) matches Some(region) && ((jsonc_growth_plan(source, open)->0).wrapped ==> trails(
            source,
            region.value_end,
            region.close - 1,
            true,
        )),
        members.count() > 0,
        members_spelled(members),
    ensures
        jsonc_growth_plan(source, open) is Some,
        commented_items(source, open) is Some,
        ({
            let plan = jsonc_growth_plan(source, open)->0;
            let text = members.text(
                members.count() as int,
                plan.separator,
                plan.empty,
                plan.wrapped,
                max_nesting_depth,
            ).bytes;
            commented_items(source.take(plan.at) + text + source.skip(plan.at), open) == Some(
                commented_items(source, open)->0 + pieces(members, 0, plan.wrapped, max_nesting_depth),
            )
        }),
{
    let region = jsonc_region(source, open)->0;
    let plan = jsonc_growth_plan(source, open)->0;
    let rest = added(members, 0, plan.separator, plan.empty, plan.wrapped, max_nesting_depth);
    let lead = joint(0, plan.separator, plan.empty);
    lemma_growth_keeps_trailing_comments(source, open);
    lemma_region_from(source, open, 0, open);
    assert(region_from(source, open, 0, open) == region_from(source, open + 1, 1, open));
    lemma_added_text(members, 0, plan.separator, plan.empty, plan.wrapped, max_nesting_depth);
    let text = members.text(
        members.count() as int,
        plan.separator,
        plan.empty,
        plan.wrapped,
        max_nesting_depth,
    ).bytes;
    assert(text =~= lead + rest);
    if plan.empty {
        assert(lead + rest =~= rest);
        lemma_empty_commented_container_grows(
            source,
            open,
            region,
            members,
            plan.separator,
            plan.wrapped,
            max_nesting_depth,
        );
        let new = pieces(members, 0, plan.wrapped, max_nesting_depth);
        assert(Seq::<Seq<u8>>::empty() + new =~= new);
    } else {
        lemma_commented_separator(source, open, region.value_end, region.close, plan.wrapped);
        lemma_commented_container_grows(
            source,
            open,
            plan.at,
            region,
            members,
            plan.separator,
            plan.wrapped,
            max_nesting_depth,
        );
    }
}

} // verus!
