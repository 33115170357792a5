//! What an edit keeps of its author's style, byte by byte: where an added member's line starts, and what a removed member
//! takes with it.

use vstd::prelude::*;

use crate::byte_scan::{lemma_run_end_is, StopSet};
use crate::edit::{
    blank_end, cut_range, growth_plan, is_line_break, joint, region_end, separator_text, through_last_break,
    EditAppendMembers,
};
use crate::edit_laws::members_spelled;
use crate::edit_support::{back_over_ws, back_to_line};
use crate::encode_text::quoted;
use crate::options::{JsonEncodeOptions, JsonIndent};
use crate::render::{render_value, RenderStyle};
use crate::value::utf8;

verus! {

/// A byte of JSON's whitespace.
pub open spec fn white(byte: u8) -> bool {
    byte == 0x20 || byte == 0x09 || byte == 0x0a || byte == 0x0d
}

/// Whether the line that holds the byte before `at` starts at `line`, as far as a container opened at `open` reaches: no
/// line feed stands between, and one stands before `line`, or the container opens there.
pub open spec fn line_starts_at(source: Seq<u8>, open: int, at: int, line: int) -> bool {
    &&& open <= line < at
    &&& forall|i: int| line <= i < at - 1 ==> #[trigger] source[i] != 0x0a
    &&& line == open || source[line - 1] == 0x0a
}

/// Whether the spaces and tabs that stand at `line` end before `to`.
pub open spec fn indented_to(source: Seq<u8>, line: int, to: int) -> bool {
    &&& line <= to <= source.len()
    &&& forall|i: int| line <= i < to ==> #[trigger] source[i] == 0x20 || source[i] == 0x09
    &&& to == source.len() || (source[to] != 0x20 && source[to] != 0x09)
}

/// Whether the last line feed or carriage return from `from` up to `to` stands at `at`.
pub open spec fn last_break_at(source: Seq<u8>, from: int, to: int, at: int) -> bool {
    &&& from <= at < to
    &&& source[at] == 0x0a || source[at] == 0x0d
    &&& forall|i: int| at < i < to ==> #[trigger] source[i] != 0x0a && source[i] != 0x0d
}

pub(crate) proof fn lemma_line_is(source: Seq<u8>, from: int, floor: int, line: int)
    requires
        0 <= floor <= line <= from,
        forall|i: int| line <= i < from ==> #[trigger] source[i] != 0x0a,
        line == floor || source[line - 1] == 0x0a,
    ensures
        back_to_line(source, from, floor) == line,
    decreases from - line,
{
    if from > line {
        assert(source[from - 1] != 0x0a);
        lemma_line_is(source, from - 1, floor, line);
    }
}

pub(crate) proof fn lemma_blank_end_is(source: Seq<u8>, from: int, to: int)
    requires
        0 <= from,
        indented_to(source, from, to),
    ensures
        blank_end(source, from) == to,
    decreases to - from,
{
    if from < to {
        assert(source[from] == 0x20 || source[from] == 0x09);
        lemma_blank_end_is(source, from + 1, to);
    }
}

pub(crate) proof fn lemma_through_break_is(run: Seq<u8>, at: int)
    requires
        last_break_at(run, 0, run.len() as int, at),
    ensures
        through_last_break(run) == run.take(at + 1),
    decreases run.len(),
{
    if at == run.len() - 1 {
        assert(run.take(at + 1) =~= run);
    } else {
        assert(run.last() == run[run.len() - 1]);
        assert(run.drop_last().take(at + 1) =~= run.take(at + 1));
        lemma_through_break_is(run.drop_last(), at);
    }
}

/// What parts an added member from the one before it, read off the container's own bytes. Behind a last value that a line
/// break follows, it is a comma, what stands from the value to the last line break before the closing delimiter, and
/// exactly the spaces and tabs that the line of the value's final byte starts with; behind one on the closing
/// delimiter's line it is a comma and nothing else.
pub proof fn lemma_separator_keeps_the_indentation(
    source: Seq<u8>,
    open: int,
    value_end: int,
    close: int,
    line: int,
    indent: int,
    at: int,
)
    requires
        0 <= open < value_end < close <= source.len(),
        line_starts_at(source, open, value_end, line),
        indented_to(source, line, indent),
    ensures
        last_break_at(source, value_end, close - 1, at) ==> separator_text(source, open, value_end, close, false, true)
            == seq![0x2cu8] + source.subrange(value_end, at + 1) + source.subrange(line, indent),
        separator_text(source, open, value_end, close, false, false) == seq![0x2cu8],
{
    lemma_line_is(source, value_end - 1, open, line);
    lemma_blank_end_is(source, line, indent);
    if last_break_at(source, value_end, close - 1, at) {
        let run = source.subrange(value_end, close - 1);
        assert forall|i: int| at - value_end < i < run.len() implies #[trigger] run[i] != 0x0a && run[i] != 0x0d by {
            assert(run[i] == source[value_end + i]);
        }
        lemma_through_break_is(run, at - value_end);
        assert(run.take(at - value_end + 1) =~= source.subrange(value_end, at + 1));
    }
}

proof fn lemma_back_is(source: Seq<u8>, from: int, floor: int, to: int)
    requires
        0 <= floor < to <= from <= source.len(),
        !white(source[to - 1]),
        forall|i: int| to <= i < from ==> white(#[trigger] source[i]),
    ensures
        back_over_ws(source, from, floor) == to,
    decreases from - to,
{
    if from > to {
        assert(white(source[from - 1]));
        lemma_back_is(source, from - 1, floor, to);
    }
}

/// A container grows right behind its last value, in front of the whitespace before its closing delimiter, and right behind
/// its opening delimiter where it holds nothing; it wraps where a line break stands in that whitespace.
pub proof fn lemma_growth_lands_behind_the_last_value(source: Seq<u8>, open: int, value_end: int, close: int)
    requires
        region_end(source, open) == Some(close),
        0 <= open < value_end < close <= source.len(),
        !white(source[value_end - 1]),
        forall|i: int| value_end <= i < close - 1 ==> white(#[trigger] source[i]),
        value_end - 1 > open ==> source[value_end - 1] != 0x7b && source[value_end - 1] != 0x5b,
    ensures
        ({
            let plan = growth_plan(source, open);
            &&& plan matches Some(plan)
            &&& plan.at == value_end
            &&& plan.empty <==> value_end == open + 1
            &&& plan.wrapped <==> value_end != open + 1 && exists|i: int|
                value_end <= i < close - 1 && (#[trigger] source[i] == 0x0a || source[i] == 0x0d)
        }),
{
    lemma_back_is(source, close - 1, open, value_end);
    if exists|i: int| value_end <= i < close - 1 && (#[trigger] source[i] == 0x0a || source[i] == 0x0d) {
        let i = choose|i: int| value_end <= i < close - 1 && (#[trigger] source[i] == 0x0a || source[i] == 0x0d);
        assert(is_line_break(source[i]));
    }
}

/// Where added member `index` starts in the text of the members.
pub open spec fn piece_start(
    members: EditAppendMembers,
    index: int,
    separator: Seq<u8>,
    empty: bool,
    wrapped: bool,
    max_nesting_depth: usize,
) -> int {
    members.text(index, separator, empty, wrapped, max_nesting_depth).bytes.len() + if !empty {
        separator.len() as int
    } else if index > 0 {
        1
    } else {
        0
    }
}

proof fn lemma_piece_stands(
    members: EditAppendMembers,
    index: int,
    upto: int,
    separator: Seq<u8>,
    empty: bool,
    wrapped: bool,
    max_nesting_depth: usize,
)
    requires
        0 <= index < upto,
    ensures
        ({
            let text = members.text(upto, separator, empty, wrapped, max_nesting_depth).bytes;
            let before = members.text(index, separator, empty, wrapped, max_nesting_depth).bytes.len() as int;
            let at = piece_start(members, index, separator, empty, wrapped, max_nesting_depth);
            let piece = members.piece(index, wrapped, max_nesting_depth).bytes;
            &&& 0 <= before <= at <= at + piece.len() <= text.len()
            &&& text.subrange(at, at + piece.len()) == piece
            &&& !empty ==> text.subrange(before, at) == separator
            &&& empty && index > 0 ==> text[before] == 0x2c
        }),
    decreases upto,
{
    let text = members.text(upto, separator, empty, wrapped, max_nesting_depth).bytes;
    let before = members.text(index, separator, empty, wrapped, max_nesting_depth).bytes.len() as int;
    let at = piece_start(members, index, separator, empty, wrapped, max_nesting_depth);
    let piece = members.piece(index, wrapped, max_nesting_depth).bytes;
    let head = members.text(upto - 1, separator, empty, wrapped, max_nesting_depth).bytes;
    let lead = joint(upto - 1, separator, empty);
    let last = members.piece(upto - 1, wrapped, max_nesting_depth).bytes;
    assert(text == head + lead + last);
    if index < upto - 1 {
        lemma_piece_stands(members, index, upto - 1, separator, empty, wrapped, max_nesting_depth);
        assert(text.subrange(at, at + piece.len()) =~= head.subrange(at, at + piece.len()));
        assert(text.subrange(before, at) =~= head.subrange(before, at));
        if empty && index > 0 {
            assert(text[before] == head[before]);
        }
    } else {
        assert(text.subrange(at, at + piece.len()) =~= piece);
        assert(text.subrange(before, at) =~= lead);
        if empty && index > 0 {
            assert(text[before] == lead[0]);
        }
    }
}

/// In a grown container whose members stand on lines of their own, every added member stands on a line of its own too, and
/// that line starts with exactly the spaces and tabs that the line of the last member's final byte starts with, whatever
/// kind of value that member holds.
#[verifier::spinoff_prover]
#[verifier::rlimit(40)]
pub proof fn lemma_added_lines_start_as_the_last_member(
    source: Seq<u8>,
    open: int,
    value_end: int,
    close: int,
    line: int,
    indent: int,
    at: int,
    members: EditAppendMembers,
    index: int,
    max_nesting_depth: usize,
)
    requires
        region_end(source, open) == Some(close),
        0 <= open < value_end < close <= source.len(),
        value_end > open + 1,
        !white(source[value_end - 1]) && source[value_end - 1] != 0x7b && source[value_end - 1] != 0x5b,
        forall|i: int| value_end <= i < close - 1 ==> white(#[trigger] source[i]),
        line_starts_at(source, open, value_end, line),
        indented_to(source, line, indent),
        last_break_at(source, value_end, close - 1, at),
        0 <= index < members.count(),
        members_spelled(members),
    ensures
        ({
            let plan = growth_plan(source, open)->0;
            let text = members.text(
                members.count() as int,
                plan.separator,
                plan.empty,
                plan.wrapped,
                max_nesting_depth,
            ).bytes;
            let grown = source.take(plan.at) + text + source.skip(plan.at);
            let start = plan.at + piece_start(
                members,
                index,
                plan.separator,
                plan.empty,
                plan.wrapped,
                max_nesting_depth,
            );
            let piece = members.piece(index, true, max_nesting_depth).bytes;
            let width = indent - line;
            &&& growth_plan(source, open) is Some
            &&& grown.subrange(start, start + piece.len()) == piece
            &&& piece.len() > 0 && !white(piece[0])
            &&& grown.subrange(start - width, start) == source.subrange(line, indent)
            &&& grown[start - width - 1] == source[at]
            &&& source[at] == 0x0a || source[at] == 0x0d
        }),
{
    lemma_growth_lands_behind_the_last_value(source, open, value_end, close);
    assert(source[at] == 0x0a || source[at] == 0x0d);
    lemma_separator_keeps_the_indentation(source, open, value_end, close, line, indent, at);
    let plan = growth_plan(source, open)->0;
    lemma_back_is(source, close - 1, open, value_end);
    let separator = plan.separator;
    assert(plan.wrapped && !plan.empty);
    let width = indent - line;
    lemma_piece_stands(members, index, members.count() as int, separator, false, true, max_nesting_depth);
    crate::growth_laws::lemma_piece_is_read(seq![], members, index, true, max_nesting_depth, seq![0x2cu8]);
    let text = members.text(members.count() as int, separator, false, true, max_nesting_depth).bytes;
    let own = piece_start(members, index, separator, false, true, max_nesting_depth);
    let before = own - separator.len();
    let piece = members.piece(index, true, max_nesting_depth).bytes;
    let grown = source.take(plan.at) + text + source.skip(plan.at);
    let start = plan.at + own;
    assert(grown.subrange(start, start + piece.len()) =~= text.subrange(own, own + piece.len()));
    let tail = source.subrange(line, indent);
    assert(separator.len() == 1 + (at + 1 - value_end) + width);
    assert forall|i: int| 0 <= i < separator.len() implies #[trigger] grown[start - separator.len() + i] == separator[i] by {
        assert(text.subrange(before, own)[i] == text[before + i]);
        assert(grown[plan.at + (before + i)] == text[before + i]);
    }
    assert forall|i: int| 0 <= i < width implies #[trigger] grown.subrange(start - width, start)[i] == tail[i] by {
        let k = separator.len() - width + i;
        assert(grown[start - separator.len() + k] == separator[k]);
    }
    assert(grown.subrange(start - width, start) =~= tail);
    let k = separator.len() - width - 1;
    assert(grown[start - separator.len() + k] == separator[k]);
    assert(separator[k] == source.subrange(value_end, at + 1)[at - value_end]);
}

/// A container that does not wrap stays on its line: behind its last value, or behind the member added before, an added
/// member follows a comma and nothing else, and the first member of an empty container follows its opening delimiter.
pub proof fn lemma_unwrapped_members_follow_a_comma(
    source: Seq<u8>,
    open: int,
    value_end: int,
    close: int,
    members: EditAppendMembers,
    index: int,
    max_nesting_depth: usize,
)
    requires
        region_end(source, open) == Some(close),
        0 <= open < value_end < close <= source.len(),
        !white(source[value_end - 1]),
        value_end - 1 > open ==> source[value_end - 1] != 0x7b && source[value_end - 1] != 0x5b,
        forall|i: int| value_end <= i < close - 1 ==> white(#[trigger] source[i]),
        value_end == open + 1 || forall|i: int|
            value_end <= i < close - 1 ==> #[trigger] source[i] != 0x0a && source[i] != 0x0d,
        0 <= index < members.count(),
    ensures
        ({
            let plan = growth_plan(source, open)->0;
            let text = members.text(
                members.count() as int,
                plan.separator,
                plan.empty,
                plan.wrapped,
                max_nesting_depth,
            ).bytes;
            let before = members.text(index, plan.separator, plan.empty, plan.wrapped, max_nesting_depth).bytes.len();
            let piece = members.piece(index, false, max_nesting_depth).bytes;
            let bare = value_end == open + 1 && index == 0;
            let start = before + if bare {
                0int
            } else {
                1
            };
            &&& growth_plan(source, open) is Some && !plan.wrapped && plan.at == value_end
            &&& !bare ==> text[before as int] == 0x2c
            &&& text.subrange(start, start + piece.len()) == piece
        }),
{
    lemma_growth_lands_behind_the_last_value(source, open, value_end, close);
    let plan = growth_plan(source, open)->0;
    lemma_back_is(source, close - 1, open, value_end);
    lemma_piece_stands(members, index, members.count() as int, plan.separator, plan.empty, plan.wrapped, max_nesting_depth);
    if !plan.empty {
        let text = members.text(
            members.count() as int,
            plan.separator,
            plan.empty,
            plan.wrapped,
            max_nesting_depth,
        ).bytes;
        let before = members.text(index, plan.separator, plan.empty, plan.wrapped, max_nesting_depth).bytes.len() as int;
        assert(plan.separator == seq![0x2cu8]);
        assert(text.subrange(before, before + 1)[0] == text[before]);
    }
}

/// Whether nothing but whitespace stands from `from` up to `to`, and something else at `to`.
pub open spec fn white_to(source: Seq<u8>, from: int, to: int) -> bool {
    &&& from <= to < source.len()
    &&& forall|i: int| from <= i < to ==> white(#[trigger] source[i])
    &&& !white(source[to])
}

pub(crate) proof fn lemma_white_run(source: Seq<u8>, from: int, to: int)
    requires
        0 <= from,
        white_to(source, from, to),
    ensures
        crate::byte_scan::run_end(source, from, StopSet::Ws) == to,
{
    assert forall|i: int| from <= i < to implies !StopSet::Ws.stops(#[trigger] source[i]) by {
        assert(white(source[i]));
    }
    lemma_run_end_is(source, from, StopSet::Ws, to);
}

/// A later member leaves with the comma before it and what stands between the two, and with nothing behind its value.
pub proof fn lemma_later_cut_starts_at_its_comma(source: Seq<u8>, open: int, comma: int, member: int, value_end: int)
    requires
        0 <= open < comma < member <= value_end <= source.len(),
        source[comma] == 0x2c,
        forall|i: int| comma < i < member ==> white(#[trigger] source[i]),
    ensures
        cut_range(source, open, member, value_end) == (comma, value_end),
{
    lemma_back_is(source, member, open, comma + 1);
}

/// The first member leaves with the whitespace it owned. Where it starts a line, the cut starts at the line feed before that
/// line, so neither the line nor its indentation is left behind; where it stands on the opening delimiter's line, the cut
/// starts right behind the delimiter. The cut takes the comma behind the value and nothing past it, or, where no member
/// follows, everything up to the closing delimiter.
pub proof fn lemma_first_cut_takes_its_line(
    source: Seq<u8>,
    open: int,
    member: int,
    value_end: int,
    feed: int,
    next: int,
    after: int,
)
    requires
        0 <= open < member <= value_end <= source.len(),
        source[open] == 0x7b || source[open] == 0x5b,
        forall|i: int| open < i < member ==> white(#[trigger] source[i]),
        // `feed` is the last line feed before the member, or the opening delimiter where there is none.
        open <= feed < member,
        feed == open || source[feed] == 0x0a,
        forall|i: int| feed < i < member ==> #[trigger] source[i] != 0x0a,
        white_to(source, value_end, next),
        source[next] == 0x2c ==> white_to(source, next + 1, after),
    ensures
        ({
            let (start, end) = cut_range(source, open, member, value_end);
            &&& start == if feed == open {
                open + 1
            } else {
                feed
            }
            &&& end == if source[next] == 0x2c && (source[after] == 0x7d || source[after] == 0x5d) {
                after
            } else if source[next] == 0x2c {
                next + 1
            } else if source[next] == 0x7d || source[next] == 0x5d {
                next
            } else {
                value_end
            }
        }),
{
    lemma_back_is(source, member, open, open + 1);
    lemma_white_run(source, value_end, next);
    if source[next] == 0x2c {
        lemma_white_run(source, next + 1, after);
    }
    if feed == open {
        lemma_line_is(source, member, open, open);
    } else {
        lemma_line_is(source, member, open, feed + 1);
    }
}

/// How many line feeds `bytes` holds.
pub open spec fn feeds(bytes: Seq<u8>) -> nat
    decreases bytes.len(),
{
    if bytes.len() == 0 {
        0
    } else {
        feeds(bytes.drop_last()) + if bytes.last() == 0x0a {
            1nat
        } else {
            0
        }
    }
}

proof fn lemma_feeds_add(left: Seq<u8>, right: Seq<u8>)
    ensures
        feeds(left + right) == feeds(left) + feeds(right),
    decreases right.len(),
{
    let whole = left + right;
    if right.len() == 0 {
        assert(whole =~= left);
    } else {
        assert(whole.drop_last() =~= left + right.drop_last());
        assert(whole.last() == right.last());
        lemma_feeds_add(left, right.drop_last());
    }
}

/// A removed first member that stood on a line of its own, with other members behind it, takes that line with it: what is
/// left holds as many lines fewer as the member and the whitespace before it took, one at least, and goes on right where
/// the member's comma was, so no line of its indentation stays.
#[verifier::spinoff_prover]
#[verifier::rlimit(40)]
pub proof fn lemma_a_removed_line_leaves_none_behind(
    source: Seq<u8>,
    open: int,
    member: int,
    value_end: int,
    feed: int,
    next: int,
    after: int,
)
    requires
        0 <= open < feed < member <= value_end <= source.len(),
        source[open] == 0x7b || source[open] == 0x5b,
        forall|i: int| open < i < member ==> white(#[trigger] source[i]),
        source[feed] == 0x0a,
        forall|i: int| feed < i < member ==> #[trigger] source[i] != 0x0a,
        white_to(source, value_end, next),
        source[next] == 0x2c,
        white_to(source, next + 1, after),
        source[after] != 0x7d && source[after] != 0x5d,
    ensures
        ({
            let (start, end) = cut_range(source, open, member, value_end);
            let left = source.take(start) + source.skip(end);
            &&& left == source.take(feed) + source.skip(next + 1)
            &&& feeds(left) + feeds(source.subrange(member, next + 1)) + 1 == feeds(source)
        }),
{
    lemma_first_cut_takes_its_line(source, open, member, value_end, feed, next, after);
    let gone = source.subrange(feed, next + 1);
    assert(source =~= source.take(feed) + (gone + source.skip(next + 1)));
    lemma_feeds_add(source.take(feed), gone + source.skip(next + 1));
    lemma_feeds_add(gone, source.skip(next + 1));
    lemma_feeds_add(source.take(feed), source.skip(next + 1));
    let lead = source.subrange(feed, member);
    let own = source.subrange(member, next + 1);
    assert(gone =~= lead + own);
    lemma_feeds_add(lead, own);
    let first = source.subrange(feed, feed + 1);
    let rest = source.subrange(feed + 1, member);
    assert(lead =~= first + rest);
    lemma_feeds_add(first, rest);
    assert(first.drop_last() =~= Seq::<u8>::empty());
    assert(first.last() == 0x0a);
    assert(feeds(first.drop_last()) == 0);
    assert(feeds(first) == 1);
    lemma_no_feeds(rest);
    let (start, end) = cut_range(source, open, member, value_end);
    assert(start == feed && end == next + 1);
}

proof fn lemma_no_feeds(bytes: Seq<u8>)
    requires
        forall|i: int| 0 <= i < bytes.len() ==> #[trigger] bytes[i] != 0x0a,
    ensures
        feeds(bytes) == 0,
    decreases bytes.len(),
{
    if bytes.len() > 0 {
        assert(bytes.last() == bytes[bytes.len() - 1]);
        lemma_no_feeds(bytes.drop_last());
    }
}

/// An added object member is its key in quotes, a colon, with a space behind it where the container wraps, and its value; an
/// added element is its value alone. A value is written compact, with its texts in quotes.
pub proof fn lemma_added_member_is_written(members: EditAppendMembers, index: int, wrapped: bool, limit: usize)
    requires
        0 <= index < members.count(),
    ensures
        ({
            let piece = members.piece(index, wrapped, limit).bytes;
            let style = RenderStyle {
                options: JsonEncodeOptions {
                    indent: JsonIndent::Compact,
                    raw_strings: false,
                    sort_keys: false,
                    ascii_output: false,
                    raw_output_nul: false,
                },
                comments: false,
                trailing_commas: false,
                max_nesting_depth: limit,
            };
            match members {
                EditAppendMembers::Table(members) => {
                    let member = members@[index];
                    let head = quoted(utf8(member.key), false);
                    let value = render_value(member.item.value, 0, style).bytes;
                    piece == if wrapped {
                        head + seq![0x3au8, 0x20u8] + value
                    } else {
                        head + seq![0x3au8] + value
                    }
                },
                EditAppendMembers::Array(items) => piece == render_value(items@[index].value, 0, style).bytes,
            }
        }),
{
}

} // verus!
