//! What a comment write puts where, byte by byte: the lines it writes, the column it writes them at, and what it takes
//! away for them.

use vstd::prelude::*;

use crate::edit::string_close;
use crate::edit_style_laws::{lemma_line_is, white};
use crate::value::utf8;
use crate::jsonc::comments::{block_start, comments_indent, comments_place, slash_text, slash_texts};
use crate::jsonc::encode::line_back;
use crate::jsonc::seam::{lemma_seam_is_trivia, noted, piece_at, seam_before, seam_from, trivia_between, Piece, Seam};
use crate::render::{comment_block, comment_lines};
use crate::trivia_laws::{closes_at, lemma_block_close_is, lemma_line_end_is};

verus! {

/// Lines with a line feed between each two of them.
pub open spec fn joined(lines: Seq<Seq<u8>>) -> Seq<u8>
    decreases lines.len(),
{
    if lines.len() == 0 {
        seq![]
    } else if lines.len() == 1 {
        lines[0]
    } else {
        lines[0] + seq![0x0au8] + joined(lines.skip(1))
    }
}

/// Lines that each stand behind `before`, two slashes and, where the line holds anything, a space, and in front of
/// `after`.
pub open spec fn slashed(before: Seq<u8>, lines: Seq<Seq<u8>>, after: Seq<u8>) -> Seq<u8>
    decreases lines.len(),
{
    if lines.len() == 0 {
        seq![]
    } else {
        before + seq![0x2fu8, 0x2fu8] + (if lines[0].len() > 0 {
            seq![0x20u8]
        } else {
            seq![]
        }) + lines[0] + after + slashed(before, lines.skip(1), after)
    }
}

/// Whether no line holds a line feed.
pub open spec fn feedless(lines: Seq<Seq<u8>>) -> bool {
    forall|i: int, k: int| 0 <= i < lines.len() && 0 <= k < lines[i].len() ==> #[trigger] lines[i][k] != 0x0a
}

/// A comment takes a `//` line for every line of its text, blank ones with it, and no other: a comment write puts each
/// behind the indentation and ends it with a line feed, and a render ends each with the layout's line break.
pub proof fn lemma_comment_takes_a_line_for_each_line(indent: Seq<u8>, lines: Seq<Seq<u8>>, ending: Seq<u8>)
    requires
        lines.len() > 0,
        feedless(lines),
    ensures
        slash_text(indent, joined(lines)) == slashed(indent, lines, seq![0x0au8]),
        comment_block(joined(lines), ending) == slashed(seq![], lines, ending),
    decreases lines.len(),
{
    let text = joined(lines);
    let first = lines[0];
    let rest = lines.skip(1);
    assert forall|k: int| 0 <= k < first.len() implies #[trigger] text[k] != 0x0a by {
        assert(text[k] == lines[0][k]);
    }
    lemma_line_end_is(text, 0, first.len() as int);
    if lines.len() == 1 {
        assert(slashed(indent, rest, seq![0x0au8]) =~= seq![]);
        assert(slashed(seq![], rest, ending) =~= seq![]);
    } else {
        assert forall|i: int, k: int| 0 <= i < rest.len() && 0 <= k < rest[i].len() implies #[trigger] rest[i][k] != 0x0a by {
            assert(lines[i + 1][k] != 0x0a);
        }
        lemma_comment_takes_a_line_for_each_line(indent, rest, ending);
        assert(text.take(first.len() as int) =~= first);
        assert(text.skip(first.len() + 1int) =~= joined(rest));
    }
    assert(slash_text(indent, text) =~= slashed(indent, lines, seq![0x0au8]));
    assert(comment_block(text, ending) =~= slashed(seq![], lines, ending));
}

/// Comments are written one behind the other, the first one first.
pub proof fn lemma_comments_are_written_in_order(indent: Seq<u8>, texts: Seq<String>, ending: Seq<u8>)
    ensures
        texts.len() == 0 ==> slash_texts(indent, texts).len() == 0 && comment_lines(texts, ending).len() == 0,
        texts.len() > 0 ==> slash_texts(indent, texts) == slash_text(indent, utf8(texts[0])) + slash_texts(
            indent,
            texts.skip(1),
        ),
        texts.len() > 0 ==> comment_lines(texts, ending) == comment_block(utf8(texts[0]), ending) + comment_lines(
            texts.skip(1),
            ending,
        ),
    decreases texts.len(),
{
    if texts.len() == 1 {
        assert(texts.drop_last() =~= seq![]);
        assert(texts.skip(1) =~= seq![]);
        assert(slash_texts(indent, texts.drop_last()) =~= seq![]);
        assert(comment_lines(texts.drop_last(), ending) =~= seq![]);
    } else if texts.len() > 1 {
        let early = texts.drop_last();
        lemma_comments_are_written_in_order(indent, early, ending);
        assert(early.skip(1) =~= texts.skip(1).drop_last());
        assert(texts.skip(1).last() == texts.last());
        assert(slash_texts(indent, texts) =~= slash_text(indent, utf8(texts[0])) + slash_texts(indent, texts.skip(1)));
        assert(comment_lines(texts, ending) =~= comment_block(utf8(texts[0]), ending) + comment_lines(
            texts.skip(1),
            ending,
        ));
    }
}

/// The comments of a member that starts its line are written where that line starts, behind the member's own indentation;
/// those of a member with anything else before it on its line are written right before it, behind nothing.
pub proof fn lemma_comments_stand_at_the_members_column(source: Seq<u8>, member: int, line: int)
    requires
        0 <= line <= member <= source.len(),
        line == 0 || source[line - 1] == 0x0a,
        forall|i: int| line <= i < member ==> #[trigger] source[i] != 0x0a,
    ensures
        (forall|i: int| line <= i < member ==> white(#[trigger] source[i])) ==> comments_place(source, member) == line
            && comments_indent(source, member) == source.subrange(line, member),
        !(forall|i: int| line <= i < member ==> white(#[trigger] source[i])) ==> comments_place(source, member) == member
            && comments_indent(source, member).len() == 0,
{
    lemma_line_is(source, member, 0, line);
    if forall|i: int| line <= i < member ==> white(#[trigger] source[i]) {
        assert forall|i: int| line <= i < member implies crate::byte_scan::json_ws(#[trigger] source[i]) by {
            assert(white(source[i]));
        }
    } else {
        let i = choose|i: int| line <= i < member && !white(#[trigger] source[i]);
        assert(!crate::byte_scan::json_ws(source[i]));
    }
}

/// What a source is made of, read off its bytes: a byte of whitespace; a `//` comment up to its line feed or the end; a
/// block comment through its first `*/`; a string through the first of its own quotes that no backslash takes with it;
/// and any other byte by itself.
pub proof fn lemma_pieces_are_read_off_the_bytes(source: Seq<u8>, at: int, end: int)
    requires
        0 <= at < source.len(),
    ensures
        white(source[at]) ==> piece_at(source, at) == Some((Piece::Space, at + 1)),
        at + 1 < source.len() && source[at] == 0x2f && source[at + 1] == 0x2f && at + 2 <= end <= source.len() && (forall|
            i: int,
        |
            at + 2 <= i < end ==> #[trigger] source[i] != 0x0a) && (end == source.len() || source[end] == 0x0a)
            ==> piece_at(source, at) == Some((Piece::LineComment, end)),
        at + 1 < source.len() && source[at] == 0x2f && source[at + 1] == 0x2a && at + 2 <= end && closes_at(source, end)
            && (forall|i: int| at + 2 <= i < end ==> !#[trigger] closes_at(source, i)) ==> piece_at(source, at) == Some(
            (Piece::BlockComment, end + 2),
        ),
        !white(source[at]) && source[at] != 0x22 && source[at] != 0x27 && !(source[at] == 0x2f && at + 1 < source.len() && (
        source[at + 1] == 0x2f || source[at + 1] == 0x2a)) ==> piece_at(source, at) == Some((Piece::Token, at + 1)),
        (source[at] == 0x22 || source[at] == 0x27) && at < end < source.len() && in_string(source, at + 1, end, source[at])
            && source[end] == source[at] ==> piece_at(source, at) == Some((Piece::Token, end + 1)),
{
    if at + 1 < source.len() && source[at] == 0x2f && source[at + 1] == 0x2f && at + 2 <= end <= source.len() && (forall|
        i: int,
    |
        at + 2 <= i < end ==> #[trigger] source[i] != 0x0a) && (end == source.len() || source[end] == 0x0a) {
        lemma_line_end_is(source, at + 2, end);
    }
    if at + 1 < source.len() && source[at] == 0x2f && source[at + 1] == 0x2a && at + 2 <= end && closes_at(source, end) && (
    forall|i: int| at + 2 <= i < end ==> !#[trigger] closes_at(source, i)) {
        lemma_block_close_is(source, at + 2, end);
    }
    if (source[at] == 0x22 || source[at] == 0x27) && at < end < source.len() && in_string(source, at + 1, end, source[at])
        && source[end] == source[at] {
        lemma_string_ends(source, at + 1, end, source[at]);
    }
}

/// Whether the bytes from `from` to `to` stay inside a string of `quote`: none of them is the quote, unless a backslash
/// right before takes it with it.
pub open spec fn in_string(source: Seq<u8>, from: int, to: int, quote: u8) -> bool
    decreases to - from,
{
    if from >= to {
        from == to
    } else if source[from] == 0x5c {
        from + 2 <= to && in_string(source, from + 2, to, quote)
    } else {
        source[from] != quote && in_string(source, from + 1, to, quote)
    }
}

proof fn lemma_string_ends(source: Seq<u8>, from: int, to: int, quote: u8)
    requires
        0 <= from <= to < source.len(),
        quote == 0x22 || quote == 0x27,
        in_string(source, from, to, quote),
        source[to] == quote,
    ensures
        string_close(source, from, quote) == Some(to + 1),
    decreases to - from,
{
    if from < to {
        if source[from] == 0x5c {
            lemma_string_ends(source, from + 2, to, quote);
        } else {
            lemma_string_ends(source, from + 1, to, quote);
        }
    }
}

/// Whether whole pieces lead from `from` to `to`.
pub open spec fn pieces_lead(source: Seq<u8>, from: int, to: int) -> bool
    decreases to - from,
{
    from == to || match piece_at(source, from) {
        Some((_, end)) => from < end <= to && pieces_lead(source, end, to),
        None => false,
    }
}

/// A scan that meets the start of a line and then only trivia has noted that line, or one before it.
proof fn lemma_seam_notes_the_line(source: Seq<u8>, at: int, line: int, target: int, seam: Seam)
    requires
        0 <= at <= line <= target <= source.len() <= usize::MAX,
        pieces_lead(source, at, line),
        line == 0 || source[line - 1] == 0x0a,
        trivia_between(source, line, target),
        seam.line matches Some(noted) ==> noted <= at,
    ensures
        seam_from(source, at, target, seam) matches Some(found) && found.line matches Some(noted) && noted <= line,
    decreases line - at,
{
    let marked = noted(source, at, seam);
    if at == line {
        lemma_seam_keeps_the_line(source, at, target, seam);
    } else {
        let (piece, end) = piece_at(source, at)->0;
        lemma_seam_notes_the_line(
            source,
            end,
            line,
            target,
            match piece {
                Piece::Token => Seam { end: end as usize, block: false, line: None },
                Piece::BlockComment => Seam { block: true, ..marked },
                _ => marked,
            },
        );
    }
}

proof fn lemma_seam_keeps_the_line(source: Seq<u8>, at: int, target: int, seam: Seam)
    requires
        0 <= at <= target <= source.len() <= usize::MAX,
        trivia_between(source, at, target),
    ensures
        noted(source, at, seam).line matches Some(line) ==> (seam_from(source, at, target, seam) matches Some(found)
            && found.line == Some(line)),
    decreases target - at,
{
    if at < target {
        let marked = noted(source, at, seam);
        let (piece, end) = piece_at(source, at)->0;
        if marked.line is Some {
            lemma_seam_keeps_the_line(
                source,
                end,
                target,
                match piece {
                    Piece::BlockComment => Seam { block: true, ..marked },
                    _ => marked,
                },
            );
        }
    }
}

/// A comment write replaces every whole line of comments and whitespace that leads up to the member: no line that it takes
/// away holds anything else, and no such line stays above those it writes.
pub proof fn lemma_comment_write_takes_every_line_above(source: Seq<u8>, line: int, member: int)
    requires
        0 <= line <= comments_place(source, member) <= member <= source.len() <= usize::MAX,
        pieces_lead(source, 0, line),
        line == 0 || source[line - 1] == 0x0a,
        trivia_between(source, line, member),
    ensures
        ({
            let block = block_start(source, member, comments_place(source, member));
            &&& 0 <= block <= line
            &&& trivia_between(source, block, member)
            &&& block == 0 || block == comments_place(source, member) || source[block - 1] == 0x0a
        }),
{
    let start = Seam { end: 0, block: false, line: None };
    lemma_seam_notes_the_line(source, 0, line, member, start);
    lemma_seam_is_trivia(source, 0, member);
    assert(seam_before(source, 0, member) == seam_from(source, 0, member, start));
}

/// A line starts behind the last line feed before it, and at the floor where there is none; past the end of the bytes it is
/// the last line.
pub proof fn lemma_lines_start_behind_their_feed(source: Seq<u8>, at: int, line: int, floor: int)
    requires
        0 <= line <= at,
        line <= source.len(),
        line == 0 || source[line - 1] == 0x0a,
        forall|i: int| line <= i < at && i < source.len() ==> #[trigger] source[i] != 0x0a,
    ensures
        line_back(source, at, floor) == if line == 0 {
            floor
        } else {
            line
        },
{
    let from = if at < source.len() {
        at
    } else {
        source.len() as int
    };
    lemma_line_is(source, from, 0, line);
}

} // verus!
