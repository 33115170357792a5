//! What the trivia scan makes of written comments: they are trivia, and they are read back line by line.

use vstd::prelude::*;

use crate::ascii::{CR, LF, SLASH, SPACE, STAR};

use crate::byte_scan::{
    block_close, json5_ws_at, json_ws, lemma_block_close, lemma_line_end, lemma_run_end, lemma_run_end_is,
    line_comment_body, line_end, run_end, trivia_from, StopSet, Trivia,
};
use crate::grammar::JsonGrammar;
use crate::render::{comment_block, comment_line, comment_lines, line_break, RenderStyle};
use crate::render_laws::lemma_run_end_shifts;
use crate::value::utf8;

verus! {

/// A scan that starts `by` bytes further on.
pub open spec fn moved(trivia: Trivia, by: int) -> Trivia {
    Trivia { end: trivia.end + by, ..trivia }
}

/// A scan with more comments in front.
pub open spec fn led(bodies: Seq<Seq<u8>>, trivia: Trivia) -> Trivia {
    Trivia { bodies: bodies + trivia.bodies, ..trivia }
}

proof fn lemma_line_end_moves(before: Seq<u8>, bytes: Seq<u8>, at: int)
    requires
        0 <= at,
    ensures
        line_end(before + bytes, before.len() + at) == before.len() + line_end(bytes, at),
    decreases bytes.len() - at,
{
    if at < bytes.len() {
        assert((before + bytes)[before.len() + at] == bytes[at]);
        if bytes[at] != LF {
            lemma_line_end_moves(before, bytes, at + 1);
        }
    }
}

proof fn lemma_block_close_moves(before: Seq<u8>, bytes: Seq<u8>, at: int)
    requires
        0 <= at,
    ensures
        block_close(before + bytes, before.len() + at) == before.len() + block_close(bytes, at),
    decreases bytes.len() - at,
{
    if at < bytes.len() {
        assert((before + bytes)[before.len() + at] == bytes[at]);
        if at + 1 < bytes.len() {
            assert((before + bytes)[before.len() + at + 1] == bytes[at + 1]);
        }
        if !(at + 1 < bytes.len() && bytes[at] == STAR && bytes[at + 1] == SLASH) {
            lemma_block_close_moves(before, bytes, at + 1);
        }
    }
}

/// Trivia does not depend on what stands before its start.
pub proof fn lemma_trivia_moves(before: Seq<u8>, bytes: Seq<u8>, at: int, grammar: JsonGrammar)
    requires
        0 <= at <= bytes.len(),
    ensures
        trivia_from(before + bytes, before.len() + at, grammar) == moved(
            trivia_from(bytes, at, grammar),
            before.len() as int,
        ),
    decreases bytes.len() - at,
{
    let whole = before + bytes;
    let by = before.len() as int;
    lemma_run_end_shifts(before, bytes, at, StopSet::Ws);
    lemma_run_end(bytes, at, StopSet::Ws);
    let next = run_end(bytes, at, StopSet::Ws);
    assert forall|i: int| 0 <= i < bytes.len() implies whole[by + i] == #[trigger] bytes[i] by {}
    if next + 1 < bytes.len() {
        assert(whole[by + next] == bytes[next] && whole[by + next + 1] == bytes[next + 1]);
    }
    if next + 2 < bytes.len() {
        assert(whole[by + next + 2] == bytes[next + 2]);
    }
    assert(json5_ws_at(whole, by + next) == json5_ws_at(bytes, next));
    if grammar.json5 && json5_ws_at(bytes, next) {
        lemma_trivia_moves(before, bytes, next + 3, grammar);
    } else if grammar.comments && next + 1 < bytes.len() && bytes[next] == SLASH && bytes[next + 1] == SLASH {
        lemma_line_end_moves(before, bytes, next + 2);
        lemma_line_end(bytes, next + 2);
        let end = line_end(bytes, next + 2);
        assert(whole.subrange(by + next + 2, by + end) =~= bytes.subrange(next + 2, end));
        if end < bytes.len() {
            lemma_trivia_moves(before, bytes, end, grammar);
        }
    } else if grammar.comments && next + 1 < bytes.len() && bytes[next] == SLASH && bytes[next + 1] == STAR {
        lemma_block_close_moves(before, bytes, next + 2);
        lemma_block_close(bytes, next + 2);
        let end = block_close(bytes, next + 2);
        assert(whole.subrange(by + next + 2, by + end) =~= bytes.subrange(next + 2, end));
        if end < bytes.len() {
            lemma_trivia_moves(before, bytes, end + 2, grammar);
        }
    }
}

/// Whitespace in front is passed over.
proof fn lemma_gap_is_passed(gap: Seq<u8>, rest: Seq<u8>, grammar: JsonGrammar)
    requires
        forall|i: int| 0 <= i < gap.len() ==> json_ws(#[trigger] gap[i]),
    ensures
        trivia_from(gap + rest, 0, grammar) == moved(trivia_from(rest, 0, grammar), gap.len() as int),
{
    let whole = gap + rest;
    lemma_run_end_shifts(gap, rest, 0, StopSet::Ws);
    lemma_run_end(rest, 0, StopSet::Ws);
    let end = gap.len() + run_end(rest, 0, StopSet::Ws);
    assert forall|i: int| 0 <= i < end implies !StopSet::Ws.stops(#[trigger] whole[i]) by {
        if i < gap.len() {
            assert(whole[i] == gap[i]);
        } else {
            assert(whole[i] == rest[i - gap.len()]);
        }
    }
    if end < whole.len() {
        assert(whole[end] == rest[end - gap.len()]);
    }
    lemma_run_end_is(whole, 0, StopSet::Ws, end);
    assert(trivia_from(whole, 0, grammar) == trivia_from(whole, gap.len() as int, grammar));
    lemma_trivia_moves(gap, rest, 0, grammar);
}

/// The lines of a comment text.
pub open spec fn lines_of(text: Seq<u8>) -> Seq<Seq<u8>>
    decreases text.len(),
{
    let end = line_end(text, 0);
    if 0 <= end < text.len() {
        seq![text.take(end)] + lines_of(text.skip(end + 1))
    } else {
        seq![text]
    }
}

/// Whether no line of a text ends in a carriage return, which the line break would take with it.
pub open spec fn plain_lines(text: Seq<u8>) -> bool {
    forall|i: int| 0 <= i < lines_of(text).len() ==> !ends_in_return(#[trigger] lines_of(text)[i])
}

/// Whether a line ends in a carriage return.
pub open spec fn ends_in_return(line: Seq<u8>) -> bool {
    line.len() > 0 && line.last() == CR
}

/// Whether an ending is a line break: a line feed and whitespace.
pub open spec fn breaks_line(ending: Seq<u8>) -> bool {
    &&& ending.len() > 0 && ending[0] == LF
    &&& forall|i: int| 0 <= i < ending.len() ==> json_ws(#[trigger] ending[i])
}

/// Where the first line of a text ends.
proof fn lemma_first_line(text: Seq<u8>, from: int)
    requires
        0 <= from <= text.len(),
    ensures
        forall|i: int| from <= i < line_end(text, from) ==> #[trigger] text[i] != LF,
        line_end(text, from) < text.len() ==> text[line_end(text, from)] == LF,
    decreases text.len() - from,
{
    if from < text.len() && text[from] != LF {
        lemma_first_line(text, from + 1);
    }
}

/// A line ends at the first line feed.
proof fn lemma_line_end_is(bytes: Seq<u8>, from: int, end: int)
    requires
        0 <= from <= end < bytes.len(),
        bytes[end] == LF,
        forall|i: int| from <= i < end ==> #[trigger] bytes[i] != LF,
    ensures
        line_end(bytes, from) == end,
    decreases end - from,
{
    if from < end {
        assert(bytes[from] != LF);
        lemma_line_end_is(bytes, from + 1, end);
    }
}

/// One written comment line is one comment, read back as the line.
proof fn lemma_line_is_read_back(line: Seq<u8>, ending: Seq<u8>, rest: Seq<u8>, grammar: JsonGrammar)
    requires
        grammar.comments,
        breaks_line(ending),
        forall|i: int| 0 <= i < line.len() ==> #[trigger] line[i] != LF,
        !ends_in_return(line),
    ensures
        trivia_from(comment_line(line) + ending + rest, 0, grammar) == led(
            seq![line],
            moved(trivia_from(rest, 0, grammar), (comment_line(line) + ending).len() as int),
        ),
{
    let written = comment_line(line);
    let tail = ending + rest;
    let whole = written + ending + rest;
    assert(whole =~= written + tail);
    let end = written.len() as int;
    assert(whole[0] == SLASH && whole[1] == SLASH);
    lemma_run_end_is(whole, 0, StopSet::Ws, 0);
    assert forall|i: int| 2 <= i < end implies #[trigger] whole[i] != LF by {
        assert(whole[i] == written[i]);
        if i > 2 {
            assert(written[i] == line[i - 3]);
        }
    }
    assert(whole[end] == ending[0]);
    lemma_line_end_is(whole, 2, end);
    let text = whole.subrange(2, end);
    if line.len() > 0 {
        assert(text =~= seq![SPACE] + line);
        assert(text.last() == line.last());
        assert(text.skip(1) =~= line);
    } else {
        assert(text =~= line);
    }
    assert(line_comment_body(whole, 2, end) =~= line);
    lemma_trivia_moves(written, tail, 0, grammar);
    lemma_gap_is_passed(ending, rest, grammar);
    let after = trivia_from(rest, 0, grammar);
    assert(seq![line] + after.bodies =~= led(seq![line], after).bodies);
}

/// One written comment text is read back line by line.
proof fn lemma_block_is_read_back(text: Seq<u8>, ending: Seq<u8>, rest: Seq<u8>, grammar: JsonGrammar)
    requires
        grammar.comments,
        breaks_line(ending),
        plain_lines(text),
    ensures
        trivia_from(comment_block(text, ending) + rest, 0, grammar) == led(
            lines_of(text),
            moved(trivia_from(rest, 0, grammar), comment_block(text, ending).len() as int),
        ),
    decreases text.len(),
{
    let end = line_end(text, 0);
    lemma_line_end(text, 0);
    lemma_first_line(text, 0);
    let after = trivia_from(rest, 0, grammar);
    if end < text.len() {
        let line = text.take(end);
        let more = text.skip(end + 1);
        let tail = comment_block(more, ending) + rest;
        assert(lines_of(text)[0] == line);
        assert(!ends_in_return(lines_of(text)[0]));
        assert forall|i: int| 0 <= i < lines_of(more).len() implies !ends_in_return(#[trigger] lines_of(more)[i]) by {
            assert(lines_of(text)[i + 1] == lines_of(more)[i]);
        }
        lemma_block_is_read_back(more, ending, rest, grammar);
        lemma_line_is_read_back(line, ending, tail, grammar);
        assert(comment_block(text, ending) + rest =~= comment_line(line) + ending + tail);
        assert(seq![line] + (lines_of(more) + after.bodies) =~= lines_of(text) + after.bodies);
    } else {
        assert(lines_of(text)[0] == text);
        assert(!ends_in_return(lines_of(text)[0]));
        lemma_line_is_read_back(text, ending, rest, grammar);
    }
}

/// The lines of the comments that lead a node.
pub open spec fn lines_of_all(texts: Seq<String>) -> Seq<Seq<u8>>
    decreases texts.len(),
{
    if texts.len() == 0 {
        seq![]
    } else {
        lines_of_all(texts.drop_last()) + lines_of(utf8(texts.last()))
    }
}

/// Written comments are trivia to a grammar with comments, up to whatever stands behind them, and are read back line by
/// line, in order: a comment's content can neither end it early nor swallow what follows it.
pub proof fn lemma_written_comments_are_read_back(
    texts: Seq<String>,
    ending: Seq<u8>,
    rest: Seq<u8>,
    grammar: JsonGrammar,
)
    requires
        grammar.comments,
        breaks_line(ending),
        forall|i: int| 0 <= i < texts.len() ==> plain_lines(utf8(#[trigger] texts[i])),
    ensures
        trivia_from(comment_lines(texts, ending) + rest, 0, grammar) == led(
            lines_of_all(texts),
            moved(trivia_from(rest, 0, grammar), comment_lines(texts, ending).len() as int),
        ),
    decreases texts.len(),
{
    let after = trivia_from(rest, 0, grammar);
    if texts.len() == 0 {
        assert(comment_lines(texts, ending) + rest =~= rest);
        assert(lines_of_all(texts) + after.bodies =~= after.bodies);
    } else {
        let early = texts.drop_last();
        let block = comment_block(utf8(texts.last()), ending);
        assert forall|i: int| 0 <= i < early.len() implies plain_lines(utf8(#[trigger] early[i])) by {
            assert(early[i] == texts[i]);
        }
        assert(plain_lines(utf8(texts[texts.len() - 1])));
        lemma_block_is_read_back(utf8(texts.last()), ending, rest, grammar);
        lemma_written_comments_are_read_back(early, ending, block + rest, grammar);
        assert(comment_lines(texts, ending) + rest =~= comment_lines(early, ending) + (block + rest));
        assert(lines_of_all(early) + (lines_of(utf8(texts.last())) + after.bodies) =~= lines_of_all(texts)
            + after.bodies);
    }
}

/// The comments that the encoder writes before a node are read back before it, whatever the indentation.
pub proof fn lemma_leading_comments_are_read_back(
    style: RenderStyle,
    comments: Seq<String>,
    depth: nat,
    node: Seq<u8>,
    grammar: JsonGrammar,
)
    requires
        style.comments && grammar.comments,
        forall|i: int| 0 <= i < comments.len() ==> plain_lines(utf8(#[trigger] comments[i])),
        node.len() > 0 && !json_ws(node[0]) && node[0] != SLASH && !json5_ws_at(node, 0),
    ensures
        trivia_from(style.lead(comments, depth) + node, 0, grammar) == (Trivia {
            end: style.lead(comments, depth).len() as int,
            open: false,
            bodies: lines_of_all(comments),
        }),
{
    let ending = line_break(style.options.indent, depth);
    assert(breaks_line(ending));
    lemma_written_comments_are_read_back(comments, ending, node, grammar);
    lemma_run_end_is(node, 0, StopSet::Ws, 0);
    assert(lines_of_all(comments) + Seq::<Seq<u8>>::empty() =~= lines_of_all(comments));
}

} // verus!
