//! What a trivia scan makes of what it passes over, byte by byte: where a comment starts and ends, which of its bytes are
//! its text, and where the trivia stops.

use vstd::prelude::*;

use crate::byte_scan::{block_close, lemma_run_end_is, line_end, trivia_from, StopSet};
use crate::edit_style_laws::white;
use crate::grammar::JsonGrammar;

verus! {

/// Whether only whitespace stands from `from` to `at`.
pub open spec fn white_up_to(bytes: Seq<u8>, from: int, at: int) -> bool {
    &&& 0 <= from <= at <= bytes.len()
    &&& forall|i: int| from <= i < at ==> white(#[trigger] bytes[i])
}

/// Whether a `*/` stands at `at`.
pub open spec fn closes_at(bytes: Seq<u8>, at: int) -> bool {
    at + 1 < bytes.len() && bytes[at] == 0x2a && bytes[at + 1] == 0x2f
}

/// Where the text between `from` and `to` starts, without one space at its front.
pub open spec fn past_space(bytes: Seq<u8>, from: int, to: int) -> int {
    if from < to && bytes[from] == 0x20 {
        from + 1
    } else {
        from
    }
}

/// Where the text between `from` and `to` ends, without one `byte` at its end.
pub open spec fn short_of(bytes: Seq<u8>, from: int, to: int, byte: u8) -> int {
    if from < to && bytes[to - 1] == byte {
        to - 1
    } else {
        to
    }
}

pub(crate) proof fn lemma_line_end_is(bytes: Seq<u8>, from: int, end: int)
    requires
        0 <= from <= end <= bytes.len(),
        forall|i: int| from <= i < end ==> #[trigger] bytes[i] != 0x0a,
        end == bytes.len() || bytes[end] == 0x0a,
    ensures
        line_end(bytes, from) == end,
    decreases end - from,
{
    if from < end {
        assert(bytes[from] != 0x0a);
        lemma_line_end_is(bytes, from + 1, end);
    }
}

pub(crate) proof fn lemma_block_close_is(bytes: Seq<u8>, from: int, end: int)
    requires
        0 <= from <= end <= bytes.len(),
        forall|i: int| from <= i < end ==> !#[trigger] closes_at(bytes, i),
        end == bytes.len() || closes_at(bytes, end),
    ensures
        block_close(bytes, from) == end,
    decreases end - from,
{
    if from < end {
        assert(!closes_at(bytes, from));
        lemma_block_close_is(bytes, from + 1, end);
    }
}

/// A `//` comment runs to the line feed behind it, and its text is what stands between, without one space at the front,
/// and without the carriage return of the line break. The trivia goes on behind the line feed; without one the comment
/// is still open where the bytes end, and a carriage return there is text.
pub proof fn lemma_line_comment_runs_to_its_break(bytes: Seq<u8>, from: int, slash: int, end: int, grammar: JsonGrammar)
    requires
        grammar.comments,
        white_up_to(bytes, from, slash),
        slash + 2 <= end <= bytes.len(),
        bytes[slash] == 0x2f && bytes[slash + 1] == 0x2f,
        forall|i: int| slash + 2 <= i < end ==> #[trigger] bytes[i] != 0x0a,
        end == bytes.len() || bytes[end] == 0x0a,
    ensures
        ({
            let found = trivia_from(bytes, from, grammar);
            &&& found.bodies.len() > 0
            &&& end == bytes.len() ==> {
                &&& found.open
                &&& found.end == end
                &&& found.bodies.len() == 1
                &&& found.bodies[0] == bytes.subrange(past_space(bytes, slash + 2, end), end)
            }
            &&& end < bytes.len() ==> {
                let rest = trivia_from(bytes, end + 1, grammar);
                let stop = short_of(bytes, slash + 2, end, 0x0d);
                &&& found.open == rest.open
                &&& found.end == rest.end
                &&& found.bodies.skip(1) == rest.bodies
                &&& found.bodies[0] == bytes.subrange(past_space(bytes, slash + 2, stop), stop)
            }
        }),
{
    lemma_run_end_is(bytes, from, StopSet::Ws, slash);
    lemma_line_end_is(bytes, slash + 2, end);
    let text = bytes.subrange(slash + 2, end);
    let found = trivia_from(bytes, from, grammar);
    if end < bytes.len() {
        let rest = trivia_from(bytes, end + 1, grammar);
        assert(trivia_from(bytes, end, grammar) == rest);
        assert(found.bodies.skip(1) =~= rest.bodies);
        let stop = short_of(bytes, slash + 2, end, 0x0d);
        assert(found.bodies[0] =~= bytes.subrange(past_space(bytes, slash + 2, stop), stop));
    } else {
        assert(found.bodies[0] =~= bytes.subrange(past_space(bytes, slash + 2, end), end));
    }
}

/// A block comment runs to its first `*/`, whatever line breaks it holds, and its text is what stands between, without one
/// space at either end. The trivia goes on behind the `*/`; without one the comment is still open where the bytes end.
pub proof fn lemma_block_comment_runs_to_its_close(bytes: Seq<u8>, from: int, slash: int, end: int, grammar: JsonGrammar)
    requires
        grammar.comments,
        white_up_to(bytes, from, slash),
        slash + 2 <= end <= bytes.len(),
        bytes[slash] == 0x2f && bytes[slash + 1] == 0x2a,
        forall|i: int| slash + 2 <= i < end ==> !#[trigger] closes_at(bytes, i),
        end == bytes.len() || closes_at(bytes, end),
    ensures
        ({
            let found = trivia_from(bytes, from, grammar);
            &&& found.bodies.len() > 0
            &&& end == bytes.len() ==> {
                &&& found.open
                &&& found.end == end
                &&& found.bodies.len() == 1
                &&& found.bodies[0] == bytes.subrange(past_space(bytes, slash + 2, end), end)
            }
            &&& end < bytes.len() ==> {
                let rest = trivia_from(bytes, end + 2, grammar);
                let stop = short_of(bytes, slash + 2, end, 0x20);
                &&& found.open == rest.open
                &&& found.end == rest.end
                &&& found.bodies.skip(1) == rest.bodies
                &&& found.bodies[0] == bytes.subrange(past_space(bytes, slash + 2, stop), stop)
            }
        }),
{
    lemma_run_end_is(bytes, from, StopSet::Ws, slash);
    lemma_block_close_is(bytes, slash + 2, end);
    let found = trivia_from(bytes, from, grammar);
    if end < bytes.len() {
        let rest = trivia_from(bytes, end + 2, grammar);
        assert(found.bodies.skip(1) =~= rest.bodies);
        let stop = short_of(bytes, slash + 2, end, 0x20);
        assert(found.bodies[0] =~= bytes.subrange(past_space(bytes, slash + 2, stop), stop));
    } else {
        assert(found.bodies[0] =~= bytes.subrange(past_space(bytes, slash + 2, end), end));
    }
}

/// Whether a line separator, a paragraph separator or a byte-order mark stands at `at`: the three bytes of U+2028, U+2029
/// or U+FEFF.
pub open spec fn wide_space_at(bytes: Seq<u8>, at: int) -> bool {
    &&& at + 2 < bytes.len()
    &&& {
        ||| bytes[at] == 0xe2 && bytes[at + 1] == 0x80 && bytes[at + 2] == 0xa8
        ||| bytes[at] == 0xe2 && bytes[at + 1] == 0x80 && bytes[at + 2] == 0xa9
        ||| bytes[at] == 0xef && bytes[at + 1] == 0xbb && bytes[at + 2] == 0xbf
    }
}

/// Whether a comment opens at `at`.
pub open spec fn comment_opens(bytes: Seq<u8>, at: int) -> bool {
    at + 1 < bytes.len() && bytes[at] == 0x2f && (bytes[at + 1] == 0x2f || bytes[at + 1] == 0x2a)
}

/// A JSON5 grammar passes over a wide space whole and goes on behind it.
pub proof fn lemma_wide_space_is_passed(bytes: Seq<u8>, from: int, at: int, grammar: JsonGrammar)
    requires
        grammar.json5,
        white_up_to(bytes, from, at),
        wide_space_at(bytes, at),
    ensures
        trivia_from(bytes, from, grammar) == trivia_from(bytes, at + 3, grammar),
{
    lemma_run_end_is(bytes, from, StopSet::Ws, at);
}

/// Trivia stops at the first byte that is no whitespace, unless the grammar has comments and one opens there, or has
/// JSON5 and a wide space stands there: it is then whole, and has met no comment.
pub proof fn lemma_trivia_stops_at_the_first_other_byte(bytes: Seq<u8>, from: int, at: int, grammar: JsonGrammar)
    requires
        white_up_to(bytes, from, at),
        at == bytes.len() || !white(bytes[at]),
        !(grammar.comments && comment_opens(bytes, at)),
        !(grammar.json5 && wide_space_at(bytes, at)),
    ensures
        trivia_from(bytes, from, grammar).end == at,
        !trivia_from(bytes, from, grammar).open,
        trivia_from(bytes, from, grammar).bodies.len() == 0,
{
    lemma_run_end_is(bytes, from, StopSet::Ws, at);
}

} // verus!
