//! What stands between two tokens of a commented source: the forward scan that tells strings, comments, whitespace and
//! everything else apart, so that nothing inside a string or a comment is taken for the other.

use vstd::prelude::*;

use crate::ascii::{APOSTROPHE, LF, QUOTE, SLASH, STAR};

use crate::byte_scan::{block_close, find_block_close, find_line_end, is_json_ws, json_ws, line_end};
use crate::edit::{find_string_close, string_close};

verus! {

/// What a source is made of.
#[derive(Clone, Copy, Debug, PartialEq, Eq, Structural)]
pub enum Piece {
    /// One byte of whitespace.
    Space,
    /// A `//` comment, up to its line break.
    LineComment,
    /// A block comment, its close included.
    BlockComment,
    /// A whole string, or one byte of anything else.
    Token,
}

/// The piece at `at`, and where it ends; `None` for a string or a comment that is not closed.
pub open spec fn piece_at(source: Seq<u8>, at: int) -> Option<(Piece, int)> {
    if at < 0 || at >= source.len() {
        None
    } else if json_ws(source[at]) {
        Some((Piece::Space, at + 1))
    } else if source[at] == QUOTE || source[at] == APOSTROPHE {
        match string_close(source, at + 1, source[at]) {
            Some(end) => Some((Piece::Token, end)),
            None => None,
        }
    } else if source[at] == SLASH && at + 1 < source.len() && source[at + 1] == SLASH {
        Some((Piece::LineComment, line_end(source, at + 2)))
    } else if source[at] == SLASH && at + 1 < source.len() && source[at + 1] == STAR {
        let close = block_close(source, at + 2);
        if close < source.len() {
            Some((Piece::BlockComment, close + 2))
        } else {
            None
        }
    } else {
        Some((Piece::Token, at + 1))
    }
}

/// Where the piece at `at` ends.
spec fn piece_end(source: Seq<u8>, at: int) -> int {
    match piece_at(source, at) {
        Some((_, end)) => end,
        None => at,
    }
}

/// A piece takes at least a byte, and none past the source.
pub proof fn lemma_piece_at(source: Seq<u8>, at: int)
    ensures
        piece_at(source, at) matches Some((_, end)) ==> 0 <= at < end <= source.len(),
{
    if 0 <= at < source.len() {
        crate::edit::lemma_string_close(source, at + 1, source[at]);
        if at + 2 <= source.len() {
            crate::byte_scan::lemma_line_end(source, at + 2);
            crate::byte_scan::lemma_block_close(source, at + 2);
        }
    }
}

/// The piece at `at`, and where it ends.
pub fn read_piece(source: &[u8], at: usize) -> (piece: Option<(Piece, usize)>)
    ensures
        match piece {
            Some((piece, end)) => piece_at(source@, at as int) == Some((piece, end as int)) && at < end <= source.len(),
            None => piece_at(source@, at as int) is None,
        },
{
    proof {
        lemma_piece_at(source@, at as int);
    }
    if at >= source.len() {
        return None;
    }
    let byte = source[at];
    if is_json_ws(byte) {
        return Some((Piece::Space, at + 1));
    }
    if byte == QUOTE || byte == APOSTROPHE {
        return match find_string_close(source, at + 1, byte) {
            Some(end) => Some((Piece::Token, end)),
            None => None,
        };
    }
    if byte == SLASH && source.len() - at >= 2 {
        if source[at + 1] == SLASH {
            return Some((Piece::LineComment, find_line_end(source, at + 2)));
        }
        if source[at + 1] == STAR {
            let close = find_block_close(source, at + 2);
            return if close < source.len() {
                Some((Piece::BlockComment, close + 2))
            } else {
                None
            };
        }
    }
    Some((Piece::Token, at + 1))
}

/// Whether nothing but whole comments and whitespace stands from `from` to `to`.
pub open spec fn trivia_between(source: Seq<u8>, from: int, to: int) -> bool
    decreases to - from,
{
    from == to || match piece_at(source, from) {
        Some((piece, end)) => piece != Piece::Token && from < end <= to && trivia_between(source, end, to),
        None => false,
    }
}

/// Where the trivia from `at` on ends.
pub open spec fn trivia_end(source: Seq<u8>, at: int) -> int
    decreases source.len() - at,
{
    match piece_at(source, at) {
        Some((piece, end)) => if piece != Piece::Token && at < end <= source.len() {
            trivia_end(source, end)
        } else {
            at
        },
        None => at,
    }
}

/// Where the trivia from `from` on ends.
pub fn find_trivia_end(source: &[u8], from: usize) -> (end: usize)
    requires
        from <= source.len(),
    ensures
        end == trivia_end(source@, from as int),
        from <= end <= source.len(),
{
    let mut at: usize = from;
    loop
        invariant
            from <= at <= source.len(),
            trivia_end(source@, from as int) == trivia_end(source@, at as int),
        decreases source.len() - at,
    {
        match read_piece(source, at) {
            Some((piece, end)) => {
                if piece == Piece::Token {
                    return at;
                }
                at = end;
            }
            None => return at,
        }
    }
}

/// What stands before a position: where the last token before it ends, whether a block comment stands between the two,
/// and the first whole line between them, if a line starts there.
#[derive(Clone, Copy, Debug, PartialEq, Eq, Structural)]
pub struct Seam {
    /// Just past the last token, or where the scan began.
    pub end: usize,
    /// Whether a block comment stands past it.
    pub block: bool,
    /// Where the first line past it that starts outside a comment begins.
    pub line: Option<usize>,
}

/// Whether a line starts at `at`.
pub open spec fn line_starts(source: Seq<u8>, at: int) -> bool {
    at == 0 || (0 < at <= source.len() && source[at - 1] == LF)
}

/// A seam with the line that starts at `at` noted, where it is the first.
pub open spec fn noted(source: Seq<u8>, at: int, seam: Seam) -> Seam {
    if seam.line is None && line_starts(source, at) {
        Seam { line: Some(at as usize), ..seam }
    } else {
        seam
    }
}

/// The seam before `target`, for a scan that stands at `at` with `seam` so far. `None` where `target` lies inside a string
/// or a comment, or a string or a comment before it is not closed.
pub open spec fn seam_from(source: Seq<u8>, at: int, target: int, seam: Seam) -> Option<Seam>
    decreases target - at,
{
    let seam = noted(source, at, seam);
    if at >= target {
        if at == target {
            Some(seam)
        } else {
            None
        }
    } else {
        match piece_at(source, at) {
            Some((piece, end)) => if end <= at || end > target {
                None
            } else {
                seam_from(
                    source,
                    end,
                    target,
                    match piece {
                        Piece::Token => Seam { end: end as usize, block: false, line: None },
                        Piece::BlockComment => Seam { block: true, ..seam },
                        _ => seam,
                    },
                )
            },
            None => None,
        }
    }
}

/// The seam before `target`, for a scan from `from` on, which lies outside every string and comment.
pub open spec fn seam_before(source: Seq<u8>, from: int, target: int) -> Option<Seam> {
    seam_from(source, from, target, Seam { end: from as usize, block: false, line: None })
}

/// The seam before `target`, for a scan from `from` on.
pub fn find_seam(source: &[u8], from: usize, target: usize) -> (seam: Option<Seam>)
    requires
        target <= source.len(),
    ensures
        seam == seam_before(source@, from as int, target as int),
{
    let mut at: usize = from;
    let mut seam = Seam { end: from, block: false, line: None };
    loop
        invariant
            target <= source.len(),
            seam_before(source@, from as int, target as int) == seam_from(
                source@,
                at as int,
                target as int,
                seam,
            ),
        decreases target - at,
    {
        let ghost before = seam;
        if seam.line.is_none() && (at == 0 || (at <= source.len() && source[at - 1] == LF)) {
            seam = Seam { end: seam.end, block: seam.block, line: Some(at) };
        }
        assert(seam == noted(source@, at as int, before));
        if at >= target {
            return if at == target {
                Some(seam)
            } else {
                None
            };
        }
        match read_piece(source, at) {
            Some((piece, end)) => {
                if end > target {
                    return None;
                }
                seam = match piece {
                    Piece::Token => Seam { end, block: false, line: None },
                    Piece::BlockComment => Seam { end: seam.end, block: true, line: seam.line },
                    _ => seam,
                };
                at = end;
            }
            None => return None,
        }
    }
}

/// Trivia and one more comment or byte of whitespace is trivia.
proof fn lemma_trivia_grows(source: Seq<u8>, from: int, at: int)
    requires
        trivia_between(source, from, at),
        piece_at(source, at) matches Some((piece, _)) && piece != Piece::Token,
    ensures
        trivia_between(source, from, piece_end(source, at)),
    decreases at - from,
{
    let next = piece_end(source, at);
    lemma_piece_at(source, at);
    if from == at {
        assert(trivia_between(source, next, next));
    } else {
        lemma_trivia_grows(source, piece_end(source, from), at);
    }
}

/// Trivia has no length below zero.
proof fn lemma_trivia_goes_on(source: Seq<u8>, from: int, to: int)
    requires
        trivia_between(source, from, to),
    ensures
        from <= to,
    decreases to - from,
{
    if from != to {
        lemma_trivia_goes_on(source, piece_end(source, from), to);
    }
}

/// Nothing but comments and whitespace stands between a seam and the position it was found before, and the line that it
/// names starts outside every comment.
pub proof fn lemma_seam_is_trivia(source: Seq<u8>, from: int, target: int)
    requires
        0 <= from <= target <= source.len() <= usize::MAX,
    ensures
        seam_before(source, from, target) matches Some(seam) ==> {
            &&& from <= seam.end <= target
            &&& trivia_between(source, seam.end as int, target)
            &&& seam.line matches Some(line) ==> seam.end <= line <= target && line_starts(source, line as int)
                && trivia_between(source, line as int, target)
        },
{
    lemma_seam_from(source, from, from, target, Seam { end: from as usize, block: false, line: None });
}

proof fn lemma_seam_from(source: Seq<u8>, from: int, at: int, target: int, seam: Seam)
    requires
        0 <= from <= seam.end <= at <= source.len() <= usize::MAX,
        target <= source.len(),
        trivia_between(source, seam.end as int, at),
        seam.line matches Some(line) ==> seam.end <= line <= at && line_starts(source, line as int) && trivia_between(
            source,
            line as int,
            at,
        ),
    ensures
        seam_from(source, at, target, seam) matches Some(seam) ==> {
            &&& from <= seam.end <= target
            &&& trivia_between(source, seam.end as int, target)
            &&& seam.line matches Some(line) ==> seam.end <= line <= target && line_starts(source, line as int)
                && trivia_between(source, line as int, target)
        },
    decreases target - at,
{
    let marked = noted(source, at, seam);
    assert(trivia_between(source, at, at));
    if at < target {
        lemma_piece_at(source, at);
        if let Some((piece, end)) = piece_at(source, at) {
            if end > target {
            } else if piece == Piece::Token {
                assert(trivia_between(source, end, end));
                lemma_seam_from(source, from, end, target, Seam { end: end as usize, block: false, line: None });
            } else {
                lemma_trivia_grows(source, seam.end as int, at);
                if let Some(line) = marked.line {
                    lemma_trivia_grows(source, line as int, at);
                }
                lemma_seam_from(
                    source,
                    from,
                    end,
                    target,
                    if piece == Piece::BlockComment {
                        Seam { block: true, ..marked }
                    } else {
                        marked
                    },
                );
            }
        }
    }
}

/// Trivia that ends in the whitespace of a line is trivia up to the line's start.
pub proof fn lemma_trivia_up_to_a_line(source: Seq<u8>, from: int, line: int, to: int)
    requires
        0 <= from <= line <= to <= source.len(),
        trivia_between(source, from, to),
        line_starts(source, line),
        forall|i: int| line <= i < to ==> json_ws(#[trigger] source[i]),
    ensures
        trivia_between(source, from, line),
    decreases to - from,
{
    if from == line {
    } else {
        let (piece, end) = piece_at(source, from)->0;
        lemma_trivia_goes_on(source, end, to);
        if end <= line {
            lemma_trivia_up_to_a_line(source, end, line, to);
        } else if piece == Piece::LineComment {
            lemma_line_holds_no_break(source, from + 2, line - 1);
            assert(false);
        } else {
            assert(piece == Piece::BlockComment);
            lemma_block_closes(source, from + 2);
            assert(json_ws(source[end - 1]));
            assert(false);
        }
    }
}

/// No line break stands inside a line.
proof fn lemma_line_holds_no_break(source: Seq<u8>, from: int, at: int)
    requires
        0 <= from <= source.len(),
        from <= at < line_end(source, from),
    ensures
        source[at] != LF,
    decreases source.len() - from,
{
    crate::byte_scan::lemma_line_end(source, from);
    if from < at {
        lemma_line_holds_no_break(source, from + 1, at);
    }
}

/// A block comment closes at its `*/`.
proof fn lemma_block_closes(source: Seq<u8>, from: int)
    requires
        0 <= from <= source.len(),
        block_close(source, from) < source.len(),
    ensures
        block_close(source, from) + 1 < source.len(),
        source[block_close(source, from) + 1] == SLASH,
    decreases source.len() - from,
{
    if from < source.len() && !(from + 1 < source.len() && source[from] == STAR && source[from + 1] == SLASH) {
        lemma_block_closes(source, from + 1);
    }
}

} // verus!
