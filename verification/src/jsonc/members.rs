//! What a commented container holds: the texts of its members, read over strings of either quote and over comments.

use vstd::prelude::*;

use crate::ascii::{APOSTROPHE, BACKSLASH, COLON, COMMA, LF, QUOTE, SLASH, STAR};

use crate::byte_scan::{block_close, json_ws, line_end};
use crate::edit::{closer, closer_of, lemma_string_close, opener, string_close};
use crate::jsonc::seam::{lemma_piece_at, piece_at, Piece};

verus! {

/// Just past the delimiter that closes the outermost of `depth` open containers, scanning from `at` with strings of either
/// quote and comments skipped whole. A slash that opens no comment is not read.
pub open spec fn commented_close(source: Seq<u8>, at: int, depth: nat) -> Option<int>
    decreases source.len() - at,
{
    match piece_at(source, at) {
        Some((piece, end)) => if !(at < end <= source.len()) {
            None
        } else if piece != Piece::Token {
            commented_close(source, end, depth)
        } else if source[at] == SLASH {
            None
        } else if opener(source[at]) {
            commented_close(source, end, depth + 1)
        } else if !closer(source[at]) {
            commented_close(source, end, depth)
        } else if depth > 1 {
            commented_close(source, end, (depth - 1) as nat)
        } else {
            Some(end)
        },
        None => None,
    }
}

/// How far a container has been read.
pub struct Reading {
    /// The texts of the members read whole.
    pub done: Seq<Seq<u8>>,
    /// Where the member being read starts, if one is.
    pub start: Option<int>,
    /// Where the last key or value ended.
    pub end: int,
}

impl Reading {
    /// The texts of the members so far, the one being read with them.
    pub open spec fn texts(self, source: Seq<u8>) -> Seq<Seq<u8>> {
        match self.start {
            Some(start) => self.done.push(source.subrange(start, self.end)),
            None => self.done,
        }
    }

    /// The reading with a key or a value more, which belongs to the member being read.
    pub open spec fn with(self, at: int, end: int) -> Reading {
        Reading {
            done: self.done,
            start: match self.start {
                Some(start) => Some(start),
                None => Some(at),
            },
            end,
        }
    }

    /// The reading past a comma.
    pub open spec fn past_comma(self, source: Seq<u8>) -> Reading {
        Reading { done: self.texts(source), start: None, end: self.end }
    }
}

/// The texts of a container's members, read from `at` on, and just past its closing delimiter. A member goes from its first
/// key or value to its last; commas part the members, and the comments and the whitespace around a member are not part of
/// it.
pub open spec fn members_from(source: Seq<u8>, at: int, reading: Reading) -> Option<(Seq<Seq<u8>>, int)>
    decreases source.len() - at,
{
    match piece_at(source, at) {
        Some((piece, end)) => if !(at < end <= source.len()) {
            None
        } else if piece != Piece::Token {
            members_from(source, end, reading)
        } else if source[at] == SLASH {
            None
        } else if closer(source[at]) {
            Some((reading.texts(source), end))
        } else if source[at] == COMMA {
            members_from(source, end, reading.past_comma(source))
        } else if source[at] == COLON {
            members_from(source, end, reading)
        } else if opener(source[at]) {
            match commented_close(source, end, 1) {
                Some(close) => if end <= close <= source.len() {
                    members_from(source, close, reading.with(at, close))
                } else {
                    None
                },
                None => None,
            }
        } else {
            members_from(source, end, reading.with(at, end))
        },
        None => None,
    }
}

/// The texts of the members of the commented container opened at `open`; `None` where they cannot be read.
pub open spec fn commented_items(source: Seq<u8>, open: int) -> Option<Seq<Seq<u8>>> {
    if !(0 <= open < source.len() && opener(source[open])) {
        None
    } else {
        match members_from(source, open + 1, Reading { done: seq![], start: None, end: open }) {
            Some((texts, close)) => if source[close - 1] == closer_of(source[open]) {
                Some(texts)
            } else {
                None
            },
            None => None,
        }
    }
}

/// A container closes past where the scan stands.
pub proof fn lemma_commented_close(source: Seq<u8>, at: int, depth: nat)
    ensures
        commented_close(source, at, depth) matches Some(close) ==> 0 <= at < close <= source.len(),
    decreases source.len() - at,
{
    lemma_piece_at(source, at);
    if let Some((piece, end)) = piece_at(source, at) {
        if piece == Piece::Token && opener(source[at]) {
            lemma_commented_close(source, end, depth + 1);
        } else if piece == Piece::Token && closer(source[at]) && depth > 1 {
            lemma_commented_close(source, end, (depth - 1) as nat);
        } else {
            lemma_commented_close(source, end, depth);
        }
    }
}

/// Whether `moved` holds from `at + by` on what `source` holds from `at` on.
pub open spec fn moved_by(source: Seq<u8>, moved: Seq<u8>, at: int, by: int) -> bool {
    &&& 0 <= at <= source.len()
    &&& 0 <= at + by
    &&& moved.len() == source.len() + by
    &&& forall|i: int| at <= i < source.len() ==> #[trigger] source[i] == moved[i + by]
}

proof fn lemma_string_close_moves(source: Seq<u8>, moved: Seq<u8>, at: int, by: int, from: int, quote: u8)
    requires
        moved_by(source, moved, at, by),
        at <= from,
    ensures
        string_close(moved, from + by, quote) == match string_close(source, from, quote) {
            Some(end) => Some(end + by),
            None => None,
        },
    decreases source.len() - from,
{
    if from < source.len() {
        assert(source[from] == moved[from + by]);
        if source[from] == BACKSLASH {
            if from + 2 <= source.len() {
                lemma_string_close_moves(source, moved, at, by, from + 2, quote);
            }
        } else if source[from] != quote {
            lemma_string_close_moves(source, moved, at, by, from + 1, quote);
        }
    }
}

proof fn lemma_line_end_moves(source: Seq<u8>, moved: Seq<u8>, at: int, by: int, from: int)
    requires
        moved_by(source, moved, at, by),
        at <= from,
    ensures
        line_end(moved, from + by) == line_end(source, from) + by,
    decreases source.len() - from,
{
    if from < source.len() {
        assert(source[from] == moved[from + by]);
        if source[from] != LF {
            lemma_line_end_moves(source, moved, at, by, from + 1);
        }
    }
}

proof fn lemma_block_close_moves(source: Seq<u8>, moved: Seq<u8>, at: int, by: int, from: int)
    requires
        moved_by(source, moved, at, by),
        at <= from,
    ensures
        block_close(moved, from + by) == block_close(source, from) + by,
    decreases source.len() - from,
{
    if from < source.len() {
        assert(source[from] == moved[from + by]);
        if from + 1 < source.len() {
            assert(source[from + 1] == moved[from + 1 + by]);
        }
        lemma_block_close_moves(source, moved, at, by, from + 1);
    }
}

/// A piece does not depend on what stands before it.
pub proof fn lemma_piece_moves(source: Seq<u8>, moved: Seq<u8>, at: int, by: int, from: int)
    requires
        moved_by(source, moved, at, by),
        at <= from,
    ensures
        piece_at(moved, from + by) == match piece_at(source, from) {
            Some((piece, end)) => Some((piece, end + by)),
            None => None,
        },
{
    if from < source.len() {
        assert(source[from] == moved[from + by]);
        if from + 1 < source.len() {
            assert(source[from + 1] == moved[from + 1 + by]);
        }
        lemma_string_close_moves(source, moved, at, by, from + 1, source[from]);
        lemma_line_end_moves(source, moved, at, by, from + 2);
        lemma_block_close_moves(source, moved, at, by, from + 2);
    }
}

/// A container's close does not depend on what stands before it.
pub proof fn lemma_commented_close_moves(source: Seq<u8>, moved: Seq<u8>, at: int, by: int, from: int, depth: nat)
    requires
        moved_by(source, moved, at, by),
        at <= from,
    ensures
        commented_close(moved, from + by, depth) == match commented_close(source, from, depth) {
            Some(end) => Some(end + by),
            None => None,
        },
    decreases source.len() - from,
{
    lemma_piece_moves(source, moved, at, by, from);
    lemma_piece_at(source, from);
    if let Some((piece, end)) = piece_at(source, from) {
        assert(source[from] == moved[from + by]);
        if piece == Piece::Token && opener(source[from]) {
            lemma_commented_close_moves(source, moved, at, by, end, depth + 1);
        } else if piece == Piece::Token && closer(source[from]) && depth > 1 {
            lemma_commented_close_moves(source, moved, at, by, end, (depth - 1) as nat);
        } else {
            lemma_commented_close_moves(source, moved, at, by, end, depth);
        }
    }
}

/// A container's close does not depend on what stands before its start.
pub proof fn lemma_commented_close_shifts(before: Seq<u8>, bytes: Seq<u8>, at: int, depth: nat)
    requires
        0 <= at <= bytes.len(),
    ensures
        commented_close(before + bytes, before.len() + at, depth) == match commented_close(bytes, at, depth) {
            Some(end) => Some(before.len() + end),
            None => None,
        },
{
    let whole = before + bytes;
    assert forall|i: int| 0 <= i < bytes.len() implies #[trigger] bytes[i] == whole[i + before.len()] by {}
    assert(moved_by(bytes, whole, 0, before.len() as int));
    lemma_commented_close_moves(bytes, whole, 0, before.len() as int, at, depth);
}

/// Where two sources agree up to `to`, a string that closes there closes alike.
proof fn lemma_string_close_by_prefix(left: Seq<u8>, right: Seq<u8>, at: int, to: int, quote: u8)
    requires
        0 <= at,
        0 <= to <= left.len() && to <= right.len(),
        forall|i: int| 0 <= i < to ==> #[trigger] left[i] == right[i],
        string_close(left, at, quote) matches Some(end) && end <= to,
    ensures
        string_close(right, at, quote) == string_close(left, at, quote),
    decreases left.len() - at,
{
    lemma_string_close(left, at, quote);
    assert(left[at] == right[at]);
    if left[at] == BACKSLASH {
        lemma_string_close_by_prefix(left, right, at + 2, to, quote);
    } else if left[at] != quote {
        lemma_string_close_by_prefix(left, right, at + 1, to, quote);
    }
}

proof fn lemma_line_end_by_prefix(left: Seq<u8>, right: Seq<u8>, at: int, to: int)
    requires
        0 <= at <= left.len(),
        0 <= to <= left.len() && to <= right.len(),
        forall|i: int| 0 <= i < to ==> #[trigger] left[i] == right[i],
        line_end(left, at) < to,
    ensures
        line_end(right, at) == line_end(left, at),
    decreases left.len() - at,
{
    crate::byte_scan::lemma_line_end(left, at);
    assert(left[at] == right[at]);
    if left[at] != LF {
        lemma_line_end_by_prefix(left, right, at + 1, to);
    }
}

proof fn lemma_block_close_by_prefix(left: Seq<u8>, right: Seq<u8>, at: int, to: int)
    requires
        0 <= at <= left.len(),
        0 <= to <= left.len() && to <= right.len(),
        forall|i: int| 0 <= i < to ==> #[trigger] left[i] == right[i],
        block_close(left, at) + 2 <= to,
    ensures
        block_close(right, at) == block_close(left, at),
    decreases left.len() - at,
{
    crate::byte_scan::lemma_block_close(left, at);
    assert(left[at] == right[at]);
    assert(left[at + 1] == right[at + 1]);
    if !(left[at] == STAR && left[at + 1] == SLASH) {
        lemma_block_close_by_prefix(left, right, at + 1, to);
    }
}

/// Where two sources agree up to `to`, a piece that ends before it is the same in both, and so is one that ends there, but
/// for a `//` comment and a lone slash.
pub proof fn lemma_piece_by_prefix(left: Seq<u8>, right: Seq<u8>, at: int, to: int)
    requires
        0 <= to <= left.len() && to <= right.len(),
        forall|i: int| 0 <= i < to ==> #[trigger] left[i] == right[i],
        piece_at(left, at) matches Some((piece, end)) && (end < to || (end == to && piece != Piece::LineComment && !(piece
            == Piece::Token && left[at] == SLASH))),
    ensures
        piece_at(right, at) == piece_at(left, at),
{
    lemma_piece_at(left, at);
    let (piece, end) = piece_at(left, at)->0;
    assert(left[at] == right[at]);
    if json_ws(left[at]) {
    } else if left[at] == QUOTE || left[at] == APOSTROPHE {
        lemma_string_close_by_prefix(left, right, at + 1, to, left[at]);
    } else if piece == Piece::LineComment {
        crate::byte_scan::lemma_line_end(left, at + 2);
        assert(left[at + 1] == right[at + 1]);
        lemma_line_end_by_prefix(left, right, at + 2, to);
    } else if piece == Piece::BlockComment {
        crate::byte_scan::lemma_block_close(left, at + 2);
        assert(left[at + 1] == right[at + 1]);
        lemma_block_close_by_prefix(left, right, at + 2, to);
    } else if at + 1 < to {
        assert(left[at + 1] == right[at + 1]);
    }
}

/// Where two sources agree up to `to`, a container that closes there closes alike.
pub proof fn lemma_commented_close_by_prefix(left: Seq<u8>, right: Seq<u8>, at: int, depth: nat, to: int)
    requires
        0 <= to <= left.len() && to <= right.len(),
        forall|i: int| 0 <= i < to ==> #[trigger] left[i] == right[i],
        commented_close(left, at, depth) matches Some(close) && close <= to,
    ensures
        commented_close(right, at, depth) == commented_close(left, at, depth),
    decreases left.len() - at,
{
    lemma_piece_at(left, at);
    let (piece, end) = piece_at(left, at)->0;
    lemma_commented_close(left, end, depth);
    lemma_commented_close(left, end, depth + 1);
    lemma_commented_close(left, end, (depth - 1) as nat);
    lemma_piece_by_prefix(left, right, at, to);
    assert(left[at] == right[at]);
    if piece == Piece::Token && opener(left[at]) {
        lemma_commented_close_by_prefix(left, right, end, depth + 1, to);
    } else if piece == Piece::Token && closer(left[at]) {
        if depth > 1 {
            lemma_commented_close_by_prefix(left, right, end, (depth - 1) as nat, to);
        }
    } else {
        lemma_commented_close_by_prefix(left, right, end, depth, to);
    }
}

} // verus!
