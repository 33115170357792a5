//! What a shrunk commented container holds: its members without the one that was removed.

use vstd::prelude::*;

use crate::ascii::{APOSTROPHE, COLON, COMMA, LF, QUOTE, SLASH};

use crate::byte_scan::{json_ws, lemma_run_end, line_end, run_end, StopSet};
use crate::edit::{closer, opener};
use crate::jsonc::encode::{back_over_comments, jsonc_cut_range, jsonc_first_cut_end};
use crate::jsonc::members::{
    commented_close, commented_items, lemma_commented_close, lemma_commented_close_by_prefix,
    lemma_commented_close_moves, lemma_piece_by_prefix, lemma_piece_moves, members_from, moved_by, Reading,
};
use crate::jsonc::seam::{
    lemma_piece_at, lemma_seam_is_trivia, noted, piece_at, seam_before, seam_from, trivia_between, Piece, Seam,
};

verus! {

/// One step of a reading: where it goes on, and how far it has come; `None` at the container's close, and where nothing can
/// be read.
pub open spec fn next_of(source: Seq<u8>, at: int, reading: Reading) -> Option<(int, Reading)> {
    match piece_at(source, at) {
        Some((piece, end)) => if piece != Piece::Token || source[at] == COLON {
            Some((end, reading))
        } else if source[at] == SLASH || closer(source[at]) {
            None
        } else if source[at] == COMMA {
            Some((end, reading.past_comma(source)))
        } else if opener(source[at]) {
            match commented_close(source, end, 1) {
                Some(close) => Some((close, reading.with(at, close))),
                None => None,
            }
        } else {
            Some((end, reading.with(at, end)))
        },
        None => None,
    }
}

/// Where member `index` starts and ends, for a reading that has not come to its end.
pub open spec fn member_from(source: Seq<u8>, at: int, reading: Reading, index: nat) -> Option<(int, int)>
    decreases source.len() - at,
{
    match next_of(source, at, reading) {
        Some((end, next)) => if reading.start is Some && reading.done.len() == index && next.done.len() > index {
            Some((reading.start->0, reading.end))
        } else if at < end <= source.len() {
            member_from(source, end, next, index)
        } else {
            None
        },
        None => if reading.start is Some && reading.done.len() == index && 0 <= at < source.len() && closer(source[at]) {
            Some((reading.start->0, reading.end))
        } else {
            None
        },
    }
}

/// Where member `index` of the commented container opened at `open` starts and ends.
pub open spec fn commented_member(source: Seq<u8>, open: int, index: nat) -> Option<(int, int)> {
    member_from(source, open + 1, Reading { done: seq![], start: None, end: open }, index)
}

/// A step goes on, and stays inside the source.
proof fn lemma_next_of(source: Seq<u8>, at: int, reading: Reading)
    ensures
        next_of(source, at, reading) matches Some((end, next)) ==> {
            &&& 0 <= at < end <= source.len()
            &&& next.done.len() >= reading.done.len()
            &&& next == reading || next == reading.past_comma(source) || next == reading.with(at, end)
        },
{
    lemma_piece_at(source, at);
    if let Some((_, end)) = piece_at(source, at) {
        lemma_commented_close(source, end, 1);
    }
}

/// The members are read step by step.
proof fn lemma_members_by_step(source: Seq<u8>, at: int, reading: Reading)
    ensures
        members_from(source, at, reading) == match next_of(source, at, reading) {
            Some((end, next)) => members_from(source, end, next),
            None => if 0 <= at < source.len() && closer(source[at]) {
                Some((reading.texts(source), at + 1))
            } else {
                None
            },
        },
{
    lemma_next_of(source, at, reading);
    lemma_piece_at(source, at);
}

/// The reading that has come from `at` to `to`, step by step.
spec fn read_to(source: Seq<u8>, at: int, to: int, reading: Reading) -> Option<Reading>
    decreases to - at,
{
    if at == to {
        Some(reading)
    } else {
        match next_of(source, at, reading) {
            Some((end, next)) => if at < end <= to {
                read_to(source, end, to, next)
            } else {
                None
            },
            None => None,
        }
    }
}

/// What is read from where a reading stands does not depend on where it began.
proof fn lemma_read_to(source: Seq<u8>, at: int, to: int, reading: Reading)
    requires
        read_to(source, at, to, reading) is Some,
    ensures
        at <= to,
        members_from(source, at, reading) == members_from(source, to, read_to(source, at, to, reading)->0),
    decreases to - at,
{
    if at != to {
        lemma_members_by_step(source, at, reading);
        let (end, next) = next_of(source, at, reading)->0;
        lemma_read_to(source, end, to, next);
    }
}

/// One step more.
proof fn lemma_read_to_grows(source: Seq<u8>, at: int, mid: int, to: int, reading: Reading)
    requires
        read_to(source, at, mid, reading) matches Some(half) && read_to(source, mid, to, half) is Some,
    ensures
        read_to(source, at, to, reading) == read_to(source, mid, to, read_to(source, at, mid, reading)->0),
    decreases mid - at,
{
    lemma_read_to(source, at, mid, reading);
    lemma_read_to(source, mid, to, read_to(source, at, mid, reading)->0);
    if at != mid {
        let (end, next) = next_of(source, at, reading)->0;
        lemma_read_to_grows(source, end, mid, to, next);
    }
}

/// Whether a reading's own positions lie where they should.
spec fn sound(reading: Reading, at: int) -> bool {
    &&& 0 <= reading.end <= at
    &&& reading.start matches Some(start) ==> 0 <= start < reading.end
}

/// A reading comes to where its member starts, and from there to where the member ends; a member's end is not passed by
/// another value of the same member.
proof fn lemma_member_is_reached(source: Seq<u8>, at: int, reading: Reading, index: nat) -> (start: Reading)
    requires
        sound(reading, at),
        reading.done.len() < index || (reading.done.len() == index && reading.start is None),
        member_from(source, at, reading, index) is Some,
    ensures
        ({
            let (member, end) = member_from(source, at, reading, index)->0;
            let held = start.with(member, end);
            &&& at <= member < end <= source.len()
            &&& read_to(source, at, member, reading) == Some(start)
            &&& start.start is None && start.done.len() == index && sound(start, member)
            &&& read_to(source, member, end, start) == Some(held)
            &&& member_from(source, end, held, index) == Some((member, end))
        }),
    decreases source.len() - at,
{
    lemma_next_of(source, at, reading);
    let (end, next) = next_of(source, at, reading)->0;
    let (member, last) = member_from(source, at, reading, index)->0;
    if reading.done.len() == index && next.start is Some {
        assert(next == reading.with(at, end));
        assert(read_to(source, end, end, next) == Some(next));
        assert(read_to(source, at, end, reading) == Some(next));
        lemma_member_is_ended(source, end, next, index, at, reading);
        assert(read_to(source, at, at, reading) == Some(reading));
        reading
    } else {
        let start = lemma_member_is_reached(source, end, next, index);
        start
    }
}

/// A member that is being read comes to its end.
proof fn lemma_member_is_ended(source: Seq<u8>, at: int, reading: Reading, index: nat, member: int, start: Reading)
    requires
        0 <= member < at <= source.len(),
        start.start is None && start.done.len() == index,
        sound(reading, at),
        reading == start.with(member, reading.end),
        member < reading.end,
        read_to(source, member, at, start) == Some(reading),
        reading.end < at ==> read_to(source, member, reading.end, start) == Some(reading) && member_from(
            source,
            reading.end,
            reading,
            index,
        ) == member_from(source, at, reading, index),
        member_from(source, at, reading, index) is Some,
    ensures
        ({
            let (begun, end) = member_from(source, at, reading, index)->0;
            let held = start.with(member, end);
            &&& begun == member
            &&& member < end <= source.len()
            &&& reading.end <= end
            &&& read_to(source, member, end, start) == Some(held)
            &&& member_from(source, end, held, index) == Some((member, end))
        }),
    decreases source.len() - at,
{
    lemma_next_of(source, at, reading);
    if let Some((end, next)) = next_of(source, at, reading) {
        if next.done.len() == index {
            assert(read_to(source, at, end, reading) == Some(next)) by {
                assert(read_to(source, end, end, next) == Some(next));
            }
            lemma_read_to_grows(source, member, at, end, start);
            assert(next.start == Some(member));
            lemma_member_is_ended(source, end, next, index, member, start);
        }
    }
}

/// A reading's member ends no earlier than it has come.
proof fn lemma_member_ends_ahead(source: Seq<u8>, at: int, reading: Reading, index: nat)
    requires
        sound(reading, at),
        reading.start is Some && reading.done.len() == index,
    ensures
        member_from(source, at, reading, index) matches Some((member, end)) ==> reading.end <= end,
    decreases source.len() - at,
{
    lemma_next_of(source, at, reading);
    if let Some((end, next)) = next_of(source, at, reading) {
        if next.done.len() == index {
            lemma_member_ends_ahead(source, end, next, index);
        }
    }
}

/// Where two sources agree up to `to`, and `to` is no line's end, they are read alike up to there.
proof fn lemma_read_to_by_prefix(left: Seq<u8>, right: Seq<u8>, at: int, to: int, reading: Reading)
    requires
        0 <= to < left.len() && to <= right.len(),
        left[to] != LF,
        forall|i: int| 0 <= i < to ==> #[trigger] left[i] == right[i],
        sound(reading, at),
        read_to(left, at, to, reading) is Some,
    ensures
        read_to(right, at, to, reading) == read_to(left, at, to, reading),
        sound(read_to(left, at, to, reading)->0, to),
    decreases to - at,
{
    if at != to {
        lemma_next_of(left, at, reading);
        lemma_piece_at(left, at);
        let (end, next) = next_of(left, at, reading)->0;
        let (piece, whole) = piece_at(left, at)->0;
        lemma_read_to(left, end, to, next);
        lemma_commented_close(left, whole, 1);
        if piece == Piece::LineComment {
            crate::byte_scan::lemma_line_end(left, at + 2);
            lemma_line_ends_at_a_break(left, at + 2);
        }
        assert(left[at] == right[at]);
        lemma_piece_by_prefix(left, right, at, to);
        if piece == Piece::Token && opener(left[at]) {
            lemma_commented_close_by_prefix(left, right, whole, 1, to);
        }
        if let Some(start) = reading.start {
            assert(left.subrange(start, reading.end) =~= right.subrange(start, reading.end));
        }
        assert(next_of(right, at, reading) == next_of(left, at, reading));
        lemma_read_to_by_prefix(left, right, end, to, next);
    }
}

/// A line ends at a line break, or with the source.
proof fn lemma_line_ends_at_a_break(source: Seq<u8>, from: int)
    requires
        0 <= from <= source.len(),
    ensures
        line_end(source, from) < source.len() ==> source[line_end(source, from)] == LF,
    decreases source.len() - from,
{
    if from < source.len() && source[from] != LF {
        lemma_line_ends_at_a_break(source, from + 1);
    }
}

/// A reading stands past trivia as it stood before it.
proof fn lemma_read_to_passes_trivia(source: Seq<u8>, at: int, to: int, reading: Reading)
    requires
        trivia_between(source, at, to),
    ensures
        read_to(source, at, to, reading) == Some(reading),
    decreases to - at,
{
    if at != to {
        let (_, end) = piece_at(source, at)->0;
        lemma_read_to_passes_trivia(source, end, to, reading);
    }
}

/// The seam before `to` looks past a nested container from its close on.
proof fn lemma_seam_passes_a_container(source: Seq<u8>, at: int, depth: nat, to: int, seam: Seam)
    requires
        depth > 0,
        commented_close(source, at, depth) matches Some(close) && close <= to,
    ensures
        seam_from(source, at, to, seam) == seam_from(
            source,
            commented_close(source, at, depth)->0,
            to,
            Seam { end: commented_close(source, at, depth)->0 as usize, block: false, line: None },
        ),
    decreases source.len() - at,
{
    lemma_commented_close(source, at, depth);
    lemma_piece_at(source, at);
    let (piece, end) = piece_at(source, at)->0;
    lemma_commented_close(source, end, depth);
    lemma_commented_close(source, end, depth + 1);
    lemma_commented_close(source, end, (depth - 1) as nat);
    let marked = noted(source, at, seam);
    let next = match piece {
        Piece::Token => Seam { end: end as usize, block: false, line: None },
        Piece::BlockComment => Seam { block: true, ..marked },
        _ => marked,
    };
    if piece == Piece::Token && opener(source[at]) {
        lemma_seam_passes_a_container(source, end, depth + 1, to, next);
    } else if piece == Piece::Token && closer(source[at]) {
        if depth > 1 {
            lemma_seam_passes_a_container(source, end, (depth - 1) as nat, to, next);
        }
    } else {
        lemma_seam_passes_a_container(source, end, depth, to, next);
    }
}

/// The seam before `to` is found ahead, or was found already.
proof fn lemma_seam_is_ahead(source: Seq<u8>, at: int, to: int, seam: Seam)
    requires
        0 <= seam.end <= at <= source.len() <= usize::MAX,
        to <= source.len(),
    ensures
        seam_from(source, at, to, seam) matches Some(found) ==> found.end == seam.end || at < found.end <= to,
    decreases to - at,
{
    if at < to {
        lemma_piece_at(source, at);
        let marked = noted(source, at, seam);
        if let Some((piece, end)) = piece_at(source, at) {
            if end <= to {
                lemma_seam_is_ahead(
                    source,
                    end,
                    to,
                    match piece {
                        Piece::Token => Seam { end: end as usize, block: false, line: None },
                        Piece::BlockComment => Seam { block: true, ..marked },
                        _ => marked,
                    },
                );
            }
        }
    }
}

/// A reading that comes to `to` comes to the comma before the seam there, and past it to `to` as it stood past the comma.
proof fn lemma_comma_is_reached(source: Seq<u8>, at: int, to: int, reading: Reading, seam: Seam) -> (stop: Reading)
    requires
        0 <= seam.end <= at <= to <= source.len() <= usize::MAX,
        sound(reading, at),
        read_to(source, at, to, reading) is Some,
        seam_from(source, at, to, seam) matches Some(found) && at < found.end && source[found.end - 1] == COMMA
            && trivia_between(source, found.end as int, to),
    ensures
        ({
            let comma = seam_from(source, at, to, seam)->0.end - 1;
            &&& at <= comma < to
            &&& read_to(source, at, comma, reading) == Some(stop)
            &&& read_to(source, at, to, reading) == Some(stop.past_comma(source))
        }),
    decreases to - at,
{
    let before = seam_from(source, at, to, seam)->0.end as int;
    lemma_seam_is_ahead(source, at, to, seam);
    lemma_next_of(source, at, reading);
    lemma_piece_at(source, at);
    let (end, next) = next_of(source, at, reading)->0;
    let (piece, whole) = piece_at(source, at)->0;
    let marked = noted(source, at, seam);
    let after = match piece {
        Piece::Token => Seam { end: end as usize, block: false, line: None },
        Piece::BlockComment => Seam { block: true, ..marked },
        _ => marked,
    };
    if piece == Piece::Token && opener(source[at]) {
        lemma_commented_close(source, whole, 1);
        lemma_seam_passes_a_container(
            source,
            whole,
            1,
            to,
            Seam { end: whole as usize, block: false, line: None },
        );
        lemma_close_is_a_closer(source, whole, 1);
    }
    assert(seam_from(source, at, to, seam) == seam_from(source, end, to, after));
    lemma_seam_is_ahead(source, end, to, after);
    if before == end {
        assert(piece == Piece::Token);
        assert(source[at] == COMMA) by {
            if source[at] == QUOTE || source[at] == APOSTROPHE {
                crate::edit::lemma_string_close(source, at + 1, source[at]);
            }
        }
        lemma_read_to_passes_trivia(source, before, to, next);
        assert(read_to(source, at, at, reading) == Some(reading));
        reading
    } else {
        lemma_comma_is_reached(source, end, to, next, after)
    }
}

/// What closes a container is a closing delimiter.
proof fn lemma_close_is_a_closer(source: Seq<u8>, at: int, depth: nat)
    ensures
        commented_close(source, at, depth) matches Some(close) ==> closer(source[close - 1]),
    decreases source.len() - at,
{
    lemma_piece_at(source, at);
    if let Some((piece, end)) = piece_at(source, at) {
        if piece == Piece::Token && opener(source[at]) {
            lemma_close_is_a_closer(source, end, depth + 1);
        } else if piece == Piece::Token && closer(source[at]) && depth > 1 {
            lemma_close_is_a_closer(source, end, (depth - 1) as nat);
        } else {
            lemma_close_is_a_closer(source, end, depth);
        }
    }
}

/// Whether `other` has read what `reading` has, but for the member `index`, in a source where what `reading` is reading has
/// moved.
spec fn without(reading: Reading, other: Reading, index: int, from: int, at: int, by: int) -> bool {
    &&& 0 <= index < reading.done.len()
    &&& other.done == reading.done.remove(index)
    &&& match reading.start {
        Some(start) => from <= start < reading.end <= at && other.start == Some(start + by) && other.end == reading.end
            + by,
        None => other.start is None,
    }
}

/// Whether what was read off `moved` is what was read off `source`, but for the member `index`, whose text is `text`.
spec fn loses(
    whole: Option<(Seq<Seq<u8>>, int)>,
    less: Option<(Seq<Seq<u8>>, int)>,
    index: int,
    text: Seq<u8>,
    by: int,
) -> bool {
    match whole {
        Some((texts, close)) => {
            &&& 0 <= index < texts.len()
            &&& texts[index] == text
            &&& less == Some((texts.remove(index), close + by))
        },
        None => less is None,
    }
}

/// A member read whole stays the only difference.
proof fn lemma_reads_without(
    source: Seq<u8>,
    moved: Seq<u8>,
    from: int,
    by: int,
    at: int,
    reading: Reading,
    other: Reading,
    index: int,
)
    requires
        moved_by(source, moved, from, by),
        from <= at,
        without(reading, other, index, from, at, by),
    ensures
        loses(
            members_from(source, at, reading),
            members_from(moved, at + by, other),
            index,
            reading.done[index],
            by,
        ),
    decreases source.len() - at,
{
    lemma_members_by_step(source, at, reading);
    lemma_members_by_step(moved, at + by, other);
    lemma_next_of(source, at, reading);
    lemma_piece_moves(source, moved, from, by, at);
    lemma_piece_at(source, at);
    lemma_texts_without(source, moved, from, by, at, reading, other, index);
    if at < source.len() {
        assert(source[at] == moved[at + by]);
    }
    if let Some((_, whole)) = piece_at(source, at) {
        lemma_commented_close_moves(source, moved, from, by, whole, 1);
    }
    if let Some((end, next)) = next_of(source, at, reading) {
        let (_, after) = next_of(moved, at + by, other)->0;
        lemma_reads_without(source, moved, from, by, end, next, after, index);
    }
}

/// The texts read so far differ by the one member.
proof fn lemma_texts_without(
    source: Seq<u8>,
    moved: Seq<u8>,
    from: int,
    by: int,
    at: int,
    reading: Reading,
    other: Reading,
    index: int,
)
    requires
        moved_by(source, moved, from, by),
        without(reading, other, index, from, at, by),
    ensures
        at <= source.len() ==> other.texts(moved) == reading.texts(source).remove(index),
        index < reading.texts(source).len(),
        reading.texts(source)[index] == reading.done[index],
{
    if at <= source.len() {
        if let Some(start) = reading.start {
            let text = source.subrange(start, reading.end);
            assert(moved.subrange(start + by, reading.end + by) =~= text) by {
                assert forall|i: int| start <= i < reading.end implies #[trigger] source[i] == moved[i + by] by {}
            }
            assert(reading.done.push(text).remove(index) =~= reading.done.remove(index).push(text));
        }
    }
}

/// The member that is being read is left out where it is read no more.
proof fn lemma_rest_without(
    source: Seq<u8>,
    moved: Seq<u8>,
    from: int,
    by: int,
    at: int,
    reading: Reading,
    other: Reading,
)
    requires
        moved_by(source, moved, from, by),
        from <= at <= source.len(),
        sound(reading, at),
        reading.start is Some,
        member_from(source, at, reading, reading.done.len()) == Some((reading.start->0, reading.end)),
        other.texts(moved) == reading.done,
    ensures
        loses(
            members_from(source, at, reading),
            members_from(moved, at + by, other),
            reading.done.len() as int,
            source.subrange(reading.start->0, reading.end),
            by,
        ),
    decreases source.len() - at,
{
    let index = reading.done.len();
    let text = source.subrange(reading.start->0, reading.end);
    lemma_members_by_step(source, at, reading);
    lemma_members_by_step(moved, at + by, other);
    lemma_next_of(source, at, reading);
    lemma_piece_moves(source, moved, from, by, at);
    lemma_piece_at(source, at);
    assert(reading.done.push(text).remove(index as int) =~= reading.done);
    if at < source.len() {
        assert(source[at] == moved[at + by]);
    }
    if let Some((end, next)) = next_of(source, at, reading) {
        if next.done.len() > index {
            assert(next == reading.past_comma(source));
            assert(next_of(moved, at + by, other) == Some((end + by, other.past_comma(moved))));
            lemma_reads_without(source, moved, from, by, end, next, other.past_comma(moved), index as int);
        } else if next == reading {
            assert(next_of(moved, at + by, other) == Some((end + by, other)));
            lemma_rest_without(source, moved, from, by, end, reading, other);
        } else {
            lemma_member_ends_ahead(source, end, next, index);
            assert(false);
        }
    }
}

/// Whitespace changes nothing for a reading.
proof fn lemma_reading_passes_whitespace(source: Seq<u8>, at: int, to: int, reading: Reading)
    requires
        0 <= at <= to <= source.len(),
        forall|i: int| at <= i < to ==> json_ws(#[trigger] source[i]),
    ensures
        members_from(source, at, reading) == members_from(source, to, reading),
        member_from(source, at, reading, reading.done.len()) == member_from(source, to, reading, reading.done.len()),
    decreases to - at,
{
    if at < to {
        assert(json_ws(source[at]));
        lemma_members_by_step(source, at, reading);
        lemma_reading_passes_whitespace(source, at + 1, to, reading);
    }
}

/// A reading at its start.
spec fn fresh(open: int) -> Reading {
    Reading { done: seq![], start: None, end: open }
}

/// The first member's cut ends with its value, with the whitespace behind it, or with its comma and whitespace behind that.
proof fn lemma_first_cut_ends(source: Seq<u8>, end: int, gone: int)
    requires
        0 <= end <= source.len(),
        jsonc_first_cut_end(source, end) == Some(gone),
    ensures
        ({
            let after = run_end(source, end, StopSet::Ws);
            &&& end <= after <= source.len()
            &&& forall|i: int| end <= i < after ==> json_ws(#[trigger] source[i])
            &&& {
                ||| gone == end
                ||| gone == after
                ||| after < gone <= source.len() && source[after] == COMMA && forall|i: int|
                    after < i < gone ==> json_ws(#[trigger] source[i])
            }
        }),
{
    let after = run_end(source, end, StopSet::Ws);
    lemma_run_end(source, end, StopSet::Ws);
    assert forall|i: int| end <= i < after implies json_ws(#[trigger] source[i]) by {
        assert(!StopSet::Ws.stops(source[i]));
    }
    if after < source.len() {
        lemma_run_end(source, after + 1, StopSet::Ws);
        let next = run_end(source, after + 1, StopSet::Ws);
        assert forall|i: int| after < i < next implies json_ws(#[trigger] source[i]) by {
            assert(!StopSet::Ws.stops(source[i]));
        }
    }
}

/// The first member is read up to the end of its cut: with the comma behind it, or without where none follows.
#[verifier::spinoff_prover]
proof fn lemma_first_member_is_passed(source: Seq<u8>, open: int, member: int, end: int, gone: int) -> (stop: Reading)
    requires
        0 <= open < source.len(),
        commented_member(source, open, 0) == Some((member, end)),
        trivia_between(source, open + 1, member),
        jsonc_first_cut_end(source, end) == Some(gone),
    ensures
        open + 1 <= member < end <= gone <= source.len(),
        members_from(source, open + 1, fresh(open)) == members_from(source, gone, stop),
        ({
            ||| stop.start is None && stop.done == seq![source.subrange(member, end)]
            ||| stop == fresh(open).with(member, end) && member_from(source, gone, stop, 0) == Some((member, end))
        }),
{
    let first = fresh(open);
    let begun = lemma_member_is_reached(source, open + 1, first, 0);
    let held = begun.with(member, end);
    lemma_read_to_passes_trivia(source, open + 1, member, first);
    lemma_read_to(source, open + 1, member, first);
    lemma_read_to(source, member, end, first);
    let after = run_end(source, end, StopSet::Ws);
    lemma_first_cut_ends(source, end, gone);
    lemma_reading_passes_whitespace(source, end, after, held);
    if gone > after {
        let past = held.past_comma(source);
        lemma_members_by_step(source, after, held);
        assert(piece_at(source, after) == Some((Piece::Token, after + 1)));
        assert(next_of(source, after, held) == Some((after + 1, past)));
        lemma_reading_passes_whitespace(source, after + 1, gone, past);
        assert(past.done =~= seq![source.subrange(member, end)]);
        past
    } else {
        held
    }
}

/// The first member is left out with the comments before it, and with the comma behind it where there is one.
proof fn lemma_first_member_leaves(source: Seq<u8>, open: int, member: int, end: int, gone: int)
    requires
        0 <= open < source.len(),
        commented_member(source, open, 0) == Some((member, end)),
        trivia_between(source, open + 1, member),
        jsonc_first_cut_end(source, end) == Some(gone),
    ensures
        loses(
            members_from(source, open + 1, fresh(open)),
            members_from(source.take(open + 1) + source.skip(gone), open + 1, fresh(open)),
            0,
            source.subrange(member, end),
            open + 1 - gone,
        ),
        open + 1 < end <= gone <= source.len(),
        members_from(source, open + 1, fresh(open)) matches Some((_, close)) ==> gone < close,
{
    let first = fresh(open);
    let stop = lemma_first_member_is_passed(source, open, member, end, gone);
    let result = source.take(open + 1) + source.skip(gone);
    let by = open + 1 - gone;
    assert forall|i: int| gone <= i < source.len() implies #[trigger] source[i] == result[i + by] by {
        assert(result[i + by] == source.skip(gone)[i - gone]);
    }
    assert(moved_by(source, result, gone, by));
    lemma_members_close(source, gone, stop);
    if stop.start is None {
        assert(stop.done.remove(0) =~= first.done);
        lemma_reads_without(source, result, gone, by, gone, stop, first, 0);
    } else {
        lemma_rest_without(source, result, gone, by, gone, stop, first);
    }
}

/// A later member is left out with the comma before it, and the comments between the two.
proof fn lemma_later_commented_member_leaves(source: Seq<u8>, open: int, index: nat, member: int, end: int, comma: int)
    requires
        0 <= open < source.len() <= usize::MAX,
        commented_member(source, open, index) == Some((member, end)),
        seam_before(source, open + 1, member) matches Some(seam) && seam.end == comma + 1 && open + 1 <= comma,
        source[comma] == COMMA,
    ensures
        loses(
            members_from(source, open + 1, fresh(open)),
            members_from(source.take(comma) + source.skip(end), open + 1, fresh(open)),
            index as int,
            source.subrange(member, end),
            comma - end,
        ),
        open < comma < end <= source.len(),
        members_from(source, open + 1, fresh(open)) matches Some((_, close)) ==> end < close,
{
    let first = fresh(open);
    let begun = lemma_member_is_reached(source, open + 1, first, index);
    let held = begun.with(member, end);
    lemma_seam_is_trivia(source, open + 1, member);
    let stop = lemma_comma_is_reached(
        source,
        open + 1,
        member,
        first,
        Seam { end: (open + 1) as usize, block: false, line: None },
    );
    let result = source.take(comma) + source.skip(end);
    let by = comma - end;
    assert forall|i: int| 0 <= i < comma implies #[trigger] source[i] == result[i] by {}
    lemma_read_to_by_prefix(source, result, open + 1, comma, first);
    lemma_read_to(result, open + 1, comma, first);
    lemma_read_to(source, open + 1, member, first);
    lemma_read_to(source, member, end, begun);
    if let Some(start) = stop.start {
        assert(source.subrange(start, stop.end) =~= result.subrange(start, stop.end));
    }
    assert(moved_by(source, result, end, by)) by {
        assert forall|i: int| end <= i < source.len() implies #[trigger] source[i] == result[i + by] by {}
    }
    lemma_members_close(source, end, held);
    lemma_rest_without(source, result, end, by, end, held, stop);
}

/// A shrunk commented container holds its members without the one that was removed: where the cut of a member can be named,
/// reading the container without it gives the texts that were there, unchanged and in order, but for that member's.
pub proof fn lemma_shrunk_commented_container_loses_one_member(
    source: Seq<u8>,
    open: int,
    index: nat,
    member: int,
    end: int,
)
    requires
        source.len() <= usize::MAX,
        commented_items(source, open) is Some,
        commented_member(source, open, index) == Some((member, end)),
        jsonc_cut_range(source, open, member, end) is Some,
    ensures
        ({
            let items = commented_items(source, open)->0;
            let (start, gone) = jsonc_cut_range(source, open, member, end)->0;
            &&& index < items.len()
            &&& items[index as int] == source.subrange(member, end)
            &&& commented_items(source.take(start) + source.skip(gone), open) == Some(items.remove(index as int))
        }),
{
    let (start, gone) = jsonc_cut_range(source, open, member, end)->0;
    let before = back_over_comments(source, member, open)->0;
    let begun = lemma_member_is_reached(source, open + 1, fresh(open), index);
    let result = source.take(start) + source.skip(gone);
    let by = start - gone;
    lemma_seam_is_trivia(source, open + 1, member);
    if before == open + 1 {
        lemma_read_to_passes_trivia(source, open + 1, member, fresh(open));
        assert(index == 0);
        lemma_first_member_leaves(source, open, member, end, gone);
    } else {
        lemma_later_commented_member_leaves(source, open, index, member, end, start);
    }
    lemma_members_close(source, open + 1, fresh(open));
    let (_, close) = members_from(source, open + 1, fresh(open))->0;
    assert(result[close + by - 1] == source[close - 1]);
    assert(result[open] == source[open]);
}

/// The members end with the container's closing delimiter.
proof fn lemma_members_close(source: Seq<u8>, at: int, reading: Reading)
    ensures
        members_from(source, at, reading) matches Some((_, close)) ==> at < close <= source.len(),
    decreases source.len() - at,
{
    lemma_members_by_step(source, at, reading);
    lemma_next_of(source, at, reading);
    if let Some((end, next)) = next_of(source, at, reading) {
        lemma_members_close(source, end, next);
    }
}

} // verus!
