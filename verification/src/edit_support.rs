//! The backward walks shared by the strict and the commented edit splices: over whitespace, to a line's start, to a key.

use vstd::prelude::*;

use crate::ascii::{BACKSLASH, COLON, LF};

use crate::byte_scan::{is_json_ws, json_ws};

verus! {

/// The position reached from `from` going back over whitespace, never below `floor`.
pub open spec fn back_over_ws(source: Seq<u8>, from: int, floor: int) -> int
    decreases from - floor,
{
    if from > floor && json_ws(source[from - 1]) {
        back_over_ws(source, from - 1, floor)
    } else {
        from
    }
}

/// The start of the line that holds position `from`, never below `floor`.
pub open spec fn back_to_line(source: Seq<u8>, from: int, floor: int) -> int
    decreases from - floor,
{
    if from > floor && source[from - 1] != LF {
        back_to_line(source, from - 1, floor)
    } else {
        from
    }
}

pub proof fn lemma_back_over_ws(source: Seq<u8>, from: int, floor: int)
    requires
        floor <= from,
    ensures
        floor <= back_over_ws(source, from, floor) <= from,
        forall|i: int| back_over_ws(source, from, floor) <= i < from ==> json_ws(#[trigger] source[i]),
    decreases from - floor,
{
    if from > floor && json_ws(source[from - 1]) {
        lemma_back_over_ws(source, from - 1, floor);
    }
}

pub proof fn lemma_back_to_line(source: Seq<u8>, from: int, floor: int)
    requires
        floor <= from,
    ensures
        floor <= back_to_line(source, from, floor) <= from,
        back_to_line(source, from, floor) > floor ==> source[back_to_line(source, from, floor) - 1] == LF,
    decreases from - floor,
{
    if from > floor && source[from - 1] != LF {
        lemma_back_to_line(source, from - 1, floor);
    }
}

/// The position reached from `from` going back over whitespace, never below `floor`.
pub fn walk_back_over_ws(source: &[u8], from: usize, floor: usize) -> (at: usize)
    requires
        from <= source.len(),
    ensures
        at == back_over_ws(source@, from as int, floor as int),
        at <= from,
        floor <= from ==> floor <= at,
{
    let mut at: usize = from;
    while at > floor && is_json_ws(source[at - 1])
        invariant
            at <= from <= source.len(),
            floor <= from ==> floor <= at,
            back_over_ws(source@, from as int, floor as int) == back_over_ws(source@, at as int, floor as int),
        decreases at,
    {
        at -= 1;
    }
    at
}

/// The start of the line that holds position `from`, never below `floor`.
pub fn walk_back_to_line(source: &[u8], from: usize, floor: usize) -> (at: usize)
    requires
        from <= source.len(),
    ensures
        at == back_to_line(source@, from as int, floor as int),
        at <= from,
        floor <= from ==> floor <= at,
{
    let mut at: usize = from;
    while at > floor && source[at - 1] != LF
        invariant
            at <= from <= source.len(),
            floor <= from ==> floor <= at,
            back_to_line(source@, from as int, floor as int) == back_to_line(source@, at as int, floor as int),
        decreases at,
    {
        at -= 1;
    }
    at
}

/// Where the key before a value ends: back from the value over whitespace, one `:`, and whitespace again.
pub open spec fn key_end(source: Seq<u8>, value_start: int, floor: int) -> Option<int> {
    let colon = back_over_ws(source, value_start, floor);
    if colon == floor || source[colon - 1] != COLON {
        None
    } else {
        Some(back_over_ws(source, colon - 1, floor))
    }
}

/// Walks back from `value_start` over whitespace, one `:`, and whitespace again, never passing below `floor`. Returns the
/// cursor just past the key's last byte (its closing quote or identifier tail), or `None` when no colon precedes within
/// `floor`.
pub fn rewind_to_key(source: &[u8], value_start: usize, floor: usize) -> (end: Option<usize>)
    requires
        floor <= value_start <= source.len(),
    ensures
        match end {
            Some(end) => key_end(source@, value_start as int, floor as int) == Some(end as int) && floor <= end
                < value_start,
            None => key_end(source@, value_start as int, floor as int) is None,
        },
{
    let colon = walk_back_over_ws(source, value_start, floor);
    if colon == floor || source[colon - 1] != COLON {
        return None;
    }
    Some(walk_back_over_ws(source, colon - 1, floor))
}

/// How many backslashes stand right before `at`.
pub open spec fn backslashes_before(source: Seq<u8>, at: int) -> int
    decreases at,
{
    if at > 0 && source[at - 1] == BACKSLASH {
        1 + backslashes_before(source, at - 1)
    } else {
        0
    }
}

/// Whether a structural `quote` stands at `at`: one that an EVEN run of backslashes precedes.
pub open spec fn structural_quote(source: Seq<u8>, at: int, quote: u8) -> bool {
    0 <= at < source.len() && source[at] == quote && backslashes_before(source, at) % 2 == 0
}

/// Whether `at` is the last structural `quote` before `end`, at or above `floor`.
pub open spec fn last_quote(source: Seq<u8>, at: int, quote: u8, floor: int, end: int) -> bool {
    &&& floor <= at < end
    &&& structural_quote(source, at, quote)
    &&& forall|i: int| at < i < end ==> !#[trigger] structural_quote(source, i, quote)
}

/// Walks backward from just below `close` — the cursor just past a closing quote — to the matching opening `quote`. A
/// quote byte preceded by an EVEN run of backslashes is structural; an odd run makes it an escaped literal inside the
/// string. `None` when the walk reaches `floor` first.
pub fn opening_quote_left(source: &[u8], close: usize, quote: u8, floor: usize) -> (opening: Option<usize>)
    requires
        close <= source.len(),
        quote != BACKSLASH,
    ensures
        match opening {
            Some(at) => last_quote(source@, at as int, quote, floor as int, close - 1),
            None => forall|i: int| floor <= i < close - 1 ==> !#[trigger] structural_quote(source@, i, quote),
        },
{
    if close == 0 {
        return None;
    }
    let mut p: usize = close - 1;
    while p > floor
        invariant
            p <= close - 1,
            1 <= close <= source.len(),
            quote != BACKSLASH,
            forall|i: int| p <= i < close - 1 ==> !#[trigger] structural_quote(source@, i, quote),
        decreases p,
    {
        if source[p - 1] != quote {
            p -= 1;
            continue;
        }
        let mut run: usize = 0;
        while run + 1 < p && source[p - 2 - run] == BACKSLASH
            invariant
                run + 1 <= p <= source.len(),
                backslashes_before(source@, p - 1) == run + backslashes_before(source@, p - 1 - run),
                forall|i: int| p - 1 - run <= i < p - 1 ==> #[trigger] source@[i] == BACKSLASH,
            decreases p - run,
        {
            run += 1;
        }
        assert(backslashes_before(source@, p - 1 - run) == 0);
        if run % 2 == 0 {
            assert(structural_quote(source@, p - 1, quote));
            return Some(p - 1);
        }
        proof {
            assert forall|i: int| p - 1 - run <= i < close - 1 implies !#[trigger] structural_quote(
                source@,
                i,
                quote,
            ) by {
                if i < p - 1 {
                    assert(source@[i] == BACKSLASH);
                }
            }
        }
        p -= 1 + run;
    }
    None
}

} // verus!
