//! What an edit of a commented container keeps of its author's style, byte by byte: where added members land, what parts
//! them from the last one, and what a removed member takes with it.

use vstd::prelude::*;

use crate::edit::is_line_break;
use crate::edit_style_laws::{
    indented_to, last_break_at, lemma_blank_end_is, lemma_line_is, lemma_through_break_is, line_starts_at, white,
    white_to,
};
use crate::jsonc::comment_laws::pieces_lead;
use crate::jsonc::encode::{
    jsonc_cut_range, jsonc_growth_plan, jsonc_region, jsonc_separator_text, lemma_region_from, on_over_ws, region_from,
    word_end,
};
use crate::jsonc::seam::{
    lemma_piece_at, noted, piece_at, seam_before, seam_from, trivia_between, trivia_end, Piece, Seam,
};
use crate::trivia_laws::comment_opens;

verus! {

proof fn lemma_on_is(source: Seq<u8>, from: int, end: int, to: int)
    requires
        0 <= from <= to <= end <= source.len(),
        forall|i: int| from <= i < to ==> white(#[trigger] source[i]),
        to == end || !white(source[to]),
    ensures
        on_over_ws(source, from, end) == to,
    decreases to - from,
{
    if from < to {
        assert(white(source[from]));
        lemma_on_is(source, from + 1, end, to);
    }
}

/// Added members land at the comma that trails the last member, where only whitespace parts the two, and right behind the
/// last value otherwise, so that every comment behind it stays behind them; in an empty container they land right behind
/// the opening delimiter. The container wraps where a line break stands anywhere behind its last value.
pub proof fn lemma_commented_growth_lands_before_the_comments(source: Seq<u8>, open: int, next: int)
    requires
        jsonc_region(source, open) matches Some(region) && {
            &&& region.value_end <= next < region.close
            &&& forall|i: int| region.value_end <= i < next ==> white(#[trigger] source[i])
            &&& next == region.close - 1 || !white(source[next])
        },
    ensures
        ({
            let region = jsonc_region(source, open)->0;
            let plan = jsonc_growth_plan(source, open);
            &&& plan matches Some(plan)
            &&& plan.empty <==> region.value_end == open
            &&& plan.empty ==> plan.at == open + 1 && plan.separator.len() == 0 && !plan.wrapped
            &&& !plan.empty && source[next] == 0x2c ==> plan.at == next
            &&& !plan.empty && source[next] != 0x2c ==> plan.at == region.value_end
            &&& !plan.empty ==> (plan.wrapped <==> exists|i: int|
                region.value_end <= i < region.close - 1 && (#[trigger] source[i] == 0x0a || source[i] == 0x0d))
        }),
{
    let region = jsonc_region(source, open)->0;
    lemma_region_from(source, open, 0, open);
    lemma_on_is(source, region.value_end, region.close - 1, next);
    if exists|i: int| region.value_end <= i < region.close - 1 && (#[trigger] source[i] == 0x0a || source[i] == 0x0d) {
        let i = choose|i: int|
            region.value_end <= i < region.close - 1 && (#[trigger] source[i] == 0x0a || source[i] == 0x0d);
        assert(is_line_break(source[i]));
    }
}

/// What parts a member that lands at `at` from the one before it, where the container wraps. `from` is where the
/// whitespace behind the last value and its comma starts, and `next` where it ends. In front of a comment it is a comma
/// and that whitespace. Elsewhere it is a comma, everything through the last line break before the closing delimiter, and
/// exactly the spaces and tabs that the line of the byte before `at` starts with.
pub proof fn lemma_commented_separator_keeps_the_indentation(
    source: Seq<u8>,
    open: int,
    at: int,
    close: int,
    comma: bool,
    next: int,
    line: int,
    indent: int,
    last: int,
)
    requires
        0 <= open < at < close <= source.len(),
        source[close - 1] == 0x7d || source[close - 1] == 0x5d,
        comma <==> source[at] == 0x2c,
        ({
            let from = if comma {
                at + 1
            } else {
                at
            };
            &&& from <= next < close
            &&& forall|i: int| from <= i < next ==> white(#[trigger] source[i])
            &&& next == close - 1 || !white(source[next])
        }),
        source[next] != 0x2c,
        line_starts_at(source, open, at, line),
        indented_to(source, line, indent),
    ensures
        ({
            let from = if comma {
                at + 1
            } else {
                at
            };
            let text = jsonc_separator_text(source, open, at, close, false, true);
            &&& comment_opens(source, next) ==> text == seq![0x2cu8] + source.subrange(from, next)
            &&& !comment_opens(source, next) && last_break_at(source, from, close - 1, last) ==> text == seq![0x2cu8]
                + source.subrange(from, last + 1) + source.subrange(line, indent)
            &&& jsonc_separator_text(source, open, at, close, false, false) == seq![0x2cu8]
        }),
{
    let from = if comma {
        at + 1
    } else {
        at
    };
    let end = close - 1;
    if comma {
        assert(at < end);
        lemma_on_is(source, at, end, at);
    } else {
        lemma_on_is(source, at, end, next);
    }
    lemma_on_is(source, from, end, next);
    lemma_on_is(source, next, end, next);
    lemma_line_is(source, at - 1, open, line);
    lemma_blank_end_is(source, line, indent);
    let text = jsonc_separator_text(source, open, at, close, false, true);
    if comment_opens(source, next) {
        assert(text =~= seq![0x2cu8] + source.subrange(from, next));
    } else if last_break_at(source, from, end, last) {
        let run = source.subrange(from, end);
        assert(crate::jsonc::encode::without_leading_comma(source.subrange(at, end)) =~= run);
        assert forall|i: int| last - from < i < run.len() implies #[trigger] run[i] != 0x0a && run[i] != 0x0d by {
            assert(run[i] == source[from + i]);
        }
        lemma_through_break_is(run, last - from);
        assert(run.take(last - from + 1) =~= source.subrange(from, last + 1));
    }
}

/// Whether nothing but whitespace and `//` comments stands from `from` to `to`.
pub open spec fn line_trivia(source: Seq<u8>, from: int, to: int) -> bool
    decreases to - from,
{
    from == to || match piece_at(source, from) {
        Some((piece, end)) => (piece == Piece::Space || piece == Piece::LineComment) && from < end <= to && line_trivia(
            source,
            end,
            to,
        ),
        None => false,
    }
}

proof fn lemma_seam_over_lines(source: Seq<u8>, at: int, target: int, seam: Seam)
    requires
        0 <= at <= target <= source.len() <= usize::MAX,
        line_trivia(source, at, target),
    ensures
        seam_from(source, at, target, seam) matches Some(found) && found.end == seam.end && found.block == seam.block,
    decreases target - at,
{
    let marked = noted(source, at, seam);
    if at < target {
        let (piece, end) = piece_at(source, at)->0;
        lemma_seam_over_lines(source, end, target, marked);
    }
}

proof fn lemma_seam_past_a_token(source: Seq<u8>, at: int, token: int, target: int, seam: Seam)
    requires
        0 <= at <= token < target <= source.len() <= usize::MAX,
        pieces_lead(source, at, token),
        piece_at(source, token) == Some((Piece::Token, token + 1)),
        line_trivia(source, token + 1, target),
    ensures
        seam_from(source, at, target, seam) matches Some(found) && found.end == token + 1 && !found.block,
    decreases token - at,
{
    let marked = noted(source, at, seam);
    let (piece, end) = piece_at(source, at)->0;
    if at == token {
        lemma_seam_over_lines(source, end, target, Seam { end: end as usize, block: false, line: None });
    } else {
        lemma_seam_past_a_token(
            source,
            end,
            token,
            target,
            match piece {
                Piece::Token => Seam { end: end as usize, block: false, line: None },
                Piece::BlockComment => Seam { block: true, ..marked },
                _ => marked,
            },
        );
    }
}

/// A later member of a commented container leaves with the comma before it and the whitespace and `//` comments between
/// the two, and with nothing behind its value.
pub proof fn lemma_commented_later_cut_starts_at_its_comma(
    source: Seq<u8>,
    open: int,
    comma: int,
    member: int,
    value_end: int,
)
    requires
        0 <= open < comma < member <= value_end <= source.len() <= usize::MAX,
        pieces_lead(source, open + 1, comma),
        source[comma] == 0x2c,
        line_trivia(source, comma + 1, member),
    ensures
        jsonc_cut_range(source, open, member, value_end) == Some((comma, value_end)),
{
    let start = Seam { end: (open + 1) as usize, block: false, line: None };
    assert(piece_at(source, comma) == Some((Piece::Token, comma + 1)));
    lemma_seam_past_a_token(source, open + 1, comma, member, start);
    assert(seam_before(source, open + 1, member) == seam_from(source, open + 1, member, start));
}

/// The first member of a commented container leaves with everything between the opening delimiter and its value, its
/// leading `//` comments with it. Where only whitespace parts its value from what follows, the cut takes the comma behind
/// the value and nothing past it, or, where no member follows, everything up to the closing delimiter.
pub proof fn lemma_commented_first_cut_takes_what_leads_it(
    source: Seq<u8>,
    open: int,
    member: int,
    value_end: int,
    next: int,
    after: int,
)
    requires
        0 <= open < member <= value_end <= source.len() <= usize::MAX,
        line_trivia(source, open + 1, member),
        white_to(source, value_end, next),
        source[next] == 0x2c ==> white_to(source, next + 1, after),
        !comment_opens(source, next),
    ensures
        jsonc_cut_range(source, open, member, value_end) matches Some((start, end)) && {
            &&& start == open + 1
            &&& end == if source[next] == 0x2c && (source[after] == 0x7d || source[after] == 0x5d) {
                after
            } else if source[next] == 0x2c {
                next + 1
            } else if source[next] == 0x7d || source[next] == 0x5d {
                next
            } else {
                value_end
            }
        },
{
    let start = Seam { end: (open + 1) as usize, block: false, line: None };
    lemma_seam_over_lines(source, open + 1, member, start);
    assert(seam_before(source, open + 1, member) == seam_from(source, open + 1, member, start));
    crate::edit_style_laws::lemma_white_run(source, value_end, next);
    if source[next] == 0x2c {
        crate::edit_style_laws::lemma_white_run(source, next + 1, after);
    }
    lemma_trivia_is_white(source, value_end, next);
}

/// A first member whose value a comment follows, with only whitespace between, leaves up to its value alone where no comma
/// stands behind the comments; where one does, there is no cut.
pub proof fn lemma_commented_first_cut_spares_what_trails_it(
    source: Seq<u8>,
    open: int,
    member: int,
    value_end: int,
    next: int,
    stop: int,
)
    requires
        0 <= open < member <= value_end <= next < stop < source.len() <= usize::MAX,
        line_trivia(source, open + 1, member),
        white_to(source, value_end, next),
        comment_opens(source, next),
        trivia_between(source, value_end, stop),
        !white(source[stop]) && !comment_opens(source, stop),
    ensures
        source[stop] == 0x2c ==> jsonc_cut_range(source, open, member, value_end) is None,
        source[stop] != 0x2c ==> jsonc_cut_range(source, open, member, value_end) == Some((open + 1, value_end)),
{
    let start = Seam { end: (open + 1) as usize, block: false, line: None };
    lemma_seam_over_lines(source, open + 1, member, start);
    assert(seam_before(source, open + 1, member) == seam_from(source, open + 1, member, start));
    crate::edit_style_laws::lemma_white_run(source, value_end, next);
    lemma_trivia_ends(source, value_end, stop);
}

proof fn lemma_trivia_ends(source: Seq<u8>, from: int, to: int)
    requires
        0 <= from <= to < source.len(),
        trivia_between(source, from, to),
        !white(source[to]) && !comment_opens(source, to),
    ensures
        trivia_end(source, from) == to,
    decreases to - from,
{
    if from < to {
        let (_, end) = piece_at(source, from)->0;
        lemma_trivia_ends(source, end, to);
    }
}

proof fn lemma_seam_keeps_a_block(source: Seq<u8>, at: int, target: int, seam: Seam)
    requires
        0 <= at <= target <= source.len() <= usize::MAX,
        trivia_between(source, at, target),
        seam.block,
    ensures
        seam_from(source, at, target, seam) matches Some(found) && found.block,
    decreases target - at,
{
    if at < target {
        let marked = noted(source, at, seam);
        let (_, end) = piece_at(source, at)->0;
        lemma_seam_keeps_a_block(source, end, target, marked);
    }
}

proof fn lemma_seam_meets_a_block(source: Seq<u8>, at: int, block: int, target: int, seam: Seam)
    requires
        0 <= at <= block < target <= source.len() <= usize::MAX,
        pieces_lead(source, at, block),
        piece_at(source, block) matches Some((piece, end)) && piece == Piece::BlockComment && end <= target
            && trivia_between(source, end, target),
    ensures
        seam_from(source, at, target, seam) matches Some(found) && found.block,
    decreases block - at,
{
    let marked = noted(source, at, seam);
    let (piece, end) = piece_at(source, at)->0;
    if at == block {
        lemma_piece_at(source, at);
        lemma_seam_keeps_a_block(source, end, target, Seam { block: true, ..marked });
    } else {
        lemma_seam_meets_a_block(
            source,
            end,
            block,
            target,
            match piece {
                Piece::Token => Seam { end: end as usize, block: false, line: None },
                Piece::BlockComment => Seam { block: true, ..marked },
                _ => marked,
            },
        );
    }
}

/// There is no cut for a member with a block comment right before it, or with nothing but comments and whitespace between
/// the two.
pub proof fn lemma_no_cut_behind_a_block_comment(source: Seq<u8>, open: int, block: int, member: int, value_end: int)
    requires
        0 <= open < block < member <= value_end <= source.len() <= usize::MAX,
        pieces_lead(source, open + 1, block),
        piece_at(source, block) matches Some((piece, end)) && piece == Piece::BlockComment && end <= member
            && trivia_between(source, end, member),
    ensures
        jsonc_cut_range(source, open, member, value_end) is None,
{
    let start = Seam { end: (open + 1) as usize, block: false, line: None };
    lemma_seam_meets_a_block(source, open + 1, block, member, start);
    assert(seam_before(source, open + 1, member) == seam_from(source, open + 1, member, start));
}

proof fn lemma_trivia_is_white(source: Seq<u8>, from: int, to: int)
    requires
        0 <= from,
        white_to(source, from, to),
        !comment_opens(source, to),
    ensures
        crate::jsonc::seam::trivia_end(source, from) == to,
    decreases to - from,
{
    if from < to {
        assert(white(source[from]));
        lemma_trivia_is_white(source, from + 1, to);
    }
}

/// Whether nothing but whitespace, comments, commas and colons stands from `from` to `to`.
pub open spec fn between_values(source: Seq<u8>, from: int, to: int) -> bool
    decreases to - from,
{
    from == to || match piece_at(source, from) {
        Some((piece, end)) => (piece != Piece::Token || source[from] == 0x2c || source[from] == 0x3a) && from < end <= to
            && between_values(source, end, to),
        None => false,
    }
}

/// Whether a token ends at `end` that whole pieces lead up to from `from`, and it is no comma and no colon.
pub open spec fn token_ends(source: Seq<u8>, from: int, end: int) -> bool {
    exists|at: int|
        #[trigger] pieces_lead(source, from, at) && piece_at(source, at) == Some((Piece::Token, end)) && source[at] != 0x2c
            && source[at] != 0x3a
}

proof fn lemma_between_goes_on(source: Seq<u8>, from: int, at: int)
    requires
        between_values(source, from, at),
        piece_at(source, at) matches Some((piece, end)) && (piece != Piece::Token || source[at] == 0x2c || source[at]
            == 0x3a),
    ensures
        piece_at(source, at) matches Some((_, end)) && between_values(source, from, end),
    decreases at - from,
{
    lemma_piece_at(source, at);
    let (_, end) = piece_at(source, at)->0;
    if from == at {
        assert(between_values(source, end, end));
    } else {
        let (_, next) = piece_at(source, from)->0;
        lemma_between_goes_on(source, next, at);
        lemma_between_moves(source, next, at);
    }
}

proof fn lemma_between_moves(source: Seq<u8>, from: int, to: int)
    requires
        between_values(source, from, to),
    ensures
        from <= to,
    decreases to - from,
{
    if from != to {
        let (_, end) = piece_at(source, from)->0;
        lemma_between_moves(source, end, to);
    }
}

proof fn lemma_pieces_go_on(source: Seq<u8>, from: int, at: int)
    requires
        pieces_lead(source, from, at),
        piece_at(source, at) is Some,
    ensures
        piece_at(source, at) matches Some((_, end)) && pieces_lead(source, from, end),
    decreases at - from,
{
    lemma_piece_at(source, at);
    let (_, end) = piece_at(source, at)->0;
    if from == at {
        assert(pieces_lead(source, end, end));
    } else {
        let (_, next) = piece_at(source, from)->0;
        lemma_pieces_go_on(source, next, at);
        lemma_pieces_move(source, next, at);
    }
}

proof fn lemma_pieces_move(source: Seq<u8>, from: int, to: int)
    requires
        pieces_lead(source, from, to),
    ensures
        from <= to,
    decreases to - from,
{
    if from != to {
        let (_, end) = piece_at(source, from)->0;
        lemma_pieces_move(source, end, to);
    }
}

/// A bare word is made of tokens of one byte.
proof fn lemma_word_is_pieces(source: Seq<u8>, from: int, at: int)
    requires
        0 <= at <= source.len(),
        pieces_lead(source, from, at),
    ensures
        pieces_lead(source, from, word_end(source, at)),
        at < word_end(source, at) ==> token_ends(source, from, word_end(source, at)),
    decreases source.len() - at,
{
    if at < source.len() && !crate::jsonc::encode::ends_word(source[at]) {
        assert(piece_at(source, at) == Some((Piece::Token, at + 1)));
        lemma_pieces_go_on(source, from, at);
        lemma_word_is_pieces(source, from, at + 1);
        crate::jsonc::encode::lemma_word_end(source, at + 1);
        if word_end(source, at + 1) == at + 1 {
            assert(token_ends(source, from, at + 1));
        }
    }
}

/// Where the gap behind the last value starts.
spec fn gap_start(open: int, value_end: int) -> int {
    if value_end == open {
        open + 1
    } else {
        value_end
    }
}

#[verifier::spinoff_prover]
#[verifier::rlimit(40)]
proof fn lemma_region_ends_its_last_value(source: Seq<u8>, open: int, at: int, depth: nat, value_end: int)
    requires
        0 <= open < at <= source.len(),
        depth >= 1,
        pieces_lead(source, open + 1, at),
        depth == 1 ==> between_values(source, gap_start(open, value_end), at),
        depth == 1 ==> value_end == open || token_ends(source, open + 1, value_end),
    ensures
        region_from(source, at, depth, value_end) matches Some(region) ==> {
            &&& between_values(source, gap_start(open, region.value_end), region.close - 1)
            &&& region.value_end == open || token_ends(source, open + 1, region.value_end)
        },
    decreases source.len() - at,
{
    if at < source.len() {
        lemma_piece_at(source, at);
        let from = gap_start(open, value_end);
        if source[at] == 0x22 || source[at] == 0x27 {
            if let Some(end) = crate::edit::string_close(source, at + 1, source[at]) {
                lemma_pieces_go_on(source, open + 1, at);
                assert(token_ends(source, open + 1, end));
                assert(between_values(source, end, end));
                lemma_region_ends_its_last_value(source, open, end, depth, if depth == 1 { end } else { value_end });
            }
        } else if source[at] == 0x2f && at + 1 < source.len() && source[at + 1] == 0x2f {
            lemma_pieces_go_on(source, open + 1, at);
            if depth == 1 {
                lemma_between_goes_on(source, from, at);
            }
            lemma_region_ends_its_last_value(source, open, crate::byte_scan::line_end(source, at + 2), depth, value_end);
        } else if source[at] == 0x2f && at + 1 < source.len() && source[at + 1] == 0x2a {
            let end = crate::byte_scan::block_close(source, at + 2);
            if end < source.len() {
                lemma_pieces_go_on(source, open + 1, at);
                if depth == 1 {
                    lemma_between_goes_on(source, from, at);
                }
                lemma_region_ends_its_last_value(source, open, end + 2, depth, value_end);
            }
        } else if source[at] == 0x7b || source[at] == 0x5b {
            lemma_pieces_go_on(source, open + 1, at);
            lemma_region_ends_its_last_value(source, open, at + 1, depth + 1, value_end);
        } else if source[at] == 0x7d || source[at] == 0x5d {
            if depth > 1 {
                lemma_pieces_go_on(source, open + 1, at);
                assert(token_ends(source, open + 1, at + 1));
                assert(between_values(source, at + 1, at + 1));
                lemma_region_ends_its_last_value(
                    source,
                    open,
                    at + 1,
                    (depth - 1) as nat,
                    if depth == 2 { at + 1 } else { value_end },
                );
            }
        } else if source[at] == 0x2c || source[at] == 0x3a || white(source[at]) {
            lemma_pieces_go_on(source, open + 1, at);
            if depth == 1 {
                lemma_between_goes_on(source, from, at);
            }
            lemma_region_ends_its_last_value(source, open, at + 1, depth, value_end);
        } else {
            let end = word_end(source, at);
            crate::jsonc::encode::lemma_word_end(source, at);
            lemma_word_is_pieces(source, open + 1, at);
            if end > at {
                assert(between_values(source, end, end));
                lemma_region_ends_its_last_value(source, open, end, depth, if depth == 1 { end } else { value_end });
            }
        }
    }
}

/// The last value of a commented container ends with a token, and behind it, up to the closing delimiter, stand only
/// whitespace, comments, commas and colons; in a container without one, that is all that stands between its delimiters.
pub proof fn lemma_the_last_value_is_the_last_token(source: Seq<u8>, open: int)
    requires
        jsonc_region(source, open) is Some,
    ensures
        ({
            let region = jsonc_region(source, open)->0;
            &&& region.value_end == open ==> between_values(source, open + 1, region.close - 1)
            &&& region.value_end != open ==> token_ends(source, open + 1, region.value_end) && between_values(
                source,
                region.value_end,
                region.close - 1,
            )
            &&& source[open] == 0x7b ==> source[region.close - 1] == 0x7d
            &&& source[open] == 0x5b ==> source[region.close - 1] == 0x5d
        }),
{
    assert(pieces_lead(source, open + 1, open + 1));
    assert(between_values(source, open + 1, open + 1));
    assert(region_from(source, open, 0, open) == region_from(source, open + 1, 1, open));
    lemma_region_ends_its_last_value(source, open, open + 1, 1, open);
}

} // verus!
