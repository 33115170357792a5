//! Where a token reaches and where a member starts, read off the bytes around them.

use vstd::prelude::*;

use crate::edit::{key_start_is, region_end, token_extent, Span};
use crate::edit_style_laws::white;
use crate::edit_support::{back_over_ws, backslashes_before, key_end, structural_quote};
use crate::jsonc::comment_laws::in_string;
use crate::jsonc::comments::{commented_start_is, ident_byte, ident_start, identifier_start_is};

verus! {

/// A string's token takes in the pair of equal quotes around its recorded content; a container's reaches from its recorded
/// opening delimiter to the one that closes it; every other token is what was recorded. A lone opening delimiter between
/// two quotes is the content of a string.
pub proof fn lemma_tokens_reach_to_their_delimiters(source: Seq<u8>, span: Span)
    requires
        span.start <= span.end,
    ensures
        ({
            let (start, end) = (span.start as int, span.end as int);
            let quoted = 0 < start <= source.len() && (source[start - 1] == 0x22 || source[start - 1] == 0x27);
            let opens = end == start + 1 && start < source.len() && (source[start] == 0x7b || source[start] == 0x5b);
            &&& quoted && end < source.len() && source[end] == source[start - 1] ==> token_extent(source, span) == Some(
                (start - 1, end + 1),
            )
            &&& !quoted && opens ==> match region_end(source, start) {
                Some(close) => token_extent(source, span) == Some((start, close)),
                None => token_extent(source, span) is None,
            }
            &&& !quoted && !opens || quoted && !(end < source.len() && source[end] == source[start - 1])
                ==> token_extent(source, span) == Some((start, end))
        }),
{
}

proof fn lemma_back_over(source: Seq<u8>, from: int, floor: int, to: int)
    requires
        0 <= floor <= to <= from <= source.len(),
        to == floor || !white(source[to - 1]),
        forall|i: int| to <= i < from ==> white(#[trigger] source[i]),
    ensures
        back_over_ws(source, from, floor) == to,
    decreases from - to,
{
    if from > to {
        assert(white(source[from - 1]));
        lemma_back_over(source, from - 1, floor, to);
    }
}

/// The quotes inside a string do not close it, read from either end.
proof fn lemma_quotes_inside_are_escaped(source: Seq<u8>, from: int, to: int, quote: u8)
    requires
        0 <= from <= to <= source.len(),
        quote != 0x5c,
        in_string(source, from, to, quote),
        backslashes_before(source, from) % 2 == 0,
    ensures
        forall|i: int| from <= i < to ==> !#[trigger] structural_quote(source, i, quote),
        backslashes_before(source, to) % 2 == 0,
    decreases to - from,
{
    if from < to {
        if source[from] == 0x5c {
            assert(backslashes_before(source, from + 1) == 1 + backslashes_before(source, from));
            if source[from + 1] == 0x5c {
                assert(backslashes_before(source, from + 2) == 1 + backslashes_before(source, from + 1));
            } else {
                assert(backslashes_before(source, from + 2) == 0);
            }
            lemma_quotes_inside_are_escaped(source, from + 2, to, quote);
            assert forall|i: int| from <= i < to implies !#[trigger] structural_quote(source, i, quote) by {
                assert(i == from || i == from + 1 || i >= from + 2);
            }
        } else {
            assert(backslashes_before(source, from + 1) == 0);
            lemma_quotes_inside_are_escaped(source, from + 1, to, quote);
            assert forall|i: int| from <= i < to implies !#[trigger] structural_quote(source, i, quote) by {
                assert(i == from || i >= from + 1);
            }
        }
    }
}

/// A member with a quoted key starts at that key's opening quote, of either spelling, and nowhere else: whatever quotes its
/// key holds behind a backslash, and whatever whitespace stands round its colon.
pub proof fn lemma_member_starts_at_its_quoted_key(
    source: Seq<u8>,
    open: int,
    key: int,
    close: int,
    colon: int,
    token: int,
    start: int,
)
    requires
        0 <= open < key < close < colon < token <= source.len(),
        source[key] == 0x22 || source[key] == 0x27,
        source[close] == source[key],
        source[key - 1] != 0x5c,
        in_string(source, key + 1, close, source[key]),
        forall|i: int| close < i < colon ==> white(#[trigger] source[i]),
        source[colon] == 0x3a,
        forall|i: int| colon < i < token ==> white(#[trigger] source[i]),
    ensures
        key_start_is(source, open, token, start) <==> start == key,
        commented_start_is(source, token, start) <==> start == key,
{
    let quote = source[key];
    lemma_back_over(source, token, open, colon + 1);
    lemma_back_over(source, colon, open, close + 1);
    lemma_back_over(source, token, 0, colon + 1);
    lemma_back_over(source, colon, 0, close + 1);
    assert(key_end(source, token, open) == Some(close + 1));
    assert(key_end(source, token, 0) == Some(close + 1));
    assert(backslashes_before(source, key) == 0);
    assert(structural_quote(source, key, quote));
    assert(backslashes_before(source, key + 1) == 0);
    lemma_quotes_inside_are_escaped(source, key + 1, close, quote);
    assert(key_start_is(source, open, token, key));
    assert(key_start_is(source, 0, token, key));
    if key_start_is(source, open, token, start) && start != key {
        assert(structural_quote(source, start, quote));
        assert(!(start < key));
    }
    if key_start_is(source, 0, token, start) && start != key {
        assert(structural_quote(source, start, quote));
        assert(!(start < key));
    }
}

proof fn lemma_identifier_runs_back_to(source: Seq<u8>, end: int, start: int)
    requires
        0 <= start <= end <= source.len(),
        start == 0 || !ident_byte(source[start - 1]),
        forall|i: int| start <= i < end ==> ident_byte(#[trigger] source[i]),
    ensures
        ident_start(source, end) == start,
    decreases end - start,
{
    if start < end {
        assert(ident_byte(source[end - 1]));
        lemma_identifier_runs_back_to(source, end - 1, start);
    }
}

/// A byte of a bare key: an ASCII letter or digit, an underscore or a dollar sign.
pub open spec fn bare_key_byte(byte: u8) -> bool {
    0x30 <= byte <= 0x39 || 0x41 <= byte <= 0x5a || 0x61 <= byte <= 0x7a || byte == 0x5f || byte == 0x24
}

/// A member with a bare key starts at that key's first byte, and nowhere else.
pub proof fn lemma_member_starts_at_its_bare_key(
    source: Seq<u8>,
    key: int,
    end: int,
    colon: int,
    token: int,
    start: int,
)
    requires
        0 <= key < end <= colon < token <= source.len(),
        key == 0 || !bare_key_byte(source[key - 1]),
        forall|i: int| key <= i < end ==> bare_key_byte(#[trigger] source[i]),
        forall|i: int| end <= i < colon ==> white(#[trigger] source[i]),
        source[colon] == 0x3a,
        forall|i: int| colon < i < token ==> white(#[trigger] source[i]),
    ensures
        identifier_start_is(source, token, start) <==> start == key,
        commented_start_is(source, token, start) <==> start == key,
{
    assert(bare_key_byte(source[end - 1]));
    assert forall|i: int| key <= i < end implies ident_byte(#[trigger] source[i]) by {
        assert(bare_key_byte(source[i]));
    }
    lemma_back_over(source, token, 0, colon + 1);
    lemma_back_over(source, colon, 0, end);
    assert(key_end(source, token, 0) == Some(end));
    lemma_identifier_runs_back_to(source, end, key);
    assert(identifier_start_is(source, token, key));
    assert forall|at: int| !#[trigger] key_start_is(source, 0, token, at) by {}
}

/// A value with no colon before it, but for whitespace, starts its own member.
pub proof fn lemma_member_without_a_key_starts_at_its_value(source: Seq<u8>, before: int, token: int, start: int)
    requires
        0 <= before <= token <= source.len(),
        before == 0 || (!white(source[before - 1]) && source[before - 1] != 0x3a),
        forall|i: int| before <= i < token ==> white(#[trigger] source[i]),
    ensures
        commented_start_is(source, token, start) <==> start == token,
{
    lemma_back_over(source, token, 0, before);
    assert(key_end(source, token, 0) is None);
    assert forall|at: int| !#[trigger] key_start_is(source, 0, token, at) by {}
    assert forall|at: int| !#[trigger] identifier_start_is(source, token, at) by {}
}

} // verus!
