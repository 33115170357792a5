//! Source-preserving edit splices for strict JSON: byte arithmetic over the authored text, so everything an edit does not
//! touch keeps its bytes.
//!
//! - A grown container splices its new members after its last one, in the container's own observed separator style; an
//!   empty container grows right after its opening delimiter.
//! - A shrunk container cuts a member with exactly one adjacent comma — the preceding one, or the following one for the
//!   first member — and the whitespace the member owned; a lone member's cut also takes the wrap before the closing
//!   delimiter.
//! - A region the scan cannot name declines: an empty insertion or cut set, and the caller re-encodes the document whole.

use vstd::prelude::*;

use crate::ascii::{
    APOSTROPHE, BACKSLASH, CLOSE_BRACE, CLOSE_BRACKET, COLON, COMMA, CR, LF, OPEN_BRACE, OPEN_BRACKET, QUOTE, SPACE,
    TAB,
};

use crate::byte_scan::{json_ws, run_end, scan_to, StopSet};
use crate::edit_support::{
    back_over_ws, back_to_line, key_end, last_quote, lemma_back_over_ws, lemma_back_to_line, opening_quote_left,
    rewind_to_key, walk_back_over_ws, walk_back_to_line,
};
use crate::encode::{FactPreservation, JsonEncoder};
use crate::encode_text::{push_all, push_escaped_text, push_range, quoted};
use crate::error::CodecFailureKind;
use crate::options::JsonEncodeOptions;
use crate::render::{compact_style, render_item, render_value, root_lead, EncodeConfig, RenderStyle, Rendering};
use crate::value::{bytes_of, utf8, Item, Member};

verus! {

/// A range of source bytes.
#[derive(Clone, Copy, Debug, PartialEq, Eq, Structural)]
pub struct Span {
    /// Offset of the first byte.
    pub start: usize,
    /// Offset just past the last byte.
    pub end: usize,
}

/// Bytes to insert at a source offset.
#[derive(Debug)]
pub struct EditInsertion {
    /// The offset.
    pub at: usize,
    /// The bytes.
    pub bytes: Vec<u8>,
}

/// A source range to cut, and what replaces it.
#[derive(Debug)]
pub struct EditRemoval {
    /// Offset of the first byte cut.
    pub start: usize,
    /// Offset just past the last byte cut.
    pub end: usize,
    /// The bytes that replace the range.
    pub replacement: Vec<u8>,
}

/// An opening delimiter.
pub open spec fn opener(byte: u8) -> bool {
    byte == OPEN_BRACE || byte == OPEN_BRACKET
}

/// A closing delimiter.
pub open spec fn closer(byte: u8) -> bool {
    byte == CLOSE_BRACE || byte == CLOSE_BRACKET
}

/// The closing delimiter of an opening one.
pub open spec fn closer_of(byte: u8) -> u8 {
    if byte == OPEN_BRACE {
        CLOSE_BRACE
    } else {
        CLOSE_BRACKET
    }
}

/// Just past the quote that closes the string body at `at`, when it is closed: a backslash takes the next byte with it.
pub open spec fn string_close(source: Seq<u8>, at: int, quote: u8) -> Option<int>
    decreases source.len() - at,
{
    if at < 0 || at >= source.len() {
        None
    } else if source[at] == BACKSLASH {
        if at + 2 <= source.len() {
            string_close(source, at + 2, quote)
        } else {
            None
        }
    } else if source[at] == quote {
        Some(at + 1)
    } else {
        string_close(source, at + 1, quote)
    }
}

/// Just past the delimiter that closes the outermost of `depth` open containers, scanning from `at` with string bodies
/// skipped.
pub open spec fn close_from(source: Seq<u8>, at: int, depth: nat) -> Option<int>
    decreases source.len() - at,
{
    if at < 0 || at >= source.len() {
        None
    } else if source[at] == QUOTE {
        match string_close(source, at + 1, QUOTE) {
            Some(end) => if at < end <= source.len() {
                close_from(source, end, depth)
            } else {
                None
            },
            None => None,
        }
    } else if opener(source[at]) {
        close_from(source, at + 1, depth + 1)
    } else if closer(source[at]) {
        if depth == 0 {
            None
        } else if depth == 1 {
            Some(at + 1)
        } else {
            close_from(source, at + 1, (depth - 1) as nat)
        }
    } else {
        close_from(source, at + 1, depth)
    }
}

/// Just past the delimiter that closes the container opened at `open`, when the two match.
pub open spec fn region_end(source: Seq<u8>, open: int) -> Option<int> {
    if 0 <= open < source.len() && opener(source[open]) {
        match close_from(source, open, 0) {
            Some(end) => if source[end - 1] == closer_of(source[open]) {
                Some(end)
            } else {
                None
            },
            None => None,
        }
    } else {
        None
    }
}

pub proof fn lemma_string_close(source: Seq<u8>, at: int, quote: u8)
    requires
        0 <= at,
    ensures
        string_close(source, at, quote) matches Some(end) ==> at < end <= source.len() && source[end - 1] == quote,
    decreases source.len() - at,
{
    if at < source.len() {
        if source[at] == BACKSLASH {
            if at + 2 <= source.len() {
                lemma_string_close(source, at + 2, quote);
            }
        } else if source[at] != quote {
            lemma_string_close(source, at + 1, quote);
        }
    }
}

pub proof fn lemma_close_from(source: Seq<u8>, at: int, depth: nat)
    requires
        0 <= at,
    ensures
        close_from(source, at, depth) matches Some(end) ==> at < end <= source.len() && closer(source[end - 1]),
    decreases source.len() - at,
{
    if at < source.len() {
        if source[at] == QUOTE {
            lemma_string_close(source, at + 1, QUOTE);
            if let Some(end) = string_close(source, at + 1, QUOTE) {
                lemma_close_from(source, end, depth);
            }
        } else if opener(source[at]) {
            lemma_close_from(source, at + 1, depth + 1);
        } else if closer(source[at]) {
            if depth > 1 {
                lemma_close_from(source, at + 1, (depth - 1) as nat);
            }
        } else {
            lemma_close_from(source, at + 1, depth);
        }
    }
}

/// Just past the quote that closes the string body at `at`.
pub fn find_string_close(source: &[u8], at: usize, quote: u8) -> (end: Option<usize>)
    requires
        at <= source.len(),
        quote != BACKSLASH,
    ensures
        match end {
            Some(end) => string_close(source@, at as int, quote) == Some(end as int) && at < end <= source.len(),
            None => string_close(source@, at as int, quote) is None,
        },
{
    let mut i: usize = at;
    while i < source.len()
        invariant
            at <= i <= source.len(),
            quote != BACKSLASH,
            string_close(source@, at as int, quote) == string_close(source@, i as int, quote),
        decreases source.len() - i,
    {
        if source[i] == BACKSLASH {
            if source.len() - i < 2 {
                return None;
            }
            i += 2;
        } else if source[i] == quote {
            return Some(i + 1);
        } else {
            i += 1;
        }
    }
    None
}

/// Scans forward from a container's opening delimiter to the byte just past its matching close, skipping string bodies
/// (with escapes) and counting nesting. A run it cannot close returns `None`.
pub fn container_close(source: &[u8], open: usize) -> (end: Option<usize>)
    ensures
        match end {
            Some(end) => region_end(source@, open as int) == Some(end as int) && open + 1 < end <= source.len(),
            None => region_end(source@, open as int) is None,
        },
{
    if open >= source.len() {
        return None;
    }
    let close = match source[open] {
        OPEN_BRACE => CLOSE_BRACE,
        OPEN_BRACKET => CLOSE_BRACKET,
        _ => return None,
    };
    let mut depth: usize = 0;
    let mut i: usize = open;
    while i < source.len()
        invariant
            open <= i <= source.len(),
            depth <= i - open,
            i == open ==> depth == 0,
            i > open ==> depth > 0,
            opener(source@[open as int]),
            close == closer_of(source@[open as int]),
            close_from(source@, open as int, 0) == close_from(source@, i as int, depth as nat),
        decreases source.len() - i,
    {
        match source[i] {
            QUOTE => {
                match find_string_close(source, i + 1, QUOTE) {
                    Some(end) => i = end,
                    None => return None,
                }
            }
            OPEN_BRACE | OPEN_BRACKET => {
                depth += 1;
                i += 1;
            }
            CLOSE_BRACE | CLOSE_BRACKET => {
                if depth == 0 {
                    return None;
                }
                if depth == 1 {
                    let found = source[i] == close;
                    return if found {
                        Some(i + 1)
                    } else {
                        None
                    };
                }
                depth -= 1;
                i += 1;
            }
            _ => i += 1,
        }
    }
    None
}

/// One past a non-empty container's last member VALUE, and whether the container is EMPTY: scanning back from the closing
/// delimiter over whitespace, the first non-whitespace byte reached is the opener itself for an empty container
/// (`{}`/`{ }`) and the last value's final byte otherwise. `None` when no closing delimiter stands before `close`.
pub fn last_value_end(source: &[u8], open: usize, close: usize) -> (found: Option<(usize, bool)>)
    requires
        0 < close <= source.len() && closer(source@[close - 1]) ==> back_over_ws(source@, close - 1, open as int) > 0,
    ensures
        match found {
            Some((end, empty)) => {
                &&& 0 < close <= source.len() && closer(source@[close - 1])
                &&& end == back_over_ws(source@, close - 1, open as int)
                &&& 0 < end < close
                &&& empty == (closer_of(source@[end - 1]) == source@[close - 1] && opener(source@[end - 1]))
            },
            None => !(0 < close <= source.len() && closer(source@[close - 1])),
        },
{
    if close == 0 || close > source.len() {
        return None;
    }
    let opener_byte = match source[close - 1] {
        CLOSE_BRACE => OPEN_BRACE,
        CLOSE_BRACKET => OPEN_BRACKET,
        _ => return None,
    };
    let end = walk_back_over_ws(source, close - 1, open);
    Some((end, source[end - 1] == opener_byte))
}

/// A space or a tab.
pub open spec fn is_blank(byte: u8) -> bool {
    byte == SPACE || byte == TAB
}

/// End of the run of spaces and tabs from `from`.
pub open spec fn blank_end(source: Seq<u8>, from: int) -> int
    decreases source.len() - from,
{
    if 0 <= from < source.len() && is_blank(source[from]) {
        blank_end(source, from + 1)
    } else {
        from
    }
}

/// The indentation of the line that holds the last member's final byte, before `value_end`.
pub open spec fn member_indent(source: Seq<u8>, open: int, value_end: int) -> Seq<u8> {
    let line = back_to_line(
        source,
        if value_end > 0 {
            value_end - 1
        } else {
            0
        },
        open,
    );
    source.subrange(line, blank_end(source, line))
}

/// The indentation (leading spaces and tabs) of the line holding the container's LAST member — the column new members
/// are indented to. A one-line container's member sits right after the opening delimiter, so its indent is empty.
pub fn last_member_indent(source: &[u8], open: usize, value_end: usize) -> (indent: Vec<u8>)
    requires
        value_end <= source.len(),
    ensures
        indent@ == member_indent(source@, open as int, value_end as int),
{
    let from = if value_end > 0 {
        value_end - 1
    } else {
        0
    };
    let line = walk_back_to_line(source, from, open);
    let mut end: usize = line;
    while end < source.len() && (source[end] == SPACE || source[end] == TAB)
        invariant
            line <= end <= source.len(),
            blank_end(source@, line as int) == blank_end(source@, end as int),
        decreases source.len() - end,
    {
        end += 1;
    }
    let mut indent: Vec<u8> = Vec::new();
    push_range(&mut indent, source, line, end);
    assert(indent@ =~= source@.subrange(line as int, end as int));
    indent
}

/// A byte that breaks a line.
pub open spec fn is_line_break(byte: u8) -> bool {
    byte == LF || byte == CR
}

/// The bytes of `run` up to and including its final line break (`\r\n` counts as one), or none when it holds none.
pub open spec fn through_last_break(run: Seq<u8>) -> Seq<u8>
    decreases run.len(),
{
    if run.len() == 0 || is_line_break(run.last()) {
        run
    } else {
        through_last_break(run.drop_last())
    }
}

/// The run's bytes up to and including its final line break (`\r\n` counts as one), or an empty slice when the run holds
/// none.
pub fn through_final_line_break(run: &[u8]) -> (head: &[u8])
    ensures
        head@ == through_last_break(run@),
{
    let mut end: usize = run.len();
    assert(run@.take(end as int) =~= run@);
    while end > 0 && run[end - 1] != LF && run[end - 1] != CR
        invariant
            end <= run.len(),
            through_last_break(run@) == through_last_break(run@.take(end as int)),
        decreases end,
    {
        assert(run@.take(end as int).drop_last() =~= run@.take(end - 1));
        end -= 1;
    }
    let head = vstd::slice::slice_subrange(run, 0, end);
    assert(head@ =~= run@.take(end as int));
    head
}

/// A member's separator in the container's observed style.
pub open spec fn separator_text(
    source: Seq<u8>,
    open: int,
    value_end: int,
    close: int,
    empty: bool,
    wrapped: bool,
) -> Seq<u8> {
    if empty {
        seq![]
    } else if wrapped {
        seq![COMMA] + through_last_break(source.subrange(value_end, close - 1)) + member_indent(source, open, value_end)
    } else {
        seq![COMMA]
    }
}

/// One added member's separator, in the container's observed style: the comma and, when the container wraps, the
/// whitespace run between the last member's value and the closing delimiter through its final line break, plus the last
/// member's indentation. The bytes after that break are the CLOSER's column, whitespace of the parent level, and are
/// replaced by the member indent.
pub fn member_separator(source: &[u8], open: usize, value_end: usize, close: usize, empty: bool, wrapped: bool) -> (
bytes: Vec<u8>)
    requires
        !empty && wrapped ==> value_end < close <= source.len(),
    ensures
        bytes@ == separator_text(source@, open as int, value_end as int, close as int, empty, wrapped),
{
    let mut bytes: Vec<u8> = Vec::new();
    if empty {
        assert(bytes@ =~= seq![]);
        return bytes;
    }
    bytes.push(COMMA);
    if wrapped {
        let run = vstd::slice::slice_subrange(source, value_end, close - 1);
        push_all(&mut bytes, through_final_line_break(run));
        push_all(&mut bytes, last_member_indent(source, open, value_end).as_slice());
    }
    assert(bytes@ =~= separator_text(source@, open as int, value_end as int, close as int, empty, wrapped));
    bytes
}

/// A string quote, of either spelling.
pub open spec fn quote_at(source: Seq<u8>, at: int) -> bool {
    0 <= at < source.len() && (source[at] == QUOTE || source[at] == APOSTROPHE)
}

/// The extent of a value's whole token, read off its recorded span and the bytes around it.
pub open spec fn token_extent(source: Seq<u8>, span: Span) -> Option<(int, int)> {
    let (start, end) = (span.start as int, span.end as int);
    if end - start == 1 && start < source.len() && opener(source[start]) && !quote_at(source, start - 1) {
        match region_end(source, start) {
            Some(close) => Some((start, close)),
            None => None,
        }
    } else if quote_at(source, start - 1) && end < source.len() && source[end] == source[start - 1] {
        Some((start - 1, end + 1))
    } else {
        Some((start, end))
    }
}

/// The extent of one value's token: its first byte (the opening quote for a string, the opening delimiter for a
/// container) and one past its last byte.
///
/// A built container's recorded span names only the opening delimiter, so its extent comes from the scan; a string's
/// names its INNER content, so the token extends across the quote pair. The span alone cannot say which, so this infers
/// it from the NEIGHBORING bytes: an opening delimiter not preceded by a quote is the container form, and a pair of equal
/// quotes hugging the span marks inner content. EITHER quote spelling is string evidence.
pub fn value_extent(source: &[u8], span: Span) -> (extent: Option<(usize, usize)>)
    requires
        span.start <= span.end,
    ensures
        match extent {
            Some((start, end)) => token_extent(source@, span) == Some((start as int, end as int)),
            None => token_extent(source@, span) is None,
        },
{
    let start = span.start;
    let end = span.end;
    let quoted = start > 0 && start - 1 < source.len() && (source[start - 1] == QUOTE || source[start - 1] == APOSTROPHE);
    if end - start == 1 && start < source.len() && (source[start] == OPEN_BRACE || source[start] == OPEN_BRACKET) && !quoted {
        return match container_close(source, start) {
            Some(close) => Some((start, close)),
            None => None,
        };
    }
    if quoted && end < source.len() && source[end] == source[start - 1] {
        return Some((start - 1, end + 1));
    }
    Some((start, end))
}

/// Where the key of the object member whose value starts at `token_start` begins.
pub open spec fn key_start_is(source: Seq<u8>, open: int, token_start: int, start: int) -> bool {
    match key_end(source, token_start, open) {
        Some(end) => {
            &&& end > open
            &&& source[end - 1] == QUOTE || source[end - 1] == APOSTROPHE
            &&& last_quote(source, start, source[end - 1], open + 1, end - 1)
        },
        None => false,
    }
}

/// The start of an object member's KEY, walking back from the value token over its whitespace, the `:`, and the quoted
/// key string, never to or below the container's opening delimiter. Either quote spelling closes a key. `None` for a
/// token the source does not back up to a quoted key.
pub fn member_key_start(source: &[u8], open: usize, token_start: usize) -> (start: Option<usize>)
    requires
        open <= token_start <= source.len(),
    ensures
        match start {
            Some(start) => key_start_is(source@, open as int, token_start as int, start as int) && open < start
                < token_start,
            None => forall|start: int| !#[trigger] key_start_is(source@, open as int, token_start as int, start),
        },
{
    let close = match rewind_to_key(source, token_start, open) {
        Some(close) => close,
        None => return None,
    };
    if close == open {
        return None;
    }
    let quote = source[close - 1];
    if quote != QUOTE && quote != APOSTROPHE {
        return None;
    }
    let start = opening_quote_left(source, close, quote, open + 1);
    proof {
        if start is None {
            assert forall|at: int| !#[trigger] key_start_is(source@, open as int, token_start as int, at) by {
                if key_start_is(source@, open as int, token_start as int, at) {
                    assert(crate::edit_support::structural_quote(source@, at, quote));
                }
            }
        }
    }
    start
}

/// Where the member whose value token starts at `token_start` begins: at its key for an object's, and at the token itself
/// for an array's.
pub open spec fn member_start_is(source: Seq<u8>, open: int, token_start: int, keyed: bool, start: int) -> bool {
    if keyed {
        key_start_is(source, open, token_start, start)
    } else {
        start == token_start
    }
}

/// A member begins in one place only.
pub proof fn lemma_member_start_is_unique(
    source: Seq<u8>,
    open: int,
    token_start: int,
    keyed: bool,
    left: int,
    right: int,
)
    requires
        member_start_is(source, open, token_start, keyed, left),
        member_start_is(source, open, token_start, keyed, right),
    ensures
        left == right,
{
    if keyed {
        let quote = source[key_end(source, token_start, open)->0 - 1];
        assert(crate::edit_support::structural_quote(source, left, quote));
        assert(crate::edit_support::structural_quote(source, right, quote));
    }
}

/// Where the cut of a container's FIRST member starts: at the line break before it, or right after the opening
/// delimiter.
pub open spec fn first_cut_start(source: Seq<u8>, open: int, line: int) -> int {
    if line > open && source[line - 1] == LF {
        line - 1
    } else {
        open + 1
    }
}

/// Where the cut of a container's FIRST member ends: past the comma that follows it, past the wrap too when the closing
/// delimiter comes next, and at the value's end when neither follows.
pub open spec fn first_cut_end(source: Seq<u8>, value_end: int) -> int {
    let after = run_end(source, value_end, StopSet::Ws);
    if 0 <= after < source.len() && source[after] == COMMA {
        let next = run_end(source, after + 1, StopSet::Ws);
        if next < source.len() && closer(source[next]) {
            next
        } else {
            after + 1
        }
    } else if 0 <= after < source.len() && closer(source[after]) {
        after
    } else {
        value_end
    }
}

/// The range cut with the member that starts at `member_start` and whose value ends at `value_end`: from the preceding
/// comma where there is one, and the first member's own cut where there is none.
pub open spec fn cut_range(source: Seq<u8>, open: int, member_start: int, value_end: int) -> (int, int) {
    let before = back_over_ws(source, member_start, open);
    if before > open && source[before - 1] == COMMA {
        (before - 1, value_end)
    } else {
        (
            first_cut_start(source, open, back_to_line(source, member_start, open)),
            first_cut_end(source, value_end),
        )
    }
}

/// Where the cut of a container's FIRST member ends.
pub fn first_member_cut_end(source: &[u8], value_end: usize) -> (end: usize)
    requires
        value_end <= source.len(),
    ensures
        end == first_cut_end(source@, value_end as int),
        value_end <= end <= source.len(),
{
    let after = scan_to(StopSet::Ws, source, value_end);
    if after < source.len() && source[after] == COMMA {
        // No preceding comma exists here, so a closer right after the member's own comma and whitespace means the member
        // is the container's ONLY one: the wrap before the closer leaves with it.
        let next = scan_to(StopSet::Ws, source, after + 1);
        if next < source.len() && (source[next] == CLOSE_BRACE || source[next] == CLOSE_BRACKET) {
            next
        } else {
            after + 1
        }
    } else if after < source.len() && (source[after] == CLOSE_BRACE || source[after] == CLOSE_BRACKET) {
        after
    } else {
        value_end
    }
}

/// One removed member's cut: the member plus exactly one adjacent comma — the preceding one, or the following one for the
/// first member — plus the whitespace run the member owned (its line break and indentation). `preceded_by_key` selects
/// the object walk (backtrack to the key) over the array walk (the value IS the member). `None` for an object member
/// whose key cannot be found.
///
/// The cut begins AT a line feed, so the carriage return of a CRLF break survives ahead of the splice: bytes the author
/// wrote are deleted or kept, never normalized.
pub fn member_cut(source: &[u8], open: usize, token_start: usize, value_end: usize, preceded_by_key: bool) -> (cut:
    Option<EditRemoval>)
    requires
        open < token_start <= value_end <= source.len(),
    ensures
        match cut {
            Some(cut) => {
                &&& cut.replacement@.len() == 0
                &&& exists|start: int|
                    #[trigger] member_start_is(source@, open as int, token_start as int, preceded_by_key, start) && (
                        cut.start as int,
                        cut.end as int,
                    ) == cut_range(source@, open as int, start, value_end as int)
            },
            None => forall|start: int|
                !#[trigger] member_start_is(source@, open as int, token_start as int, preceded_by_key, start),
        },
{
    let member_start = if preceded_by_key {
        match member_key_start(source, open, token_start) {
            Some(start) => start,
            None => return None,
        }
    } else {
        token_start
    };
    assert(member_start_is(source@, open as int, token_start as int, preceded_by_key, member_start as int));
    let before = walk_back_over_ws(source, member_start, open);
    if before > open && source[before - 1] == COMMA {
        return Some(EditRemoval { start: before - 1, end: value_end, replacement: Vec::new() });
    }
    let line = walk_back_to_line(source, member_start, open);
    let start = if line > open && source[line - 1] == LF {
        line - 1
    } else {
        open + 1
    };
    Some(EditRemoval { start, end: first_member_cut_end(source, value_end), replacement: Vec::new() })
}

/// A cut stays inside its container and takes the whole member: it starts past the opening delimiter and no later than
/// the member, and ends no earlier than the member's value.
pub proof fn lemma_cut_stays_inside(source: Seq<u8>, open: int, member_start: int, value_end: int)
    requires
        0 <= open < member_start <= value_end <= source.len(),
        opener(source[open]),
    ensures
        ({
            let (start, end) = cut_range(source, open, member_start, value_end);
            &&& open < start <= member_start
            &&& value_end <= end <= source.len()
        }),
{
    lemma_back_over_ws(source, member_start, open);
    lemma_back_to_line(source, member_start, open);
    crate::byte_scan::lemma_run_end(source, value_end, StopSet::Ws);
    let after = run_end(source, value_end, StopSet::Ws);
    if after < source.len() {
        crate::byte_scan::lemma_run_end(source, after + 1, StopSet::Ws);
    }
}

/// A cut takes no byte but the member's, one comma's, and whitespace. The member follows a comma or the container's
/// opening delimiter, as every member does: the cut then starts at that comma or in the whitespace before the member, and
/// what it takes after the value is whitespace and, only where no comma came before, the one comma that follows.
pub proof fn lemma_cut_takes_one_comma_and_whitespace(
    source: Seq<u8>,
    open: int,
    member_start: int,
    value_end: int,
    at: int,
)
    requires
        0 <= open < member_start <= value_end <= source.len(),
        opener(source[open]),
        ({
            let before = back_over_ws(source, member_start, open);
            before == open + 1 || source[before - 1] == COMMA
        }),
        ({
            let (start, end) = cut_range(source, open, member_start, value_end);
            start <= at < member_start || value_end <= at < end
        }),
    ensures
        ({
            let before = back_over_ws(source, member_start, open);
            let after = run_end(source, value_end, StopSet::Ws);
            if before > open + 1 {
                at < value_end && (json_ws(source[at]) || (source[at] == COMMA && at == before - 1))
            } else {
                json_ws(source[at]) || (source[at] == COMMA && at == after)
            }
        }),
{
    lemma_back_over_ws(source, member_start, open);
    lemma_back_to_line(source, member_start, open);
    crate::byte_scan::lemma_run_end(source, value_end, StopSet::Ws);
    let after = run_end(source, value_end, StopSet::Ws);
    if after < source.len() {
        crate::byte_scan::lemma_run_end(source, after + 1, StopSet::Ws);
        let next = run_end(source, after + 1, StopSet::Ws);
        if after < at < next {
            assert(!StopSet::Ws.stops(source[at]));
        }
    }
    if value_end <= at < after {
        assert(!StopSet::Ws.stops(source[at]));
    }
    if at < member_start && back_over_ws(source, member_start, open) <= at {
        assert(json_ws(source[at]));
    }
}

/// Renders one value in JSON's VALUE-position grammar — the bytes a splice inserts after a `:` or `,` — as a compact
/// canonical item. A leaf patch and a structural member share this render, so they can never disagree about a value's
/// bytes.
pub fn render_value_bytes(item: &Item, max_nesting_depth: usize) -> (bytes: Result<Vec<u8>, CodecFailureKind>)
    ensures
        ({
            let whole = render_value(item.value, 0, compact_style(max_nesting_depth));
            match bytes {
                Ok(bytes) => whole.refused is None && bytes@ == whole.bytes,
                Err(kind) => whole.refused == Some(kind),
            }
        }),
{
    let config = EncodeConfig {
        render: RenderStyle {
            options: JsonEncodeOptions::default(),
            comments: false,
            trailing_commas: false,
            max_nesting_depth,
        },
        prefix: Vec::new(),
        framing: Vec::new(),
    };
    let ghost settings = config;
    let mut encoder = JsonEncoder::new(config, FactPreservation::Exact);
    let mut bytes: Vec<u8> = Vec::new();
    proof {
        let whole = render_value(item.value, 0, settings.render);
        assert(settings.render == compact_style(max_nesting_depth));
        assert(settings.render.lead(item.comments@, 0) =~= seq![]);
        assert(settings.prefix@ =~= seq![]);
        assert(root_lead(*item, settings) =~= Rendering::of(seq![]));
        assert(settings.framing@ =~= seq![]);
        assert(render_item(*item, settings) =~= whole);
    }
    match encoder.encode(item, &[], &mut bytes) {
        Ok(_) => {
            assert(bytes@ =~= render_item(*item, settings).bytes);
            Ok(bytes)
        }
        Err(kind) => Err(kind),
    }
}

/// The members an edit adds to a container.
#[derive(Clone, Copy)]
pub enum EditAppendMembers<'a> {
    /// Object members.
    Table(&'a Vec<Member>),
    /// Array items.
    Array(&'a Vec<Item>),
}

impl<'a> EditAppendMembers<'a> {
    /// How many there are.
    pub open spec fn count(self) -> nat {
        match self {
            EditAppendMembers::Table(members) => members@.len(),
            EditAppendMembers::Array(items) => items@.len(),
        }
    }

    /// What one of them is written as: an object member as a double-quoted key, the key separator (`: ` when the
    /// container wraps, `:` when it is one-line), and the value's compact bytes; an array item as the value alone.
    pub open spec fn piece(self, index: int, wrapped: bool, max_nesting_depth: usize) -> Rendering {
        match self {
            EditAppendMembers::Table(members) => member_rendering(members@[index], wrapped, max_nesting_depth),
            EditAppendMembers::Array(items) => render_value(items@[index].value, 0, compact_style(max_nesting_depth)),
        }
    }

    /// What the first `upto` of them are written as: each with the separator before it. An empty container has no observed
    /// separator: nothing stands before its first member, and a comma before each later one.
    pub open spec fn text(
        self,
        upto: int,
        separator: Seq<u8>,
        empty: bool,
        wrapped: bool,
        max_nesting_depth: usize,
    ) -> Rendering
        decreases upto,
    {
        if upto <= 0 {
            Rendering::of(seq![])
        } else {
            let lead = joint(upto - 1, separator, empty);
            self.text(upto - 1, separator, empty, wrapped, max_nesting_depth).then_write(
                Rendering::of(lead),
            ).then_write(self.piece(upto - 1, wrapped, max_nesting_depth))
        }
    }
}

/// What stands before added member `index`.
pub open spec fn joint(index: int, separator: Seq<u8>, empty: bool) -> Seq<u8> {
    if !empty {
        separator
    } else if index > 0 {
        seq![COMMA]
    } else {
        seq![]
    }
}

/// An added object member.
pub open spec fn member_rendering(member: Member, wrapped: bool, max_nesting_depth: usize) -> Rendering {
    let separator: Seq<u8> = if wrapped {
        seq![COLON, SPACE]
    } else {
        seq![COLON]
    };
    Rendering::of(quoted(utf8(member.key), false) + separator).then_write(
        render_value(member.item.value, 0, compact_style(max_nesting_depth)),
    )
}

/// Renders one added OBJECT member: a double-quoted (escaped) key, the canonical key-value separator (`: ` when the
/// container wraps, `:` when it is one-line), and the value's compact canonical bytes.
pub fn member_text(member: &Member, wrapped: bool, max_nesting_depth: usize) -> (bytes: Result<
    Vec<u8>,
    CodecFailureKind,
>)
    ensures
        ({
            let whole = member_rendering(*member, wrapped, max_nesting_depth);
            match bytes {
                Ok(bytes) => whole.refused is None && bytes@ == whole.bytes,
                Err(kind) => whole.refused == Some(kind),
            }
        }),
{
    let mut bytes: Vec<u8> = Vec::new();
    bytes.push(QUOTE);
    push_escaped_text(&mut bytes, bytes_of(&member.key), false);
    bytes.push(QUOTE);
    bytes.push(COLON);
    if wrapped {
        bytes.push(SPACE);
    }
    match render_value_bytes(&member.item, max_nesting_depth) {
        Ok(value) => {
            push_all(&mut bytes, value.as_slice());
            assert(bytes@ =~= member_rendering(*member, wrapped, max_nesting_depth).bytes);
            Ok(bytes)
        }
        Err(kind) => Err(kind),
    }
}

/// The text of the members an edit adds, each with its separator.
pub fn append_text(
    members: EditAppendMembers,
    separator: &Vec<u8>,
    empty: bool,
    wrapped: bool,
    max_nesting_depth: usize,
) -> (text: Result<Vec<u8>, CodecFailureKind>)
    ensures
        ({
            let whole = members.text(members.count() as int, separator@, empty, wrapped, max_nesting_depth);
            match text {
                Ok(text) => whole.refused is None && text@ == whole.bytes,
                Err(kind) => whole.refused == Some(kind),
            }
        }),
{
    let mut text: Vec<u8> = Vec::new();
    let count = match members {
        EditAppendMembers::Table(members) => members.len(),
        EditAppendMembers::Array(items) => items.len(),
    };
    let mut index: usize = 0;
    while index < count
        invariant
            index <= count,
            count == members.count(),
            members.text(index as int, separator@, empty, wrapped, max_nesting_depth).refused is None,
            text@ == members.text(index as int, separator@, empty, wrapped, max_nesting_depth).bytes,
        decreases count - index,
    {
        if !empty {
            push_all(&mut text, separator.as_slice());
        } else if index > 0 {
            text.push(COMMA);
        }
        let piece = match members {
            EditAppendMembers::Table(members) => member_text(&members[index], wrapped, max_nesting_depth),
            EditAppendMembers::Array(items) => render_value_bytes(&items[index], max_nesting_depth),
        };
        match piece {
            Ok(piece) => push_all(&mut text, piece.as_slice()),
            Err(kind) => {
                proof {
                    lemma_refusal_stays(
                        members,
                        index + 1,
                        count as int,
                        separator@,
                        empty,
                        wrapped,
                        max_nesting_depth,
                    );
                }
                return Err(kind);
            }
        }
        index += 1;
        assert(text@ =~= members.text(index as int, separator@, empty, wrapped, max_nesting_depth).bytes);
    }
    Ok(text)
}

proof fn lemma_refusal_stays(
    members: EditAppendMembers,
    upto: int,
    count: int,
    separator: Seq<u8>,
    empty: bool,
    wrapped: bool,
    max_nesting_depth: usize,
)
    requires
        0 <= upto <= count,
        members.text(upto, separator, empty, wrapped, max_nesting_depth).refused is Some,
    ensures
        members.text(count, separator, empty, wrapped, max_nesting_depth).refused == members.text(
            upto,
            separator,
            empty,
            wrapped,
            max_nesting_depth,
        ).refused,
    decreases count - upto,
{
    if upto < count {
        lemma_refusal_stays(members, upto, count - 1, separator, empty, wrapped, max_nesting_depth);
    }
}

/// Whether a run of source bytes breaks a line.
pub open spec fn breaks_line(source: Seq<u8>, from: int, to: int) -> bool {
    exists|i: int| from <= i < to && is_line_break(#[trigger] source[i])
}

/// Whether a run of source bytes breaks a line.
pub fn has_line_break(source: &[u8], from: usize, to: usize) -> (found: bool)
    requires
        from <= to <= source.len(),
    ensures
        found == breaks_line(source@, from as int, to as int),
{
    let mut i: usize = from;
    while i < to
        invariant
            from <= i <= to <= source.len(),
            forall|k: int| from <= k < i ==> !is_line_break(#[trigger] source@[k]),
        decreases to - i,
    {
        if source[i] == LF || source[i] == CR {
            assert(is_line_break(source@[i as int]));
            return true;
        }
        i += 1;
    }
    false
}

/// Where and how a container grows.
pub struct GrowthPlan {
    /// Where the new members are inserted.
    pub at: int,
    /// What stands before each, but for the first member of an empty container.
    pub separator: Seq<u8>,
    /// Whether the container holds no member.
    pub empty: bool,
    /// Whether the container's members stand on lines of their own.
    pub wrapped: bool,
}

/// Where and how the container opened at `open` grows, when its region can be named.
pub open spec fn growth_plan(source: Seq<u8>, open: int) -> Option<GrowthPlan> {
    match region_end(source, open) {
        Some(close) => {
            let value_end = back_over_ws(source, close - 1, open);
            let empty = opener(source[value_end - 1]) && closer_of(source[value_end - 1]) == source[close - 1];
            let wrapped = !empty && breaks_line(source, value_end, close - 1);
            Some(
                GrowthPlan {
                    at: if empty {
                        open + 1
                    } else {
                        value_end
                    },
                    separator: separator_text(source, open, value_end, close, empty, wrapped),
                    empty,
                    wrapped,
                },
            )
        },
        None => None,
    }
}

/// Renders the splice for a container the edit GREW: the new members land inside the closing delimiter — after the last
/// member, reusing the observed separator run — or directly after the opening delimiter for an empty container. Returns
/// an empty insertion set when the container has no span or its region cannot be named, and a member's refusal where one
/// cannot be rendered.
pub fn render_edit_append(
    container: Option<Span>,
    source: &[u8],
    members: EditAppendMembers,
    max_nesting_depth: usize,
) -> (insertions: Result<Vec<EditInsertion>, CodecFailureKind>)
    ensures
        ({
            let plan = match container {
                Some(span) => growth_plan(source@, span.start as int),
                None => None,
            };
            match plan {
                Some(plan) => {
                    let text = members.text(
                        members.count() as int,
                        plan.separator,
                        plan.empty,
                        plan.wrapped,
                        max_nesting_depth,
                    );
                    match insertions {
                        Ok(insertions) => {
                            &&& text.refused is None
                            &&& insertions@.len() == 1
                            &&& insertions@[0].at == plan.at
                            &&& insertions@[0].bytes@ == text.bytes
                        },
                        Err(kind) => text.refused == Some(kind),
                    }
                },
                None => insertions matches Ok(insertions) && insertions@.len() == 0,
            }
        }),
{
    let open = match container {
        Some(span) => span.start,
        None => return Ok(Vec::new()),
    };
    let close = match container_close(source, open) {
        Some(close) => close,
        None => return Ok(Vec::new()),
    };
    proof {
        lemma_close_from(source@, open as int, 0);
        lemma_back_over_ws(source@, close - 1, open as int);
    }
    let (value_end, empty) = match last_value_end(source, open, close) {
        Some(found) => found,
        None => return Ok(Vec::new()),
    };
    let wrapped = !empty && has_line_break(source, value_end, close - 1);
    let separator = member_separator(source, open, value_end, close, empty, wrapped);
    let text = match append_text(members, &separator, empty, wrapped, max_nesting_depth) {
        Ok(text) => text,
        Err(kind) => return Err(kind),
    };
    let at = if empty {
        open + 1
    } else {
        value_end
    };
    let mut insertions: Vec<EditInsertion> = Vec::new();
    insertions.push(EditInsertion { at, bytes: text });
    Ok(insertions)
}

/// New members land inside their container: past its opening delimiter, and no later than its closing one.
pub proof fn lemma_growth_stays_inside(source: Seq<u8>, open: int)
    requires
        growth_plan(source, open) is Some,
    ensures
        ({
            let plan = growth_plan(source, open)->0;
            let close = region_end(source, open)->0;
            &&& 0 <= open < plan.at < close <= source.len()
            &&& !plan.empty ==> forall|i: int| plan.at <= i < close - 1 ==> json_ws(#[trigger] source[i])
        }),
{
    lemma_close_from(source, open, 0);
    let close = region_end(source, open)->0;
    lemma_back_over_ws(source, close - 1, open);
    assert(close_from(source, open, 0) == close_from(source, open + 1, 1));
    lemma_close_from(source, open + 1, 1);
}

/// The values an edit removes from a container, by the spans their tokens were recorded at; `None` for a value the source
/// does not cover.
pub struct EditRemoveMembers {
    /// The spans.
    pub spans: Vec<Option<Span>>,
    /// Whether the members are an object's, and so have keys.
    pub keyed: bool,
}

impl EditRemoveMembers {
    /// Every span lies past the container's opening delimiter, as a member's does.
    pub open spec fn inside(self, open: int) -> bool {
        forall|i: int|
            0 <= i < self.spans@.len() && (#[trigger] self.spans@[i]) is Some ==> open < self.spans@[i]->0.start
                <= self.spans@[i]->0.end
    }
}

/// Whether `cut` removes the member whose token was recorded at `span`.
pub open spec fn cuts_member(source: Seq<u8>, open: int, span: Option<Span>, keyed: bool, cut: EditRemoval) -> bool {
    &&& span is Some && span->0.end <= source.len()
    &&& token_extent(source, span->0) matches Some((token_start, value_end))
    &&& cut.replacement@.len() == 0
    &&& exists|start: int|
        #[trigger] member_start_is(source, open, token_start, keyed, start) && (cut.start as int, cut.end as int)
            == cut_range(source, open, start, value_end)
}

/// Whether the member whose token was recorded at `span` can be cut at all: the source covers its token, and backs it up
/// to a key where it needs one.
pub open spec fn cuttable(source: Seq<u8>, open: int, span: Option<Span>, keyed: bool) -> bool {
    &&& span is Some && span->0.end <= source.len()
    &&& token_extent(source, span->0) matches Some((token_start, value_end))
    &&& exists|start: int| #[trigger] member_start_is(source, open, token_start, keyed, start)
}

/// A value's token lies past its container's opening delimiter and inside the source, as its span does.
pub proof fn lemma_token_stays_inside(source: Seq<u8>, open: int, span: Span)
    requires
        0 <= open < span.start <= span.end <= source.len(),
        opener(source[open]),
    ensures
        token_extent(source, span) matches Some((start, end)) ==> open < start <= end <= source.len(),
{
    if let Some(close) = region_end(source, span.start as int) {
        lemma_close_from(source, span.start as int, 0);
    }
}

/// Renders the cuts for a container the edit SHRANK: each removed member's value token is cut with one adjacent comma and
/// its owned whitespace. ANY member the source does not fully cover — no span, a span past the source's end, a token that
/// cannot be named or does not back up to its key — declines the whole removal.
pub fn render_edit_remove(container: Option<Span>, source: &[u8], members: &EditRemoveMembers) -> (removals: Vec<
    EditRemoval,
>)
    requires
        container matches Some(span) ==> members.inside(span.start as int),
    ensures
        ({
            let named = container is Some && container->0.start < source.len() && opener(
                source@[container->0.start as int],
            );
            let open = container->0.start as int;
            if named && forall|i: int|
                0 <= i < members.spans@.len() ==> cuttable(source@, open, #[trigger] members.spans@[i], members.keyed) {
                &&& removals@.len() == members.spans@.len()
                &&& forall|i: int|
                    0 <= i < removals@.len() ==> cuts_member(
                        source@,
                        open,
                        members.spans@[i],
                        members.keyed,
                        #[trigger] removals@[i],
                    )
            } else {
                removals@.len() == 0
            }
        }),
{
    let open = match container {
        Some(span) => span.start,
        None => return Vec::new(),
    };
    if open >= source.len() || (source[open] != OPEN_BRACE && source[open] != OPEN_BRACKET) {
        return Vec::new();
    }
    let mut removals: Vec<EditRemoval> = Vec::new();
    let mut i: usize = 0;
    while i < members.spans.len()
        invariant
            i <= members.spans.len(),
            container is Some && container->0.start == open,
            open < source.len(),
            opener(source@[open as int]),
            members.inside(open as int),
            removals@.len() == i,
            forall|k: int|
                0 <= k < i ==> cuttable(source@, open as int, #[trigger] members.spans@[k], members.keyed),
            forall|k: int|
                0 <= k < i ==> cuts_member(
                    source@,
                    open as int,
                    members.spans@[k],
                    members.keyed,
                    #[trigger] removals@[k],
                ),
        decreases members.spans.len() - i,
    {
        let ghost recorded = members.spans@[i as int];
        let span = match members.spans[i] {
            Some(span) => span,
            None => {
                assert(!cuttable(source@, open as int, recorded, members.keyed));
                return Vec::new();
            }
        };
        if span.end > source.len() {
            assert(!cuttable(source@, open as int, recorded, members.keyed));
            return Vec::new();
        }
        let (token_start, value_end) = match value_extent(source, span) {
            Some(extent) => extent,
            None => {
                assert(!cuttable(source@, open as int, recorded, members.keyed));
                return Vec::new();
            }
        };
        proof {
            lemma_token_stays_inside(source@, open as int, span);
        }
        match member_cut(source, open, token_start, value_end, members.keyed) {
            Some(cut) => {
                assert(cuts_member(source@, open as int, recorded, members.keyed, cut));
                removals.push(cut);
            }
            None => {
                assert(!cuttable(source@, open as int, recorded, members.keyed));
                return Vec::new();
            }
        }
        i += 1;
    }
    removals
}

} // verus!
