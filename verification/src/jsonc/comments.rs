//! Writing a member's leading comments into a source: `//` lines right before the member, in place of the comment block
//! that stands there.

use vstd::prelude::*;

use crate::ascii::{APOSTROPHE, DOLLAR, LF, LOWER_A, LOWER_Z, NINE, SLASH, SPACE, UNDERSCORE, UPPER_A, UPPER_Z, ZERO};

use crate::byte_scan::{find_line_end, is_json_ws, json_ws, line_end};
use crate::edit::{key_start_is, member_key_start, token_extent, value_extent, Span};
use crate::edit_support::{key_end, lemma_back_to_line, opening_quote_left, rewind_to_key};
use crate::encode::lemma_line_end_shifts;
use crate::encode_text::{push_all, push_range};
use crate::error::CodecFailureKind;
use crate::jsonc::encode::{line_back, line_start_backward};
use crate::jsonc::seam::{find_seam, lemma_seam_is_trivia, lemma_trivia_up_to_a_line, seam_before, trivia_between};
use crate::render::{comment_block, comment_line, comment_lines};
use crate::value::{bytes_of, utf8, Value};

verus! {

/// A source range to replace, and what replaces it.
#[derive(Debug)]
pub struct FactEditPatch {
    /// Offset of the first byte replaced.
    pub start: usize,
    /// Offset just past the last byte replaced.
    pub end: usize,
    /// The bytes that replace the range.
    pub replacement: Vec<u8>,
}

/// A byte that may stand in a JSON5 identifier key.
pub open spec fn ident_byte(byte: u8) -> bool {
    ||| LOWER_A <= byte <= LOWER_Z
    ||| UPPER_A <= byte <= UPPER_Z
    ||| ZERO <= byte <= NINE
    ||| byte == UNDERSCORE
    ||| byte == DOLLAR
}

/// A byte that may stand in a JSON5 identifier key: an ASCII letter or digit, `_`, or `$`.
pub fn is_ident_continue(byte: u8) -> (continues: bool)
    ensures
        continues == ident_byte(byte),
{
    matches!(byte, LOWER_A..=LOWER_Z | UPPER_A..=UPPER_Z | ZERO..=NINE | UNDERSCORE | DOLLAR)
}

/// Where the run of identifier bytes that ends at `end` starts.
pub open spec fn ident_start(source: Seq<u8>, end: int) -> int
    decreases end,
{
    if end > 0 && ident_byte(source[end - 1]) {
        ident_start(source, end - 1)
    } else {
        end
    }
}

/// Whether the JSON5 key right before the value at `value_start`, unquoted or single-quoted, starts at `start`.
pub open spec fn identifier_start_is(source: Seq<u8>, value_start: int, start: int) -> bool {
    match key_end(source, value_start, 0) {
        Some(end) => {
            &&& end > 0
            &&& if source[end - 1] == APOSTROPHE {
                crate::edit_support::last_quote(source, start, APOSTROPHE, 0, end - 1)
            } else {
                ident_byte(source[end - 1]) && start == ident_start(source, end)
            }
        },
        None => false,
    }
}

/// JSON5 unquoted or single-quoted key immediately before `value_start`.
pub fn identifier_key_start(source: &[u8], value_start: usize) -> (start: Option<usize>)
    requires
        value_start <= source.len(),
    ensures
        match start {
            Some(start) => identifier_start_is(source@, value_start as int, start as int) && start < value_start,
            None => forall|start: int| !#[trigger] identifier_start_is(source@, value_start as int, start),
        },
{
    let close = match rewind_to_key(source, value_start, 0) {
        Some(close) => close,
        None => return None,
    };
    if close == 0 {
        return None;
    }
    let last = source[close - 1];
    if last == APOSTROPHE {
        let start = opening_quote_left(source, close, APOSTROPHE, 0);
        proof {
            if start is None {
                assert forall|at: int| !#[trigger] identifier_start_is(source@, value_start as int, at) by {
                    if identifier_start_is(source@, value_start as int, at) {
                        assert(crate::edit_support::structural_quote(source@, at, APOSTROPHE));
                    }
                }
            }
        }
        return start;
    }
    if !is_ident_continue(last) {
        return None;
    }
    let mut start: usize = close - 1;
    while start > 0 && is_ident_continue(source[start - 1])
        invariant
            start < close <= source.len(),
            ident_start(source@, close as int) == ident_start(source@, start as int),
        decreases start,
    {
        start -= 1;
    }
    Some(start)
}

/// Whether the member whose value starts at `value_start` begins at `start`: at its quoted key, else at its JSON5 key,
/// else at the value itself.
pub open spec fn commented_start_is(source: Seq<u8>, value_start: int, start: int) -> bool {
    if exists|key: int| #[trigger] key_start_is(source, 0, value_start, key) {
        key_start_is(source, 0, value_start, start)
    } else if exists|key: int| #[trigger] identifier_start_is(source, value_start, key) {
        identifier_start_is(source, value_start, start)
    } else {
        start == value_start
    }
}

/// The member's start in source: the object key when a `:` precedes the value, otherwise the value itself (array item or
/// root).
pub fn commented_member_start(source: &[u8], value_start: usize) -> (start: usize)
    requires
        value_start <= source.len(),
    ensures
        commented_start_is(source@, value_start as int, start as int),
        start <= value_start,
{
    if let Some(key) = member_key_start(source, 0, value_start) {
        return key;
    }
    match identifier_key_start(source, value_start) {
        Some(key) => key,
        None => value_start,
    }
}

/// Whether only whitespace stands before `member_start` on its line.
pub open spec fn starts_line(source: Seq<u8>, member_start: int) -> bool {
    forall|i: int| line_back(source, member_start, 0) <= i < member_start ==> json_ws(#[trigger] source[i])
}

/// Where a member's comments are written: on the lines above it when it starts its line, and right before it otherwise.
pub open spec fn comments_place(source: Seq<u8>, member_start: int) -> int {
    if starts_line(source, member_start) {
        line_back(source, member_start, 0)
    } else {
        member_start
    }
}

/// The indentation of a member's comments: the member's own when it starts its line.
pub open spec fn comments_indent(source: Seq<u8>, member_start: int) -> Seq<u8> {
    source.subrange(comments_place(source, member_start), member_start)
}

/// Where the block of whole comment and blank lines directly above a member starts, at or before `place`: on those lines
/// nothing but comments and whitespace stands.
pub open spec fn block_start(source: Seq<u8>, member_start: int, place: int) -> int {
    match seam_before(source, 0, member_start) {
        Some(seam) => match seam.line {
            Some(line) => if line < place {
                line as int
            } else {
                place
            },
            None => place,
        },
        None => place,
    }
}

/// The existing `//` / `/*` block directly above the member, or the insertion point when none is there. The indent is the
/// member's own-line indent when the member starts a line; empty for a mid-line insert. A line that holds anything but
/// comments and whitespace is no part of the block.
pub fn slash_comment_block(source: &[u8], member_start: usize) -> (found: (usize, usize, &[u8]))
    requires
        member_start <= source.len(),
    ensures
        found.1 == comments_place(source@, member_start as int),
        found.0 == block_start(source@, member_start as int, found.1 as int),
        found.2@ == comments_indent(source@, member_start as int),
        found.0 <= found.1 <= member_start,
{
    let line = line_start_backward(source, member_start, 0);
    let mut at_line_start = true;
    let mut i: usize = line;
    while i < member_start
        invariant
            line <= i <= member_start <= source.len(),
            line == line_back(source@, member_start as int, 0),
            at_line_start <==> forall|k: int| line <= k < i ==> json_ws(#[trigger] source@[k]),
        decreases member_start - i,
    {
        if !is_json_ws(source[i]) {
            assert(!json_ws(source@[i as int]));
            at_line_start = false;
        }
        i += 1;
    }
    let insert_at = if at_line_start {
        line
    } else {
        member_start
    };
    let indent = vstd::slice::slice_subrange(source, insert_at, member_start);
    let mut block: usize = insert_at;
    if let Some(seam) = find_seam(source, 0, member_start) {
        if let Some(line) = seam.line {
            if line < insert_at {
                block = line;
            }
        }
    }
    (block, insert_at, indent)
}

/// What a comment write replaces is whole comments and whitespace: no byte of a member or a delimiter is lost.
pub proof fn lemma_comment_write_replaces_trivia(source: Seq<u8>, member_start: int)
    requires
        0 <= member_start <= source.len() <= usize::MAX,
    ensures
        ({
            let place = comments_place(source, member_start);
            let block = block_start(source, member_start, place);
            0 <= block <= place <= member_start && trivia_between(source, block, place)
        }),
{
    let place = comments_place(source, member_start);
    let block = block_start(source, member_start, place);
    lemma_seam_is_trivia(source, 0, member_start);
    lemma_back_to_line(source, member_start, 0);
    assert(trivia_between(source, place, place));
    if block < place && starts_line(source, member_start) {
        lemma_trivia_up_to_a_line(source, block, place, member_start);
    }
}

/// One comment text as whole `//` lines: each behind `indent` and ended by a line feed.
pub open spec fn slash_text(indent: Seq<u8>, text: Seq<u8>) -> Seq<u8>
    decreases text.len(),
{
    let end = line_end(text, 0);
    if 0 <= end < text.len() {
        indent + comment_line(text.take(end)) + seq![LF] + slash_text(indent, text.skip(end + 1))
    } else {
        indent + comment_line(text) + seq![LF]
    }
}

/// Comment texts as whole `//` lines.
pub open spec fn slash_texts(indent: Seq<u8>, texts: Seq<String>) -> Seq<u8>
    decreases texts.len(),
{
    if texts.len() == 0 {
        seq![]
    } else {
        slash_texts(indent, texts.drop_last()) + slash_text(indent, utf8(texts.last()))
    }
}

/// Appends one comment text as whole `//` lines.
fn push_slash_text(out: &mut Vec<u8>, indent: &[u8], text: &[u8])
    ensures
        final(out)@ == old(out)@ + slash_text(indent@, text@),
{
    let mut start: usize = 0;
    assert(text@.skip(0) =~= text@);
    loop
        invariant
            start <= text.len(),
            old(out)@ + slash_text(indent@, text@) == out@ + slash_text(indent@, text@.skip(start as int)),
        decreases text.len() - start,
    {
        let ghost rest = text@.skip(start as int);
        let ghost before = out@;
        let end = find_line_end(text, start);
        push_all(out, indent);
        out.push(SLASH);
        out.push(SLASH);
        if end > start {
            out.push(SPACE);
            push_range(out, text, start, end);
        }
        out.push(LF);
        proof {
            lemma_line_end_shifts(text@, start as int, 0);
            assert(rest.take(end - start) =~= text@.subrange(start as int, end as int));
            assert(out@ =~= before + (indent@ + comment_line(rest.take(end - start)) + seq![LF]));
        }
        if end >= text.len() {
            proof {
                assert(rest.take(end - start) =~= rest);
                assert(out@ =~= before + slash_text(indent@, rest));
            }
            return;
        }
        proof {
            assert(rest.skip(end - start + 1) =~= text@.skip(end + 1));
            assert(out@ + slash_text(indent@, text@.skip(end + 1)) =~= before + slash_text(indent@, rest));
        }
        start = end + 1;
    }
}

/// Comment texts as whole `//` lines. A text's own newlines become separate `//` lines.
pub fn slash_comment_text(indent: &[u8], lines: &Vec<String>) -> (bytes: Vec<u8>)
    ensures
        bytes@ == slash_texts(indent@, lines@),
{
    let mut out: Vec<u8> = Vec::new();
    let mut i: usize = 0;
    assert(lines@.take(0) =~= seq![]);
    assert(out@ =~= slash_texts(indent@, seq![]));
    while i < lines.len()
        invariant
            i <= lines.len(),
            out@ == slash_texts(indent@, lines@.take(i as int)),
        decreases lines.len() - i,
    {
        push_slash_text(&mut out, indent, bytes_of(&lines[i]));
        i += 1;
        assert(lines@.take(i as int).drop_last() =~= lines@.take(i - 1));
    }
    assert(lines@.take(lines@.len() as int) =~= lines@);
    out
}

/// The two ways a comment is written agree: behind its indentation, the lines a whole-document encode writes before a
/// node are the lines a splice writes above it.
pub proof fn lemma_comment_paths_agree(indent: Seq<u8>, texts: Seq<String>)
    ensures
        indent + comment_lines(texts, seq![LF] + indent) == slash_texts(indent, texts) + indent,
    decreases texts.len(),
{
    let ending = seq![LF] + indent;
    if texts.len() == 0 {
        assert(indent + comment_lines(texts, ending) =~= slash_texts(indent, texts) + indent);
    } else {
        let head = texts.drop_last();
        let last = utf8(texts.last());
        lemma_comment_paths_agree(indent, head);
        lemma_one_comment_agrees(indent, last);
        assert(indent + comment_lines(texts, ending) =~= (indent + comment_lines(head, ending)) + comment_block(
            last,
            ending,
        ));
        assert((slash_texts(indent, head) + indent) + comment_block(last, ending) =~= slash_texts(indent, head) + (
        indent + comment_block(last, ending)));
        assert(slash_texts(indent, head) + (slash_text(indent, last) + indent) =~= slash_texts(indent, texts) + indent);
    }
}

proof fn lemma_one_comment_agrees(indent: Seq<u8>, text: Seq<u8>)
    ensures
        indent + comment_block(text, seq![LF] + indent) == slash_text(indent, text) + indent,
    decreases text.len(),
{
    let ending = seq![LF] + indent;
    let end = line_end(text, 0);
    if 0 <= end < text.len() {
        let line = comment_line(text.take(end));
        let rest = text.skip(end + 1);
        lemma_one_comment_agrees(indent, rest);
        assert(indent + comment_block(text, ending) =~= indent + line + seq![LF] + (indent + comment_block(
            rest,
            ending,
        )));
        assert(indent + line + seq![LF] + (slash_text(indent, rest) + indent) =~= slash_text(indent, text) + indent);
    } else {
        assert(indent + comment_block(text, ending) =~= slash_text(indent, text) + indent);
    }
}

/// The comment texts a payload names: none for null, an array's texts in order, and nothing else.
pub open spec fn payload_texts(payload: Value) -> Option<Seq<Seq<char>>> {
    match payload.bare() {
        Value::Null => Some(seq![]),
        Value::Array(items) => if forall|i: int| 0 <= i < items@.len() ==> (#[trigger] items@[i]).value.bare() is Text {
            Some(Seq::new(items@.len(), |i: int| items@[i].value.bare()->Text_0@))
        } else {
            None
        },
        _ => None,
    }
}

/// The comment lines a payload names: none for null, and an array's texts in order. Any other payload is refused.
pub fn comment_payload_lines(payload: &Value) -> (lines: Result<Vec<String>, CodecFailureKind>)
    ensures
        match lines {
            Ok(lines) => payload_texts(*payload) == Some(crate::byte_scan::text_views(lines@)),
            Err(kind) => payload_texts(*payload) is None && kind == CodecFailureKind::UnsupportedRepresentation,
        },
{
    let (bare, _) = payload.untagged();
    let mut lines: Vec<String> = Vec::new();
    match bare {
        Value::Null => {
            assert(crate::byte_scan::text_views(lines@) =~= seq![]);
            Ok(lines)
        }
        Value::Array(items) => {
            let mut i: usize = 0;
            while i < items.len()
                invariant
                    i <= items.len(),
                    payload.bare() == Value::Array(*items),
                    lines@.len() == i,
                    forall|k: int| 0 <= k < i ==> (#[trigger] items@[k]).value.bare() is Text,
                    forall|k: int| 0 <= k < i ==> (#[trigger] lines@[k])@ == items@[k].value.bare()->Text_0@,
                decreases items.len() - i,
            {
                let (value, _) = items[i].value.untagged();
                match value {
                    Value::Text(text) => lines.push(text.clone()),
                    _ => {
                        assert(!(items@[i as int].value.bare() is Text));
                        return Err(CodecFailureKind::UnsupportedRepresentation);
                    }
                }
                i += 1;
            }
            assert(crate::byte_scan::text_views(lines@) =~= payload_texts(*payload)->0);
            Ok(lines)
        }
        _ => Err(CodecFailureKind::UnsupportedRepresentation),
    }
}

/// Splices comments as `//` lines immediately before the member whose value was recorded at `span`, in place of the
/// comment block that stands there.
///
/// Compact and wrapped members share one law: a comment belongs to the first value whose span starts at or after it, so
/// the write inserts before the member (the key, or the value for an array item) rather than at the start of the
/// physical line. `None` where the source does not cover the value; no patch where there is nothing to remove and nothing
/// to write.
pub fn render_comment_write(span: Option<Span>, source: &[u8], payload: &Value) -> (patches: Result<
    Option<Vec<FactEditPatch>>,
    CodecFailureKind,
>)
    requires
        span matches Some(span) ==> span.start <= span.end,
    ensures
        ({
            let token = match span {
                Some(span) => token_extent(source@, span),
                None => None,
            };
            match token {
                Some((token_start, _)) => if token_start > source.len() {
                    patches matches Ok(None)
                } else if payload_texts(*payload) is None {
                    patches matches Err(kind) && kind == CodecFailureKind::UnsupportedRepresentation
                } else {
                    patches matches Ok(Some(patches)) && writes_comments(source@, token_start, *payload, patches@)
                },
                None => patches matches Ok(None),
            }
        }),
{
    let span = match span {
        Some(span) => span,
        None => return Ok(None),
    };
    let value_start = match value_extent(source, span) {
        Some((start, _)) => start,
        None => return Ok(None),
    };
    if value_start > source.len() {
        return Ok(None);
    }
    let member_start = commented_member_start(source, value_start);
    let lines = match comment_payload_lines(payload) {
        Ok(lines) => lines,
        Err(kind) => return Err(kind),
    };
    let (block, insert_at, indent) = slash_comment_block(source, member_start);
    let replacement = slash_comment_text(indent, &lines);
    let mut patches: Vec<FactEditPatch> = Vec::new();
    if block != insert_at || replacement.len() > 0 {
        patches.push(FactEditPatch { start: block, end: insert_at, replacement });
    }
    assert(commented_start_is(source@, value_start as int, member_start as int));
    assert(patch_is(source@, member_start as int, lines@, patches@));
    assert(payload_texts(*payload) == Some(crate::byte_scan::text_views(lines@)));
    Ok(Some(patches))
}

/// Whether `patches` writes the payload's texts above the member whose value token starts at `token_start`.
pub open spec fn writes_comments(source: Seq<u8>, token_start: int, payload: Value, patches: Seq<FactEditPatch>) -> bool {
    exists|member_start: int, texts: Seq<String>|
        {
            &&& #[trigger] commented_start_is(source, token_start, member_start)
            &&& payload_texts(payload) == Some(#[trigger] crate::byte_scan::text_views(texts))
            &&& patch_is(source, member_start, texts, patches)
        }
}

/// Whether `patches` writes `texts` above the member that starts at `member_start`: one patch, or none where it would
/// replace nothing by nothing.
pub open spec fn patch_is(source: Seq<u8>, member_start: int, texts: Seq<String>, patches: Seq<FactEditPatch>) -> bool {
    let place = comments_place(source, member_start);
    let block = block_start(source, member_start, place);
    let written = slash_texts(comments_indent(source, member_start), texts);
    if block == place && written.len() == 0 {
        patches.len() == 0
    } else {
        &&& patches.len() == 1
        &&& patches[0].start == block
        &&& patches[0].end == place
        &&& patches[0].replacement@ == written
    }
}

} // verus!
