//! JSON's byte scans: the stop-set prefix scans, the trivia (whitespace and comment) scan, and the windowed
//! first-invalid-UTF-8 scan.

use vstd::prelude::*;

use crate::ascii::{
    BACKSLASH, CLOSE_BRACE, CLOSE_BRACKET, COMMA, CR, LF, OPEN_BRACE, OPEN_BRACKET, QUOTE, SLASH, SPACE, STAR, TAB,
};
use vstd::utf8::{decode_utf8, length_of_first_scalar, pop_first_scalar, valid_first_scalar, valid_utf8};

use crate::grammar::JsonGrammar;

verus! {

/// A set of bytes that ends a run.
#[derive(Clone, Copy, Debug, PartialEq, Eq, Structural)]
pub enum StopSet {
    /// The bytes a strict JSON encoder must escape: `"`, `\`, C0 controls, DEL.
    Escape,
    /// The bytes that end a plain string run: the escape set and everything at or above `0x80`.
    PlainString,
    /// The bytes that end string content: `"`, `\`, C0 controls, DEL.
    StringContent,
    /// The bytes that open, close, or split a container token: `"`, `{`, `[`, `}`, `]`.
    Structure,
    /// The bytes that end a bare-word value: JSON whitespace, `,`, `]`, `}`.
    Delimiter,
    /// Every byte that is not JSON whitespace.
    Ws,
    /// The RFC 7464 record separator, `0x1E`.
    Rs,
    /// The bytes that frame an NDJSON record: LF and CR.
    NdjsonFrame,
}

/// The bytes a JSON string may not hold raw.
pub open spec fn must_escape(byte: u8) -> bool {
    byte == QUOTE || byte == BACKSLASH || byte < 0x20 || byte == 0x7f
}

/// RFC 8259 whitespace: space, tab, LF, CR.
pub open spec fn json_ws(byte: u8) -> bool {
    byte == SPACE || byte == TAB || byte == LF || byte == CR
}

impl StopSet {
    /// Whether `byte` ends a run of this set.
    pub open spec fn stops(self, byte: u8) -> bool {
        match self {
            StopSet::Escape => must_escape(byte),
            StopSet::PlainString => must_escape(byte) || byte >= 0x80,
            StopSet::StringContent => must_escape(byte),
            StopSet::Structure => byte == QUOTE || byte == OPEN_BRACE || byte == OPEN_BRACKET || byte == CLOSE_BRACE || byte == CLOSE_BRACKET,
            StopSet::Delimiter => json_ws(byte) || byte == COMMA || byte == CLOSE_BRACKET || byte == CLOSE_BRACE,
            StopSet::Ws => !json_ws(byte),
            StopSet::Rs => byte == 0x1e,
            StopSet::NdjsonFrame => byte == LF || byte == CR,
        }
    }

    /// Whether `byte` ends a run of this set.
    pub fn hit(self, byte: u8) -> (stop: bool)
        ensures
            stop == self.stops(byte),
    {
        match self {
            StopSet::Escape | StopSet::StringContent => needs_escape(byte),
            StopSet::PlainString => needs_escape(byte) || byte >= 0x80,
            StopSet::Structure => byte == QUOTE || byte == OPEN_BRACE || byte == OPEN_BRACKET || byte == CLOSE_BRACE || byte == CLOSE_BRACKET,
            StopSet::Delimiter => is_json_ws(byte) || byte == COMMA || byte == CLOSE_BRACKET || byte == CLOSE_BRACE,
            StopSet::Ws => !is_json_ws(byte),
            StopSet::Rs => byte == 0x1e,
            StopSet::NdjsonFrame => byte == LF || byte == CR,
        }
    }
}

/// Where the run that starts at `from` ends: the first index at or after `from` whose byte is in `set`, or the end of
/// `bytes`.
pub open spec fn run_end(bytes: Seq<u8>, from: int, set: StopSet) -> int
    decreases bytes.len() - from,
{
    if from < 0 || from >= bytes.len() || set.stops(bytes[from]) {
        from
    } else {
        run_end(bytes, from + 1, set)
    }
}

/// The run from `from` holds no stop byte, and ends at one or at the end of `bytes`.
pub proof fn lemma_run_end(bytes: Seq<u8>, from: int, set: StopSet)
    requires
        0 <= from <= bytes.len(),
    ensures
        from <= run_end(bytes, from, set) <= bytes.len(),
        forall|i: int| from <= i < run_end(bytes, from, set) ==> !set.stops(#[trigger] bytes[i]),
        run_end(bytes, from, set) < bytes.len() ==> set.stops(bytes[run_end(bytes, from, set)]),
    decreases bytes.len() - from,
{
    if from < bytes.len() && !set.stops(bytes[from]) {
        lemma_run_end(bytes, from + 1, set);
    }
}

/// Only one index can end the run from `from`.
pub proof fn lemma_run_end_is(bytes: Seq<u8>, from: int, set: StopSet, end: int)
    requires
        0 <= from <= end <= bytes.len(),
        forall|i: int| from <= i < end ==> !set.stops(#[trigger] bytes[i]),
        end < bytes.len() ==> set.stops(bytes[end]),
    ensures
        run_end(bytes, from, set) == end,
    decreases end - from,
{
    if from < end {
        assert(!set.stops(bytes[from]));
        lemma_run_end_is(bytes, from + 1, set, end);
    }
}

/// The JSON text-escape predicate shared by every encoder scan and the escaping writer. DEL is not a control character
/// JSON requires escaping, so an encoder written from the grammar alone would emit the raw byte and disagree with
/// [`crate::json_escape_byte`] on any string containing it. Sharing the predicate is what keeps the unescaped-fast-path
/// scans and the escaping writer from ever disagreeing about the set.
pub fn needs_escape(byte: u8) -> (escape: bool)
    ensures
        escape == must_escape(byte),
{
    matches!(byte, QUOTE | BACKSLASH | 0x00..=0x1f | 0x7f)
}

/// The escape predicate and the escape table agree: a byte must be escaped exactly when the table has a text for it.
pub proof fn lemma_must_escape_is_the_table(byte: u8)
    ensures
        must_escape(byte) <==> crate::json_escape::escape_text(byte).len() > 0,
{
}

/// Whether `byte` is JSON structural whitespace (RFC 8259: space, tab, LF, CR).
pub fn is_json_ws(byte: u8) -> (ws: bool)
    ensures
        ws == json_ws(byte),
{
    matches!(byte, SPACE | TAB | LF | CR)
}

/// End of the run of bytes outside `set` that starts at `from`.
pub fn scan_to(set: StopSet, bytes: &[u8], from: usize) -> (end: usize)
    requires
        from <= bytes.len(),
    ensures
        end == run_end(bytes@, from as int, set),
        from <= end <= bytes.len(),
{
    let mut n: usize = from;
    while n < bytes.len() && !set.hit(bytes[n])
        invariant
            from <= n <= bytes.len(),
            run_end(bytes@, from as int, set) == run_end(bytes@, n as int, set),
        decreases bytes.len() - n,
    {
        n += 1;
    }
    n
}

/// Length of the longest prefix of `bytes` that holds no byte of `set`.
pub fn prefix_len(set: StopSet, bytes: &[u8]) -> (len: usize)
    ensures
        len == run_end(bytes@, 0, set),
        len <= bytes.len(),
{
    scan_to(set, bytes, 0)
}

/// Longest prefix of `bytes` containing no byte a strict JSON encoder must escape (`"`, `\`, C0 controls, DEL), so the
/// run is safe to copy verbatim. Under `ascii`, every byte at or above `0x80` must also be escaped, so the scan
/// additionally halts at the first non-ASCII byte.
pub fn escape_prefix_len(bytes: &[u8], ascii: bool) -> (len: usize)
    ensures
        len == run_end(bytes@, 0, if ascii { StopSet::PlainString } else { StopSet::Escape }),
        len <= bytes.len(),
{
    if ascii {
        prefix_len(StopSet::PlainString, bytes)
    } else {
        prefix_len(StopSet::Escape, bytes)
    }
}

/// Longest prefix of `bytes` containing no byte that must terminate a plain JSON string run (`"`, `\`, C0 controls,
/// DEL, or any byte >= 0x80).
pub fn plain_string_prefix_len(bytes: &[u8]) -> (len: usize)
    ensures
        len == run_end(bytes@, 0, StopSet::PlainString),
        len <= bytes.len(),
{
    prefix_len(StopSet::PlainString, bytes)
}

/// [`plain_string_prefix_len`] with a scalar head of eight bytes, for the short runs between escapes: only a longer run
/// reaches the general scan.
pub fn plain_string_prefix_len_short(bytes: &[u8]) -> (len: usize)
    ensures
        len == run_end(bytes@, 0, StopSet::PlainString),
        len <= bytes.len(),
{
    let mut n: usize = 0;
    while n < 8
        invariant
            n <= 8,
            n <= bytes.len(),
            run_end(bytes@, 0, StopSet::PlainString) == run_end(bytes@, n as int, StopSet::PlainString),
        decreases 8 - n,
    {
        if n >= bytes.len() || StopSet::PlainString.hit(bytes[n]) {
            return n;
        }
        n += 1;
    }
    scan_to(StopSet::PlainString, bytes, 8)
}

/// Longest prefix of `bytes` containing no byte that ends a plain JSON string content run (`"`, `\`, a C0 control, or
/// DEL). Unlike [`plain_string_prefix_len`], non-ASCII bytes are CONTENT here.
pub fn string_content_prefix_len(bytes: &[u8]) -> (len: usize)
    ensures
        len == run_end(bytes@, 0, StopSet::StringContent),
        len <= bytes.len(),
{
    prefix_len(StopSet::StringContent, bytes)
}

/// Longest prefix of `bytes` containing no byte that opens, closes, or splits a container token (`"`, `{`, `[`, `}`,
/// `]`). Everything else — whitespace, scalars, punctuation — is noise a container skip can pass in bulk.
pub fn structural_prefix_len(bytes: &[u8]) -> (len: usize)
    ensures
        len == run_end(bytes@, 0, StopSet::Structure),
        len <= bytes.len(),
{
    prefix_len(StopSet::Structure, bytes)
}

/// Longest prefix of `bytes` containing no byte that terminates a bare-word value (JSON whitespace, `,`, `]`, `}`), so a
/// word (`true`, `123`, `null`) is passed whole and the skip stops exactly at the delimiter that ends it.
pub fn delimiter_prefix_len(bytes: &[u8]) -> (len: usize)
    ensures
        len == run_end(bytes@, 0, StopSet::Delimiter),
        len <= bytes.len(),
{
    prefix_len(StopSet::Delimiter, bytes)
}

/// Longest prefix of `bytes` that is JSON whitespace.
pub fn ws_prefix_len(bytes: &[u8]) -> (len: usize)
    ensures
        len == run_end(bytes@, 0, StopSet::Ws),
        len <= bytes.len(),
{
    prefix_len(StopSet::Ws, bytes)
}

/// Longest prefix of `bytes` that holds no json-seq record separator.
pub fn rs_prefix_len(bytes: &[u8]) -> (len: usize)
    ensures
        len == run_end(bytes@, 0, StopSet::Rs),
        len <= bytes.len(),
{
    prefix_len(StopSet::Rs, bytes)
}

/// Whether a JSON5 whitespace character outside ASCII — U+2028, U+2029, or U+FEFF — starts at `at`.
pub open spec fn json5_ws_at(bytes: Seq<u8>, at: int) -> bool {
    &&& 0 <= at
    &&& at + 2 < bytes.len()
    &&& {
        ||| bytes[at] == 0xe2 && bytes[at + 1] == 0x80 && (bytes[at + 2] == 0xa8 || bytes[at + 2] == 0xa9)
        ||| bytes[at] == 0xef && bytes[at + 1] == 0xbb && bytes[at + 2] == 0xbf
    }
}

/// Index of the first line feed at or after `from`, or the end of `bytes`.
pub open spec fn line_end(bytes: Seq<u8>, from: int) -> int
    decreases bytes.len() - from,
{
    if from < 0 || from >= bytes.len() || bytes[from] == LF {
        from
    } else {
        line_end(bytes, from + 1)
    }
}

/// Index of the first `*/` at or after `from`, or the end of `bytes`.
pub open spec fn block_close(bytes: Seq<u8>, from: int) -> int
    decreases bytes.len() - from,
{
    if from < 0 || from >= bytes.len() {
        from
    } else if from + 1 < bytes.len() && bytes[from] == STAR && bytes[from + 1] == SLASH {
        from
    } else {
        block_close(bytes, from + 1)
    }
}

pub proof fn lemma_line_end(bytes: Seq<u8>, from: int)
    requires
        0 <= from <= bytes.len(),
    ensures
        from <= line_end(bytes, from) <= bytes.len(),
    decreases bytes.len() - from,
{
    if from < bytes.len() && bytes[from] != LF {
        lemma_line_end(bytes, from + 1);
    }
}

pub proof fn lemma_block_close(bytes: Seq<u8>, from: int)
    requires
        0 <= from <= bytes.len(),
    ensures
        from <= block_close(bytes, from) <= bytes.len(),
        block_close(bytes, from) < bytes.len() ==> block_close(bytes, from) + 1 < bytes.len(),
    decreases bytes.len() - from,
{
    if from < bytes.len() && !(from + 1 < bytes.len() && bytes[from] == STAR && bytes[from + 1] == SLASH) {
        lemma_block_close(bytes, from + 1);
    }
}

/// `bytes` without its last byte, when that byte is `last`.
pub open spec fn without_suffix(bytes: Seq<u8>, last: u8) -> Seq<u8> {
    if bytes.len() > 0 && bytes.last() == last {
        bytes.drop_last()
    } else {
        bytes
    }
}

/// `bytes` without its first byte, when that byte is a space.
pub open spec fn without_leading_space(bytes: Seq<u8>) -> Seq<u8> {
    if bytes.len() > 0 && bytes[0] == SPACE {
        bytes.skip(1)
    } else {
        bytes
    }
}

/// The body of a line comment whose text runs from `start` to `end`: the carriage return of a CRLF line break belongs to
/// the break, and a carriage return at the end of the input to the text.
pub open spec fn line_comment_body(bytes: Seq<u8>, start: int, end: int) -> Seq<u8> {
    let text = bytes.subrange(start, end);
    without_leading_space(
        if end < bytes.len() {
            without_suffix(text, CR)
        } else {
            text
        },
    )
}

/// The body of a block comment whose text runs from `start` to `end`, where `end` is its closing `*/` or the end of the
/// input.
pub open spec fn block_comment_body(bytes: Seq<u8>, start: int, end: int) -> Seq<u8> {
    let text = bytes.subrange(start, end);
    without_leading_space(
        if end < bytes.len() {
            without_suffix(text, SPACE)
        } else {
            text
        },
    )
}

/// What a trivia scan finds: where the trivia ends, whether that is inside a comment that has not closed, and the bodies
/// of the comments it passed.
pub struct Trivia {
    pub end: int,
    pub open: bool,
    pub bodies: Seq<Seq<u8>>,
}

/// A trivia scan with one more comment in front.
pub open spec fn after_comment(body: Seq<u8>, rest: Trivia) -> Trivia {
    Trivia { end: rest.end, open: rest.open, bodies: seq![body] + rest.bodies }
}

/// The trivia from `from` on: whitespace — JSON5's with it when the grammar arms JSON5 — and, when the grammar arms
/// them, comments.
pub open spec fn trivia_from(bytes: Seq<u8>, from: int, grammar: JsonGrammar) -> Trivia
    decreases bytes.len() - from,
    when 0 <= from <= bytes.len()
    via trivia_from_decreases
{
    let at = run_end(bytes, from, StopSet::Ws);
    if grammar.json5 && json5_ws_at(bytes, at) {
        trivia_from(bytes, at + 3, grammar)
    } else if grammar.comments && at + 1 < bytes.len() && bytes[at] == SLASH && bytes[at + 1] == SLASH {
        let end = line_end(bytes, at + 2);
        let body = line_comment_body(bytes, at + 2, end);
        if end < bytes.len() {
            after_comment(body, trivia_from(bytes, end, grammar))
        } else {
            Trivia { end, open: true, bodies: seq![body] }
        }
    } else if grammar.comments && at + 1 < bytes.len() && bytes[at] == SLASH && bytes[at + 1] == STAR {
        let end = block_close(bytes, at + 2);
        let body = block_comment_body(bytes, at + 2, end);
        if end < bytes.len() {
            after_comment(body, trivia_from(bytes, end + 2, grammar))
        } else {
            Trivia { end, open: true, bodies: seq![body] }
        }
    } else {
        Trivia { end: at, open: false, bodies: seq![] }
    }
}

#[via_fn]
proof fn trivia_from_decreases(bytes: Seq<u8>, from: int, grammar: JsonGrammar) {
    lemma_run_end(bytes, from, StopSet::Ws);
    let at = run_end(bytes, from, StopSet::Ws);
    if at + 2 <= bytes.len() {
        lemma_line_end(bytes, at + 2);
        lemma_block_close(bytes, at + 2);
    }
}

/// Trivia ends at or past its start.
proof fn lemma_trivia_moves_on(bytes: Seq<u8>, from: int, grammar: JsonGrammar)
    requires
        0 <= from <= bytes.len(),
    ensures
        run_end(bytes, from, StopSet::Ws) <= trivia_from(bytes, from, grammar).end <= bytes.len(),
    decreases bytes.len() - from,
{
    lemma_run_end(bytes, from, StopSet::Ws);
    let at = run_end(bytes, from, StopSet::Ws);
    if at + 2 <= bytes.len() {
        lemma_line_end(bytes, at + 2);
        lemma_block_close(bytes, at + 2);
    }
    if grammar.json5 && json5_ws_at(bytes, at) {
        lemma_run_end(bytes, at + 3, StopSet::Ws);
        lemma_trivia_moves_on(bytes, at + 3, grammar);
    } else if grammar.comments && at + 1 < bytes.len() && bytes[at] == SLASH && bytes[at + 1] == SLASH {
        let end = line_end(bytes, at + 2);
        if end < bytes.len() {
            lemma_run_end(bytes, end, StopSet::Ws);
            lemma_trivia_moves_on(bytes, end, grammar);
        }
    } else if grammar.comments && at + 1 < bytes.len() && bytes[at] == SLASH && bytes[at + 1] == STAR {
        let end = block_close(bytes, at + 2);
        if end < bytes.len() {
            lemma_run_end(bytes, end + 2, StopSet::Ws);
            lemma_trivia_moves_on(bytes, end + 2, grammar);
        }
    }
}

/// Every dialect passes over what strict JSON passes over, and a strict grammar over RFC 8259 whitespace alone.
pub proof fn lemma_dialects_skip_strict_trivia(bytes: Seq<u8>, from: int, strict: JsonGrammar, dialect: JsonGrammar)
    requires
        0 <= from <= bytes.len(),
        !strict.comments && !strict.json5,
    ensures
        trivia_from(bytes, from, strict).end == run_end(bytes, from, StopSet::Ws),
        trivia_from(bytes, from, strict).end <= trivia_from(bytes, from, dialect).end,
{
    lemma_trivia_moves_on(bytes, from, dialect);
}

/// The texts, as characters, of a run of comment bodies.
pub open spec fn comment_texts(bodies: Seq<Seq<u8>>) -> Seq<Seq<char>> {
    bodies.map_values(|body: Seq<u8>| lossy_text(body))
}

/// Whether the texts from `from` on are what the comment bodies spell, wherever those are valid UTF-8.
pub open spec fn texts_decode(texts: Seq<String>, from: int, bodies: Seq<Seq<u8>>) -> bool {
    forall|i: int|
        from <= i < texts.len() && valid_utf8(bodies[i - from]) ==> (#[trigger] texts[i])@ == decode_utf8(
            bodies[i - from],
        )
}

/// The views of a vector of strings.
pub open spec fn text_views(texts: Seq<String>) -> Seq<Seq<char>> {
    texts.map_values(|text: String| text@)
}

/// The allocator refused a reservation.
#[derive(Clone, Copy, Debug, PartialEq, Eq, Structural)]
pub enum ResourceError {
    /// A fallible reservation failed.
    Allocation,
}

/// What `String::from_utf8_lossy` reads `bytes` as.
pub uninterp spec fn lossy_text(bytes: Seq<u8>) -> Seq<char>;

/// `String::from_utf8_lossy`, copied out: the text of `bytes`, with U+FFFD for what is not UTF-8. The contract names the
/// result, and states it outright for bytes that are valid UTF-8; what stands for each invalid sequence is not stated.
#[verifier::external_body]
fn read_lossy(bytes: &[u8]) -> (text: String)
    ensures
        text@ == lossy_text(bytes@),
        valid_utf8(bytes@) ==> text@ == decode_utf8(bytes@),
{
    String::from_utf8_lossy(bytes).into_owned()
}

/// One comment's text: the bytes after the opening marker (`//` or `/*`), with exactly one immediately following space
/// stripped. Line comments run to the line break (not including it); block comments arrive with their closing `*/` (and
/// one trailing space) already removed by the caller, so `/* foo */` and `// foo` both answer `foo`.
pub fn comment_text(bytes: &[u8]) -> (text: String)
    ensures
        text@ == lossy_text(without_leading_space(bytes@)),
        valid_utf8(without_leading_space(bytes@)) ==> text@ == decode_utf8(without_leading_space(bytes@)),
{
    if bytes.len() > 0 && bytes[0] == SPACE {
        let rest = vstd::slice::slice_subrange(bytes, 1, bytes.len());
        assert(rest@ =~= bytes@.skip(1));
        read_lossy(rest)
    } else {
        read_lossy(bytes)
    }
}

/// Appends `text` to a run where room was reserved for it, and hands a refused reservation back with the run unchanged.
pub fn push_reserved(run: &mut Vec<String>, text: String, reserved: Result<(), ResourceError>) -> (pushed: Result<
    (),
    ResourceError,
>)
    ensures
        pushed == reserved,
        match reserved {
            Ok(_) => final(run)@ == old(run)@.push(text),
            Err(_) => final(run)@ == old(run)@,
        },
{
    if reserved.is_ok() {
        run.push(text);
    }
    reserved
}

/// Appends one comment's text to a run through a FALLIBLE reservation: the run is sized by the input, so it may not grow
/// through an aborting allocation. The text itself is copied out before, and that copy does abort where memory runs out.
/// On a refusal the run is unchanged.
pub fn push_comment(run: &mut Vec<String>, bytes: &[u8]) -> (pushed: Result<(), ResourceError>)
    ensures
        match pushed {
            Ok(_) => {
                let body = without_leading_space(bytes@);
                &&& text_views(final(run)@) == text_views(old(run)@).push(lossy_text(body))
                &&& valid_utf8(body) ==> text_views(final(run)@) == text_views(old(run)@).push(decode_utf8(body))
            },
            Err(_) => final(run)@ == old(run)@,
        },
{
    let text = comment_text(bytes);
    let ghost view = text@;
    let reserved = match run.try_reserve(1) {
        Ok(_) => Ok(()),
        Err(_) => Err(ResourceError::Allocation),
    };
    let pushed = push_reserved(run, text, reserved);
    assert(pushed is Ok ==> text_views(run@) =~= text_views(old(run)@).push(view));
    pushed
}

/// `trivia_from` with the comment bodies `done` already passed.
spec fn resumed(done: Seq<Seq<u8>>, rest: Trivia) -> Trivia {
    Trivia { end: rest.end, open: rest.open, bodies: done + rest.bodies }
}

proof fn lemma_comment_texts_push(done: Seq<Seq<u8>>, body: Seq<u8>)
    ensures
        comment_texts(done.push(body)) == comment_texts(done).push(lossy_text(body)),
{
    assert(comment_texts(done.push(body)) =~= comment_texts(done).push(lossy_text(body)));
}

/// Index of the first line feed at or after `from`, or the end of `bytes`.
pub fn find_line_end(bytes: &[u8], from: usize) -> (end: usize)
    requires
        from <= bytes.len(),
    ensures
        end == line_end(bytes@, from as int),
        from <= end <= bytes.len(),
{
    let mut n: usize = from;
    while n < bytes.len() && bytes[n] != LF
        invariant
            from <= n <= bytes.len(),
            line_end(bytes@, from as int) == line_end(bytes@, n as int),
        decreases bytes.len() - n,
    {
        n += 1;
    }
    n
}

/// Index of the first `*/` at or after `from`, or the end of `bytes`.
pub fn find_block_close(bytes: &[u8], from: usize) -> (end: usize)
    requires
        from <= bytes.len(),
    ensures
        end == block_close(bytes@, from as int),
        from <= end <= bytes.len(),
        end < bytes.len() ==> end + 1 < bytes.len(),
{
    let mut n: usize = from;
    while n < bytes.len()
        invariant
            from <= n <= bytes.len(),
            block_close(bytes@, from as int) == block_close(bytes@, n as int),
        decreases bytes.len() - n,
    {
        if n + 1 < bytes.len() && bytes[n] == STAR && bytes[n + 1] == SLASH {
            return n;
        }
        n += 1;
    }
    n
}

/// `bytes[start..end]`, without its last byte when `strip` holds and that byte is `last`.
fn stripped_range(bytes: &[u8], start: usize, end: usize, strip: bool, last: u8) -> (text: &[u8])
    requires
        start <= end <= bytes.len(),
    ensures
        text@ == if strip {
            without_suffix(bytes@.subrange(start as int, end as int), last)
        } else {
            bytes@.subrange(start as int, end as int)
        },
{
    if strip && end > start && bytes[end - 1] == last {
        let text = vstd::slice::slice_subrange(bytes, start, end - 1);
        assert(text@ =~= bytes@.subrange(start as int, end as int).drop_last());
        text
    } else {
        vstd::slice::slice_subrange(bytes, start, end)
    }
}

/// Whether a JSON5 whitespace character outside ASCII starts at `at`.
pub fn is_json5_ws_at(bytes: &[u8], at: usize) -> (ws: bool)
    requires
        at <= bytes.len(),
    ensures
        ws == json5_ws_at(bytes@, at as int),
{
    if bytes.len() - at < 3 {
        return false;
    }
    let (a, b, c) = (bytes[at], bytes[at + 1], bytes[at + 2]);
    (a == 0xe2 && b == 0x80 && (c == 0xa8 || c == 0xa9)) || (a == 0xef && b == 0xbb && c == 0xbf)
}

/// One more text is what its body spells.
proof fn lemma_text_decodes(
    before: Seq<String>,
    after: Seq<String>,
    from: int,
    done: Seq<Seq<u8>>,
    body: Seq<u8>,
    bodies: Seq<Seq<u8>>,
)
    requires
        0 <= from,
        before.len() == from + done.len(),
        text_views(after).len() == before.len() + 1,
        text_views(after).drop_last() == text_views(before),
        valid_utf8(body) ==> text_views(after).last() == decode_utf8(body),
        texts_decode(before, from, bodies),
        done.len() < bodies.len() && bodies[done.len() as int] == body,
    ensures
        texts_decode(after, from, bodies),
        after.len() == before.len() + 1,
{
    assert forall|i: int| from <= i < after.len() && valid_utf8(bodies[i - from]) implies (#[trigger] after[i])@
        == decode_utf8(bodies[i - from]) by {
        assert(text_views(after)[i] == after[i]@);
        if i < before.len() {
            assert(text_views(after).drop_last()[i] == text_views(before)[i]);
            assert(text_views(before)[i] == before[i]@);
        }
    }
}

/// The trivia scan over `bytes`, appending each comment's text to `out` when `collect` holds.
fn scan_trivia(bytes: &[u8], grammar: JsonGrammar, collect: bool, out: &mut Vec<String>) -> (found: Result<
    (usize, bool),
    ResourceError,
>)
    ensures
        ({
            let trivia = trivia_from(bytes@, 0, grammar);
            match found {
                Ok((len, open)) => {
                    &&& len == trivia.end
                    &&& len <= bytes.len()
                    &&& open == trivia.open
                    &&& collect ==> text_views(final(out)@) == text_views(old(out)@) + comment_texts(trivia.bodies)
                    &&& collect ==> texts_decode(final(out)@, old(out)@.len() as int, trivia.bodies)
                    &&& !collect ==> final(out)@ == old(out)@
                },
                Err(_) => {
                    &&& collect
                    &&& exists|k: int|
                        0 <= k < trivia.bodies.len() && text_views(final(out)@) == text_views(old(out)@)
                            + #[trigger] comment_texts(trivia.bodies.take(k))
                    &&& texts_decode(final(out)@, old(out)@.len() as int, trivia.bodies)
                },
            }
        }),
{
    let mut n: usize = 0;
    let ghost mut done: Seq<Seq<u8>> = seq![];
    proof {
        assert(resumed(done, trivia_from(bytes@, 0, grammar)).bodies =~= trivia_from(bytes@, 0, grammar).bodies);
        assert(text_views(out@) + comment_texts(done) =~= text_views(out@));
    }
    loop
        invariant
            n <= bytes.len(),
            trivia_from(bytes@, 0, grammar) == resumed(done, trivia_from(bytes@, n as int, grammar)),
            collect ==> text_views(out@) == text_views(old(out)@) + comment_texts(done),
            collect ==> out@.len() == old(out)@.len() + done.len(),
            collect ==> texts_decode(out@, old(out)@.len() as int, trivia_from(bytes@, 0, grammar).bodies),
            !collect ==> out@ == old(out)@,
        decreases bytes.len() - n,
    {
        let ghost whole = trivia_from(bytes@, 0, grammar);
        let ghost here = trivia_from(bytes@, n as int, grammar);
        let at = scan_to(StopSet::Ws, bytes, n);
        if grammar.json5 && is_json5_ws_at(bytes, at) {
            n = at + 3;
        } else if grammar.comments && bytes.len() - at >= 2 && bytes[at] == SLASH && bytes[at + 1] == SLASH {
            let end = find_line_end(bytes, at + 2);
            let ghost body = line_comment_body(bytes@, at + 2, end as int);
            proof {
                lemma_comment_texts_push(done, body);
                assert(whole.bodies.take(done.len() as int) =~= done);
                assert(done.push(body) =~= done + seq![body]);
                if end < bytes.len() {
                    let rest = trivia_from(bytes@, end as int, grammar);
                    assert(whole.bodies =~= done.push(body) + rest.bodies);
                    assert(whole == resumed(done.push(body), rest));
                } else {
                    assert(whole.bodies =~= done.push(body));
                }
            }
            let ghost before = out@;
            if collect {
                match push_comment(out, stripped_range(bytes, at + 2, end, end < bytes.len(), CR)) {
                    Ok(_) => {
                        assert(text_views(out@) =~= text_views(old(out)@) + comment_texts(done.push(body)));
                        proof {
                            assert(text_views(out@).drop_last() =~= text_views(before));
                            lemma_text_decodes(before, out@, old(out)@.len() as int, done, body, whole.bodies);
                        }
                    }
                    Err(error) => {
                        assert(text_views(out@) == text_views(old(out)@) + comment_texts(
                            whole.bodies.take(done.len() as int),
                        ));
                        return Err(error);
                    }
                }
            }
            proof {
                done = done.push(body);
            }
            if end == bytes.len() {
                return Ok((end, true));
            }
            n = end;
        } else if grammar.comments && bytes.len() - at >= 2 && bytes[at] == SLASH && bytes[at + 1] == STAR {
            let end = find_block_close(bytes, at + 2);
            let ghost body = block_comment_body(bytes@, at + 2, end as int);
            proof {
                lemma_comment_texts_push(done, body);
                assert(whole.bodies.take(done.len() as int) =~= done);
                assert(done.push(body) =~= done + seq![body]);
                if end < bytes.len() {
                    let rest = trivia_from(bytes@, end + 2, grammar);
                    assert(whole.bodies =~= done.push(body) + rest.bodies);
                    assert(whole == resumed(done.push(body), rest));
                } else {
                    assert(whole.bodies =~= done.push(body));
                }
            }
            let ghost before = out@;
            if collect {
                match push_comment(out, stripped_range(bytes, at + 2, end, end < bytes.len(), SPACE)) {
                    Ok(_) => {
                        assert(text_views(out@) =~= text_views(old(out)@) + comment_texts(done.push(body)));
                        proof {
                            assert(text_views(out@).drop_last() =~= text_views(before));
                            lemma_text_decodes(before, out@, old(out)@.len() as int, done, body, whole.bodies);
                        }
                    }
                    Err(error) => {
                        assert(text_views(out@) == text_views(old(out)@) + comment_texts(
                            whole.bodies.take(done.len() as int),
                        ));
                        return Err(error);
                    }
                }
            }
            proof {
                done = done.push(body);
            }
            if end == bytes.len() {
                return Ok((end, true));
            }
            n = end + 2;
        } else {
            assert(whole.bodies =~= done);
            return Ok((at, false));
        }
    }
}

/// Longest prefix of `bytes` that is JSON trivia: whitespace plus — when the grammar arms comments — `//` line and
/// `/* */` block comments. JSON5's whitespace adds U+2028, U+2029 and U+FEFF to the RFC 8259 four. With both dials off
/// this is exactly [`ws_prefix_len`].
///
/// A comment that never closes (an unterminated `/*`) consumes the rest of the buffer as trivia; the parse then fails at
/// the missing value or close, so the malformed input is still rejected.
///
/// When `comments` is `Some`, each skipped comment's TEXT (the bytes after the opening marker with exactly one following
/// space stripped) is appended to it. Only that collection can fail, and only on a refused reservation; the run then
/// holds the texts that came before the refused one.
///
/// Returns the prefix length plus whether the scan ended INSIDE a comment whose terminator (`\n` for `//`, `*/` for
/// `/*`) was not found before the buffer end. A buffer that IS the whole source means the comment genuinely runs to the
/// end, while a window cut mid-run means the terminator lies beyond it and the scan must be retried over a larger
/// window.
pub fn trivia_prefix_len(bytes: &[u8], grammar: JsonGrammar, comments: Option<&mut Vec<String>>) -> (found: Result<
    (usize, bool),
    ResourceError,
>)
    ensures
        ({
            let trivia = trivia_from(bytes@, 0, grammar);
            match found {
                Ok((len, open)) => {
                    &&& len == trivia.end
                    &&& len <= bytes.len()
                    &&& open == trivia.open
                    &&& comments matches Some(out) ==> text_views(final(out)@) == text_views(out@) + comment_texts(
                        trivia.bodies,
                    ) && texts_decode(final(out)@, out@.len() as int, trivia.bodies)
                },
                Err(_) => {
                    &&& comments matches Some(out)
                    &&& exists|k: int|
                        0 <= k < trivia.bodies.len() && text_views(final(out)@) == text_views(out@)
                            + #[trigger] comment_texts(trivia.bodies.take(k))
                    &&& texts_decode(final(out)@, out@.len() as int, trivia.bodies)
                },
            }
        }),
{
    match comments {
        None => {
            let mut unused: Vec<String> = Vec::new();
            scan_trivia(bytes, grammar, false, &mut unused)
        }
        Some(out) => scan_trivia(bytes, grammar, true, out),
    }
}

/// With every dial off, trivia is exactly JSON whitespace: nothing is open and no comment is passed.
pub proof fn lemma_strict_trivia_is_whitespace(bytes: Seq<u8>, grammar: JsonGrammar)
    requires
        !grammar.comments,
        !grammar.json5,
    ensures
        trivia_from(bytes, 0, grammar).end == run_end(bytes, 0, StopSet::Ws),
        !trivia_from(bytes, 0, grammar).open,
        trivia_from(bytes, 0, grammar).bodies.len() == 0,
{
}

/// Trivia ends inside the input, and only an open comment reaches its end without more to say: the scan stops at a byte
/// that starts neither whitespace nor, where they are armed, a comment.
pub proof fn lemma_trivia_stops_at_content(bytes: Seq<u8>, from: int, grammar: JsonGrammar)
    requires
        0 <= from <= bytes.len(),
    ensures
        ({
            let trivia = trivia_from(bytes, from, grammar);
            &&& from <= trivia.end <= bytes.len()
            &&& trivia.open ==> trivia.end == bytes.len() && grammar.comments && trivia.bodies.len() > 0
            &&& trivia.end < bytes.len() ==> {
                &&& !json_ws(bytes[trivia.end])
                &&& !(grammar.json5 && json5_ws_at(bytes, trivia.end))
                &&& !(grammar.comments && trivia.end + 1 < bytes.len() && bytes[trivia.end] == SLASH && (bytes[trivia.end
                    + 1] == SLASH || bytes[trivia.end + 1] == STAR))
            }
        }),
    decreases bytes.len() - from,
{
    lemma_run_end(bytes, from, StopSet::Ws);
    let at = run_end(bytes, from, StopSet::Ws);
    if at + 2 <= bytes.len() {
        lemma_line_end(bytes, at + 2);
        lemma_block_close(bytes, at + 2);
    }
    if grammar.json5 && json5_ws_at(bytes, at) {
        lemma_trivia_stops_at_content(bytes, at + 3, grammar);
    } else if grammar.comments && at + 1 < bytes.len() && bytes[at] == SLASH && bytes[at + 1] == SLASH {
        let end = line_end(bytes, at + 2);
        if end < bytes.len() {
            lemma_trivia_stops_at_content(bytes, end, grammar);
        }
    } else if grammar.comments && at + 1 < bytes.len() && bytes[at] == SLASH && bytes[at + 1] == STAR {
        let end = block_close(bytes, at + 2);
        if end < bytes.len() {
            lemma_trivia_stops_at_content(bytes, end + 2, grammar);
        }
    }
}

/// Length of the longest valid UTF-8 prefix of `bytes` that ends on a scalar boundary.
pub open spec fn valid_up_to(bytes: Seq<u8>) -> int
    decreases bytes.len(),
{
    if bytes.len() > 0 && valid_first_scalar(bytes) {
        length_of_first_scalar(bytes) + valid_up_to(pop_first_scalar(bytes))
    } else {
        0
    }
}

/// Whether `bytes` is the start of a scalar's encoding and not the whole of it: more bytes could complete it.
pub open spec fn cut_short(bytes: Seq<u8>) -> bool {
    &&& bytes.len() > 0
    &&& !valid_first_scalar(bytes)
    &&& exists|more: Seq<u8>| #[trigger] valid_first_scalar(bytes + more)
}

/// How many continuation bytes a lead byte demands.
pub open spec fn continuations(byte: u8) -> Option<usize> {
    if 0xc2 <= byte <= 0xdf {
        Some(1)
    } else if 0xe0 <= byte <= 0xef {
        Some(2)
    } else if 0xf0 <= byte <= 0xf4 {
        Some(3)
    } else {
        None
    }
}

/// Whether `second` may follow `lead`: the second-byte ranges keep 3- and 4-byte sequences out of the overlong and
/// surrogate encodings and below U+10FFFF.
pub open spec fn second_allowed(lead: u8, second: u8) -> bool {
    &&& 0x80 <= second <= 0xbf
    &&& lead == 0xe0 ==> second >= 0xa0
    &&& lead == 0xed ==> second <= 0x9f
    &&& lead == 0xf0 ==> second >= 0x90
    &&& lead == 0xf4 ==> second <= 0x8f
}

/// Whether `bytes` starts with a scalar, read off byte ranges.
pub open spec fn starts_by_ranges(bytes: Seq<u8>) -> bool {
    &&& bytes.len() > 0
    &&& bytes[0] >= 0x80 ==> {
        &&& continuations(bytes[0]) matches Some(total)
        &&& bytes.len() > total
        &&& second_allowed(bytes[0], bytes[1])
        &&& total >= 2 ==> 0x80 <= bytes[2] <= 0xbf
        &&& total >= 3 ==> 0x80 <= bytes[3] <= 0xbf
    }
}

proof fn lemma_scalar_ranges_3(a: u8, b: u8, c: u8)
    requires
        0xe0 <= a <= 0xef,
        0x80 <= b <= 0xbf,
        0x80 <= c <= 0xbf,
    ensures
        ({
            let point = vstd::utf8::codepoint_width_3(a, b, c);
            (point >= 0x800 && !(0xd800 <= point <= 0xdfff)) <==> (a == 0xe0 ==> b >= 0xa0) && (a == 0xed ==> b <= 0x9f)
        }),
{
    let point = vstd::utf8::codepoint_width_3(a, b, c);
    assert(((point >= 0x800 && !(0xd800 <= point && point <= 0xdfff)) <==> ((a == 0xe0 ==> b >= 0xa0) && (a == 0xed
        ==> b <= 0x9f)))) by (bit_vector)
        requires
            0xe0 <= a <= 0xef,
            0x80 <= b <= 0xbf,
            0x80 <= c <= 0xbf,
            point == (((a & 0x0f) as u32) << 12 | ((b & 0x3f) as u32) << 6 | ((c & 0x3f) as u32)),
    ;
}

proof fn lemma_scalar_ranges_4(a: u8, b: u8, c: u8, d: u8)
    requires
        0xf0 <= a <= 0xf7,
        0x80 <= b <= 0xbf,
        0x80 <= c <= 0xbf,
        0x80 <= d <= 0xbf,
    ensures
        ({
            let point = vstd::utf8::codepoint_width_4(a, b, c, d);
            &&& (0x10000 <= point <= 0x10ffff) <==> a <= 0xf4 && (a == 0xf0 ==> b >= 0x90) && (a == 0xf4 ==> b <= 0x8f)
            &&& a <= 0xf4 && (a == 0xf0 ==> b >= 0x90) && (a == 0xf4 ==> b <= 0x8f) ==> !(0xd800 <= point <= 0xdfff)
        }),
{
    let point = vstd::utf8::codepoint_width_4(a, b, c, d);
    assert(((0x10000 <= point && point <= 0x10ffff) <==> (a <= 0xf4 && (a == 0xf0 ==> b >= 0x90) && (a == 0xf4 ==> b
        <= 0x8f)))) by (bit_vector)
        requires
            0xf0 <= a <= 0xf7,
            0x80 <= b <= 0xbf,
            0x80 <= c <= 0xbf,
            0x80 <= d <= 0xbf,
            point == (((a & 0x07) as u32) << 18 | ((b & 0x3f) as u32) << 12 | ((c & 0x3f) as u32) << 6 | ((d
                & 0x3f) as u32)),
    ;
}

proof fn lemma_scalar_ranges_2(a: u8, b: u8)
    requires
        0xc0 <= a <= 0xdf,
        0x80 <= b <= 0xbf,
    ensures
        ({
            let point = vstd::utf8::codepoint_width_2(a, b);
            &&& (point >= 0x80) <==> a >= 0xc2
            &&& point < 0x800
        }),
{
    let point = vstd::utf8::codepoint_width_2(a, b);
    assert((point >= 0x80 <==> a >= 0xc2) && point < 0x800) by (bit_vector)
        requires
            0xc0 <= a <= 0xdf,
            0x80 <= b <= 0xbf,
            point == (((a & 0x1f) as u32) << 6 | ((b & 0x3f) as u32)),
    ;
}

/// The byte-range reading of a leading scalar is the decoder's.
pub proof fn lemma_starts_by_ranges(bytes: Seq<u8>)
    ensures
        valid_first_scalar(bytes) <==> starts_by_ranges(bytes),
        starts_by_ranges(bytes) ==> length_of_first_scalar(bytes) == if bytes[0] < 0x80 {
            1
        } else {
            continuations(bytes[0])->0 + 1
        },
{
    if bytes.len() >= 1 && bytes[0] < 0x80 {
        let a = bytes[0];
        assert((a & 0x7f) as u32 <= 0x7f) by (bit_vector);
    }
    if bytes.len() >= 2 && 0xc0 <= bytes[0] <= 0xdf && 0x80 <= bytes[1] <= 0xbf {
        lemma_scalar_ranges_2(bytes[0], bytes[1]);
    }
    if bytes.len() >= 3 && 0xe0 <= bytes[0] <= 0xef && 0x80 <= bytes[1] <= 0xbf && 0x80 <= bytes[2] <= 0xbf {
        lemma_scalar_ranges_3(bytes[0], bytes[1], bytes[2]);
    }
    if bytes.len() >= 4 && 0xf0 <= bytes[0] <= 0xf7 && 0x80 <= bytes[1] <= 0xbf && 0x80 <= bytes[2] <= 0xbf && 0x80
        <= bytes[3] <= 0xbf {
        lemma_scalar_ranges_4(bytes[0], bytes[1], bytes[2], bytes[3]);
    }
}

/// Whether `bytes` is a lead with some, and not all, of the continuations it demands.
spec fn partial_by_ranges(bytes: Seq<u8>) -> bool {
    &&& bytes.len() > 0
    &&& continuations(bytes[0]) matches Some(total)
    &&& bytes.len() <= total
    &&& bytes.len() >= 2 ==> second_allowed(bytes[0], bytes[1])
    &&& bytes.len() >= 3 ==> 0x80 <= bytes[2] <= 0xbf
}

/// The byte-range reading of a scalar cut short is the decoder's.
proof fn lemma_partial_by_ranges(bytes: Seq<u8>)
    ensures
        cut_short(bytes) <==> partial_by_ranges(bytes),
{
    lemma_starts_by_ranges(bytes);
    if cut_short(bytes) {
        let more = choose|more: Seq<u8>| #[trigger] valid_first_scalar(bytes + more);
        lemma_starts_by_ranges(bytes + more);
        assert((bytes + more)[0] == bytes[0]);
        if bytes.len() >= 2 {
            assert((bytes + more)[1] == bytes[1]);
        }
        if bytes.len() >= 3 {
            assert((bytes + more)[2] == bytes[2]);
        }
        if bytes.len() >= 4 {
            assert((bytes + more)[3] == bytes[3]);
        }
    }
    if partial_by_ranges(bytes) {
        let second: u8 = if bytes[0] == 0xe0 {
            0xa0
        } else if bytes[0] == 0xf0 {
            0x90
        } else {
            0x80
        };
        let more: Seq<u8> = if bytes.len() == 1 {
            seq![second, 0x80, 0x80]
        } else {
            seq![0x80u8, 0x80]
        };
        lemma_starts_by_ranges(bytes + more);
        assert(valid_first_scalar(bytes + more));
    }
}

/// Bytes of a multi-byte UTF-8 sequence that were truncated by a window boundary. Non-empty exactly when a lead (plus up
/// to three validated continuations) ended the previous window and the source has not ended; the first byte is the lead
/// and the others are the continuations already validated. The lead's absolute position is the window's base less the
/// carry's length.
#[derive(Clone, Copy, Debug)]
pub struct Utf8Carry {
    bytes: [u8; 4],
    len: u8,
}

impl Utf8Carry {
    /// The carried bytes.
    pub closed spec fn view(self) -> Seq<u8> {
        Seq::new(self.len as nat, |i: int| self.bytes@[i])
    }

    /// A carry holds nothing, or a scalar's encoding cut short.
    pub closed spec fn well_formed(self) -> bool {
        self.len <= 3 && (self.len > 0 ==> cut_short(self.view()))
    }

    /// What a well-formed carry holds.
    pub proof fn lemma_well_formed(self)
        requires
            self.well_formed(),
        ensures
            self.view().len() <= 3,
            self.view().len() > 0 ==> cut_short(self.view()),
    {
    }

    /// The empty carry: no truncated sequence pending.
    pub fn empty() -> (carry: Utf8Carry)
        ensures
            carry.view().len() == 0,
            carry.well_formed(),
    {
        Utf8Carry { bytes: [0, 0, 0, 0], len: 0 }
    }

    /// Whether no truncated sequence is pending. A scan of a window that is not the last and that returned no error
    /// leaves this false exactly when the window's last sequence needs bytes the window did not have.
    #[must_use]
    pub fn is_empty(self) -> (empty: bool)
        ensures
            empty == (self.view().len() == 0),
    {
        self.len == 0
    }

    /// The carried bytes.
    pub fn pending(&self) -> (bytes: &[u8])
        requires
            self.well_formed(),
        ensures
            bytes@ == self.view(),
    {
        vstd::slice::slice_subrange(self.bytes.as_slice(), 0, self.len as usize)
    }
}

impl Default for Utf8Carry {
    fn default() -> (carry: Utf8Carry)
        ensures
            carry.view().len() == 0,
            carry.well_formed(),
    {
        Utf8Carry::empty()
    }
}

/// A sequence the scan is inside of: the lead's absolute position, the lead, the continuations seen so far and how many
/// they are, and how many the lead demands.
#[derive(Clone, Copy)]
struct Pending {
    lead_at: usize,
    lead: u8,
    seen_bytes: [u8; 3],
    seen: usize,
    total: usize,
}

impl Pending {
    spec fn view(self) -> Seq<u8> {
        seq![self.lead] + self.seen_bytes@.take(self.seen as int)
    }

    spec fn well_formed(self) -> bool {
        &&& self.seen < self.total <= 3
        &&& continuations(self.lead) == Some(self.total)
        &&& partial_by_ranges(self.view())
    }
}

/// Continuations a lead byte demands, or `None` for a byte that cannot begin a multi-byte scalar (ASCII, continuations,
/// C0/C1, F5..=FF).
pub fn continuation_count(byte: u8) -> (count: Option<usize>)
    ensures
        count == continuations(byte),
{
    match byte {
        0xc2..=0xdf => Some(1),
        0xe0..=0xef => Some(2),
        0xf0..=0xf4 => Some(3),
        _ => None,
    }
}

/// The second-byte range laws that keep 3- and 4-byte sequences out of the overlong and surrogate encodings and below
/// U+10FFFF. Applied only to the FIRST continuation of a sequence.
pub fn special_second_violated(lead: u8, second: u8) -> (violated: bool)
    requires
        0x80 <= second <= 0xbf,
    ensures
        violated == !second_allowed(lead, second),
{
    match lead {
        0xe0 => second < 0xa0,
        0xed => second > 0x9f,
        0xf0 => second < 0x90,
        0xf4 => second > 0x8f,
        _ => false,
    }
}

/// Seeds the walk from a window carry: the lead's absolute position is `base` less the carry's length, because the
/// carried bytes are exactly the previous window's trailing sequence.
fn carry_to_seed(carry: Utf8Carry, base: usize) -> (seed: Option<Pending>)
    requires
        carry.well_formed(),
        carry.view().len() <= base,
    ensures
        match seed {
            Some(pending) => pending.well_formed() && pending.view() == carry.view() && pending.lead_at == base
                - carry.view().len(),
            None => carry.view().len() == 0,
        },
{
    if carry.len == 0 {
        return None;
    }
    proof {
        lemma_partial_by_ranges(carry.view());
        assert(carry.view()[0] == carry.bytes@[0]);
    }
    let lead = carry.bytes[0];
    let total = match continuation_count(lead) {
        Some(total) => total,
        None => 0,
    };
    let pending = Pending {
        lead_at: base - carry.len as usize,
        lead,
        seen_bytes: [carry.bytes[1], carry.bytes[2], carry.bytes[3]],
        seen: carry.len as usize - 1,
        total,
    };
    assert(pending.view() =~= carry.view());
    Some(pending)
}

/// A scan step over a whole scalar at `start` moves the valid prefix past it.
proof fn lemma_valid_up_to_step(bytes: Seq<u8>, start: int, next: int)
    requires
        0 <= start < next <= bytes.len(),
        valid_up_to(bytes) == start + valid_up_to(bytes.skip(start)),
        starts_by_ranges(bytes.skip(start)),
        next == start + if bytes[start] < 0x80 { 1 } else { continuations(bytes[start])->0 + 1 },
    ensures
        valid_up_to(bytes) == next + valid_up_to(bytes.skip(next)),
{
    lemma_starts_by_ranges(bytes.skip(start));
    assert(pop_first_scalar(bytes.skip(start)) =~= bytes.skip(next));
}

/// A sequence that can neither stand nor be completed ends the valid prefix.
proof fn lemma_valid_up_to_stops(bytes: Seq<u8>, start: int)
    requires
        0 <= start < bytes.len(),
        valid_up_to(bytes) == start + valid_up_to(bytes.skip(start)),
        !starts_by_ranges(bytes.skip(start)),
    ensures
        valid_up_to(bytes) == start,
        cut_short(bytes.skip(start)) == partial_by_ranges(bytes.skip(start)),
{
    lemma_starts_by_ranges(bytes.skip(start));
    lemma_partial_by_ranges(bytes.skip(start));
}

/// One more continuation completes a pending sequence or leaves it pending.
proof fn lemma_continued(stream: Seq<u8>, start: int, at: int)
    requires
        0 <= start < at < stream.len(),
        partial_by_ranges(stream.subrange(start, at)),
        0x80 <= stream[at] <= 0xbf,
        at == start + 1 ==> second_allowed(stream[start], stream[at]),
    ensures
        at - start == continuations(stream[start])->0 ==> starts_by_ranges(stream.skip(start)),
        at - start < continuations(stream[start])->0 ==> partial_by_ranges(stream.subrange(start, at + 1)),
{
    let part = stream.subrange(start, at);
    assert(part[0] == stream[start]);
    assert(part.len() >= 2 ==> part[1] == stream[start + 1]);
    assert(part.len() >= 3 ==> part[2] == stream[start + 2]);
}

/// A byte that cannot continue a pending sequence leaves it neither whole nor completable.
proof fn lemma_broken(stream: Seq<u8>, start: int, at: int)
    requires
        0 <= start < at < stream.len(),
        partial_by_ranges(stream.subrange(start, at)),
        !(0x80 <= stream[at] <= 0xbf) || (at == start + 1 && !second_allowed(stream[start], stream[at])),
    ensures
        !starts_by_ranges(stream.skip(start)),
        !partial_by_ranges(stream.skip(start)),
{
    let part = stream.subrange(start, at);
    let rest = stream.skip(start);
    assert(part[0] == stream[start]);
    assert(rest[0] == stream[start]);
    assert(part.len() >= 2 ==> part[1] == stream[start + 1] && rest[1] == part[1]);
    assert(part.len() >= 3 ==> part[2] == stream[start + 2] && rest[2] == part[2]);
    assert(rest[at - start] == stream[at]);
}

/// The scan's outcome over the carried bytes and one window, `stream`, that ends at absolute offset `end`.
pub open spec fn scan_outcome(stream: Seq<u8>, end: int, final_chunk: bool) -> (Option<int>, Seq<u8>) {
    let valid = valid_up_to(stream);
    let rest = stream.skip(valid);
    if rest.len() == 0 {
        (None, seq![])
    } else if !final_chunk && cut_short(rest) {
        (None, rest)
    } else {
        (Some(end - rest.len()), seq![])
    }
}

/// Validates `bytes` as UTF-8 from a KNOWN pending state (`seed`), so the walk never starts mid-sequence. Returns the
/// absolute position of the first invalid byte; on a valid-but-truncated end with `final_chunk` false, the pending
/// sequence is stored into `out_carry`.
fn scalar_utf8(
    bytes: &[u8],
    seed: Option<Pending>,
    base: usize,
    out_carry: &mut Utf8Carry,
    final_chunk: bool,
) -> (found: Option<usize>)
    requires
        base + bytes.len() <= usize::MAX,
        seed matches Some(pending) ==> pending.well_formed() && pending.lead_at + pending.view().len() == base,
    ensures
        ({
            let head: Seq<u8> = match seed {
                Some(pending) => pending.view(),
                None => seq![],
            };
            let outcome = scan_outcome(head + bytes@, base + bytes.len(), final_chunk);
            match found {
                Some(at) => outcome.0 == Some(at as int) && *final(out_carry) == *old(out_carry),
                None => outcome.0 is None && final(out_carry).view() == outcome.1 && final(out_carry).well_formed(),
            }
        }),
{
    let mut pending: Option<Pending> = seed;
    let mut p: usize = 0;
    let ghost head: Seq<u8> = match seed {
        Some(pending) => pending.view(),
        None => seq![],
    };
    let ghost stream = head + bytes@;
    let ghost mut start: int = 0;
    assert(stream.skip(0) =~= stream);
    proof {
        if seed is Some {
            assert(stream.subrange(0, head.len() as int) =~= head);
        }
    }
    while p < bytes.len()
        invariant
            p <= bytes.len(),
            base + bytes.len() <= usize::MAX,
            stream == head + bytes@,
            head.len() <= 3,
            0 <= start <= head.len() + p,
            valid_up_to(stream) == start + valid_up_to(stream.skip(start)),
            *out_carry == *old(out_carry),
            head == match seed {
                Some(pending) => pending.view(),
                None => seq![],
            },
            match pending {
                Some(pending) => {
                    &&& pending.well_formed()
                    &&& pending.view() == stream.subrange(start, head.len() + p)
                    &&& pending.lead_at + pending.view().len() == base + p
                },
                None => start == head.len() + p,
            },
        decreases bytes.len() - p,
    {
        let byte = bytes[p];
        let ghost q = (head.len() + p) as int;
        assert(byte == stream[q]);
        if let Some(held) = pending {
            assert(held.lead == held.view()[0] == stream[start]);
            assert(held.view().len() == held.seen + 1 == q - start);
            if 0x80 <= byte && byte <= 0xbf {
                let consumed = held.seen + 1;
                if consumed == 1 && special_second_violated(held.lead, byte) {
                    proof {
                        lemma_broken(stream, start, q);
                        lemma_valid_up_to_stops(stream, start);
                    }
                    return Some(held.lead_at);
                }
                proof {
                    lemma_continued(stream, start, q);
                }
                let mut seen_bytes = held.seen_bytes;
                seen_bytes[consumed - 1] = byte;
                if consumed == held.total {
                    proof {
                        lemma_valid_up_to_step(stream, start, q + 1);
                        start = q + 1;
                    }
                    pending = None;
                } else {
                    let next = Pending {
                        lead_at: held.lead_at,
                        lead: held.lead,
                        seen_bytes,
                        seen: consumed,
                        total: held.total,
                    };
                    assert(next.view() =~= held.view().push(byte));
                    assert(stream.subrange(start, q + 1) =~= stream.subrange(start, q).push(stream[q]));
                    pending = Some(next);
                }
            } else {
                proof {
                    lemma_broken(stream, start, q);
                    lemma_valid_up_to_stops(stream, start);
                }
                return Some(held.lead_at);
            }
        } else if byte < 0x80 {
            proof {
                assert(stream.skip(start)[0] == byte);
                lemma_valid_up_to_step(stream, start, q + 1);
                start = q + 1;
            }
        } else if let Some(total) = continuation_count(byte) {
            let next = Pending { lead_at: base + p, lead: byte, seen_bytes: [0, 0, 0], seen: 0, total };
            assert(next.view() =~= stream.subrange(start, q + 1));
            pending = Some(next);
        } else {
            // A continuation with no sequence to continue, a C0/C1 overlong lead, or F5..=FF.
            proof {
                assert(stream.skip(start)[0] == byte);
                lemma_valid_up_to_stops(stream, start);
            }
            return Some(base + p);
        }
        p += 1;
    }
    let ghost rest = stream.skip(start);
    if let Some(held) = pending {
        proof {
            assert(rest =~= stream.subrange(start, head.len() + p));
            lemma_valid_up_to_stops(stream, start);
        }
        if final_chunk {
            return Some(held.lead_at);
        }
        let carried = Utf8Carry {
            bytes: [held.lead, held.seen_bytes[0], held.seen_bytes[1], held.seen_bytes[2]],
            len: (held.seen + 1) as u8,
        };
        assert(carried.view() =~= rest);
        *out_carry = carried;
        return None;
    }
    assert(rest.len() == 0);
    *out_carry = Utf8Carry::empty();
    assert(out_carry.view() =~= seq![]);
    None
}

/// Scans `bytes` (one admission window, at absolute offset `base`) for the first byte that cannot begin or continue a
/// valid UTF-8 sequence, resuming any sequence truncated by the previous window from `carry`.
///
/// Returns the ABSOLUTE position of the first invalid byte — which may sit in the carried prefix, when a carried lead's
/// sequence is invalidated by this window's first byte. `final_chunk` must be true only for the last window of the
/// source: a truncated sequence at its end is then an error at the lead, and is otherwise carried into `carry` for the
/// next window. On return with no error, `carry` holds any newly truncated sequence (or is empty).
///
/// The error positions agree with `str::from_utf8`'s `valid_up_to`: an invalid sequence is reported at its lead byte, a
/// stray continuation at itself, and a truncated final sequence at its lead.
pub fn utf8_first_invalid(bytes: &[u8], base: usize, carry: &mut Utf8Carry, final_chunk: bool) -> (found: Option<
    usize,
>)
    requires
        old(carry).well_formed(),
        old(carry).view().len() <= base,
        base + bytes.len() <= usize::MAX,
    ensures
        ({
            let outcome = scan_outcome(old(carry).view() + bytes@, base + bytes.len(), final_chunk);
            match found {
                Some(at) => outcome.0 == Some(at as int) && *final(carry) == *old(carry),
                None => outcome.0 is None && final(carry).view() == outcome.1 && final(carry).well_formed(),
            }
        }),
{
    let seed = carry_to_seed(*carry, base);
    proof {
        if seed is None {
            assert(carry.view() =~= seq![]);
        }
    }
    scalar_utf8(bytes, seed, base, carry, final_chunk)
}

/// The valid prefix of a stream is not moved by what follows a sequence that nothing can complete, nor by how a stream
/// is cut: with `left` valid up to `valid_up_to(left)`, scanning on from there finds the valid prefix of the whole.
pub proof fn lemma_valid_up_to_resumes(left: Seq<u8>, right: Seq<u8>)
    ensures
        ({
            let valid = valid_up_to(left);
            &&& 0 <= valid <= left.len()
            &&& valid_up_to(left + right) == valid + valid_up_to(left.skip(valid) + right)
        }),
    decreases left.len(),
{
    if left.len() > 0 && valid_first_scalar(left) {
        let first = length_of_first_scalar(left);
        lemma_starts_by_ranges(left);
        lemma_starts_by_ranges(left + right);
        assert(forall|k: int| 0 <= k < left.len() ==> (left + right)[k] == left[k]);
        lemma_valid_up_to_resumes(pop_first_scalar(left), right);
        let rest = pop_first_scalar(left);
        assert(pop_first_scalar(left + right) =~= rest + right);
        assert(left.skip(valid_up_to(left)) =~= rest.skip(valid_up_to(rest)));
    } else {
        assert(left.skip(0) =~= left);
    }
}

/// Windows agree with the whole: whether a stream is scanned in one piece or a first window is scanned on its own and the
/// rest resumes from its carry, the same first invalid position — or none — comes out.
pub proof fn lemma_windows_agree(left: Seq<u8>, right: Seq<u8>, final_chunk: bool)
    ensures
        ({
            let end = (left.len() + right.len()) as int;
            let whole = scan_outcome(left + right, end, final_chunk);
            let first = scan_outcome(left, left.len() as int, false);
            match first.0 {
                Some(at) => whole.0 == Some(at),
                None => whole == scan_outcome(first.1 + right, end, final_chunk),
            }
        }),
{
    lemma_valid_up_to_resumes(left, right);
    let valid = valid_up_to(left);
    let rest = left.skip(valid);
    let joined = rest + right;
    lemma_valid_up_to_stops_at_end(left);
    lemma_valid_up_to_resumes(joined, seq![]);
    assert((left + right).skip(valid_up_to(left + right)) =~= joined.skip(valid_up_to(joined)));
    if rest.len() > 0 && !cut_short(rest) {
        assert(!valid_first_scalar(joined)) by {
            if valid_first_scalar(joined) {
                assert(cut_short(rest));
            }
        }
        assert(joined.skip(0) =~= joined);
        assert(!cut_short(joined)) by {
            if cut_short(joined) {
                let more = choose|more: Seq<u8>| #[trigger] valid_first_scalar(joined + more);
                assert(joined + more =~= rest + (right + more));
                assert(valid_first_scalar(rest + (right + more)));
            }
        }
    }
}

/// What follows the valid prefix starts no scalar.
proof fn lemma_valid_up_to_stops_at_end(bytes: Seq<u8>)
    ensures
        0 <= valid_up_to(bytes) <= bytes.len(),
        !valid_first_scalar(bytes.skip(valid_up_to(bytes))),
    decreases bytes.len(),
{
    if bytes.len() > 0 && valid_first_scalar(bytes) {
        let rest = pop_first_scalar(bytes);
        lemma_valid_up_to_stops_at_end(rest);
        assert(bytes.skip(valid_up_to(bytes)) =~= rest.skip(valid_up_to(rest)));
    } else {
        assert(bytes.skip(0) =~= bytes);
    }
}

/// A whole source, scanned as its last window, has no invalid position exactly when it is valid UTF-8.
pub proof fn lemma_scan_finds_nothing_iff_valid(bytes: Seq<u8>)
    ensures
        scan_outcome(bytes, bytes.len() as int, true).0 is None <==> valid_utf8(bytes),
    decreases bytes.len(),
{
    lemma_valid_up_to_stops_at_end(bytes);
    if bytes.len() > 0 && valid_first_scalar(bytes) {
        let rest = pop_first_scalar(bytes);
        lemma_scan_finds_nothing_iff_valid(rest);
        lemma_valid_up_to_stops_at_end(rest);
        assert(bytes.skip(valid_up_to(bytes)) =~= rest.skip(valid_up_to(rest)));
    } else {
        assert(bytes.skip(0) =~= bytes);
    }
}

} // verus!
