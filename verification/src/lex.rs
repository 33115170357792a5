//! Stateless byte-level lexing primitives: non-finite spellings, byte-order marks, boundaries, key fingerprints, string
//! runs, unicode escapes, and hexadecimal literals.

use vstd::prelude::*;

use crate::ascii::{
    APOSTROPHE, BACKSLASH, CLOSE_BRACE, CLOSE_BRACKET, COMMA, LOWER_A, LOWER_F, LOWER_I, LOWER_N, LOWER_S, LOWER_T,
    LOWER_Y, MINUS, NINE, ONE, OPEN_BRACE, OPEN_BRACKET, QUOTE, UPPER_A, UPPER_F, UPPER_Z, ZERO,
};

use crate::byte_scan::{is_json_ws, json_ws, run_end, scan_to, StopSet};
use crate::error::{unsupported_hex_number, CodecFailureKind, Diagnosis, MSG_HEX_SCALE, NUMBER_SCALE_OUT_OF_RANGE};
use crate::number::{digit_run_end, is_digit};

verus! {

/// A byte's ASCII lowercase.
pub open spec fn lowered(byte: u8) -> u8 {
    if UPPER_A <= byte <= UPPER_Z {
        (byte + 0x20) as u8
    } else {
        byte
    }
}

/// Whether `bytes` is `word` up to ASCII case, `word` being lowercase.
pub open spec fn same_ignoring_case(bytes: Seq<u8>, word: Seq<u8>) -> bool {
    bytes.len() == word.len() && forall|i: int| 0 <= i < word.len() ==> lowered(#[trigger] bytes[i]) == word[i]
}

/// Whether `bytes` holds `word` at `offset`, up to ASCII case.
pub open spec fn word_at(bytes: Seq<u8>, offset: int, word: Seq<u8>) -> bool {
    0 <= offset && offset + word.len() <= bytes.len() && same_ignoring_case(
        bytes.subrange(offset, offset + word.len()),
        word,
    )
}

/// `infinity`.
pub open spec fn infinity_word() -> Seq<u8> {
    seq![LOWER_I, LOWER_N, LOWER_F, LOWER_I, LOWER_N, LOWER_I, LOWER_T, LOWER_Y]
}

/// `snan`.
pub open spec fn snan_word() -> Seq<u8> {
    seq![LOWER_S, LOWER_N, LOWER_A, LOWER_N]
}

/// `nan`.
pub open spec fn nan_word() -> Seq<u8> {
    seq![LOWER_N, LOWER_A, LOWER_N]
}

/// `inf`.
pub open spec fn inf_word() -> Seq<u8> {
    seq![LOWER_I, LOWER_N, LOWER_F]
}

/// The length of the non-finite spelling at `offset`: `infinity` before its own prefix `inf`.
pub open spec fn nonfinite_prefix(bytes: Seq<u8>, offset: int) -> Option<usize> {
    if word_at(bytes, offset, infinity_word()) {
        Some(8)
    } else if word_at(bytes, offset, snan_word()) {
        Some(4)
    } else if word_at(bytes, offset, nan_word()) || word_at(bytes, offset, inf_word()) {
        Some(3)
    } else {
        None
    }
}

/// A byte that ends a bare-word value.
pub open spec fn delimiter(byte: u8) -> bool {
    json_ws(byte) || byte == COMMA || byte == CLOSE_BRACKET || byte == CLOSE_BRACE
}

/// A byte that may stand right after a bare-word value.
pub open spec fn value_boundary(byte: u8) -> bool {
    delimiter(byte) || byte == QUOTE || byte == OPEN_BRACKET || byte == OPEN_BRACE
}

/// Whether a bare word that ends at `end` ends at a boundary: the end of the input is one.
pub open spec fn ends_at_boundary(bytes: Seq<u8>, end: int) -> bool {
    end < bytes.len() ==> value_boundary(bytes[end])
}

/// Whether `bytes` is the start of `word`, up to ASCII case, and not the whole of it.
pub open spec fn proper_start(bytes: Seq<u8>, word: Seq<u8>) -> bool {
    bytes.len() < word.len() && same_ignoring_case(bytes, word.take(bytes.len() as int))
}

/// `byte` in ASCII lowercase.
fn to_lower(byte: u8) -> (lower: u8)
    ensures
        lower == lowered(byte),
{
    match byte {
        UPPER_A..=UPPER_Z => byte + 0x20,
        _ => byte,
    }
}

/// Whether `bytes` holds `word`, lowercase, at `offset`, up to ASCII case.
fn holds_word(bytes: &[u8], offset: usize, word: &[u8]) -> (holds: bool)
    ensures
        holds == word_at(bytes@, offset as int, word@),
{
    if offset > bytes.len() || bytes.len() - offset < word.len() {
        return false;
    }
    let ghost part = bytes@.subrange(offset as int, offset + word.len());
    let mut i: usize = 0;
    while i < word.len()
        invariant
            i <= word.len(),
            offset + word.len() <= bytes.len(),
            part == bytes@.subrange(offset as int, offset + word.len()),
            forall|k: int| 0 <= k < i ==> lowered(#[trigger] part[k]) == word@[k],
        decreases word.len() - i,
    {
        assert(part[i as int] == bytes@[offset + i]);
        if to_lower(bytes[offset + i]) != word[i] {
            return false;
        }
        i += 1;
    }
    true
}

/// The byte length of a complete non-finite spelling at `offset` — `snan` (4), `nan` (3), `inf` (3), or `infinity` (8),
/// case-insensitive — IGNORING the value-boundary law. `None` when the bytes are not a complete spelling.
pub fn nonfinite_spelling_prefix_len(bytes: &[u8], offset: usize) -> (length: Option<usize>)
    ensures
        length == nonfinite_prefix(bytes@, offset as int),
        length matches Some(len) ==> offset + len <= bytes.len(),
{
    let infinity: [u8; 8] = [LOWER_I, LOWER_N, LOWER_F, LOWER_I, LOWER_N, LOWER_I, LOWER_T, LOWER_Y];
    let snan: [u8; 4] = [LOWER_S, LOWER_N, LOWER_A, LOWER_N];
    let nan: [u8; 3] = [LOWER_N, LOWER_A, LOWER_N];
    let inf: [u8; 3] = [LOWER_I, LOWER_N, LOWER_F];
    assert(infinity@ =~= infinity_word());
    assert(snan@ =~= snan_word());
    assert(nan@ =~= nan_word());
    assert(inf@ =~= inf_word());
    if holds_word(bytes, offset, &infinity) {
        Some(8)
    } else if holds_word(bytes, offset, &snan) {
        Some(4)
    } else if holds_word(bytes, offset, &nan) || holds_word(bytes, offset, &inf) {
        Some(3)
    } else {
        None
    }
}

/// The consumed byte length of a non-finite spelling at `offset` with the ordinary literal's value-boundary law, or
/// `None` when the bytes are not a complete non-finite token: `nanx` and `inf1` are one malformed token each.
pub fn nonfinite_spelling_len(bytes: &[u8], offset: usize) -> (length: Option<usize>)
    ensures
        length == match nonfinite_prefix(bytes@, offset as int) {
            Some(len) => if ends_at_boundary(bytes@, offset + len) {
                Some(len)
            } else {
                None
            },
            None => None,
        },
{
    match nonfinite_spelling_prefix_len(bytes, offset) {
        Some(length) => {
            let end = offset + length;
            if end < bytes.len() && !is_value_boundary(bytes[end]) {
                None
            } else {
                Some(length)
            }
        }
        None => None,
    }
}

/// A number that is not finite.
#[derive(Clone, Copy, Debug, PartialEq, Eq, Structural)]
pub enum NonFinite {
    /// Not a number: one value, whatever the spelling and the sign.
    Nan,
    /// Positive infinity.
    Infinity,
    /// Negative infinity.
    NegativeInfinity,
}

/// The non-finite value spelled at `offset` under a sign already read, and the spelling's length. Every NaN spelling is
/// the one NaN, whatever its sign; an infinity keeps its sign.
pub fn nonfinite_literal(bytes: &[u8], offset: usize, negative: bool) -> (literal: Option<(NonFinite, usize)>)
    ensures
        match nonfinite_prefix(bytes@, offset as int) {
            Some(len) => if ends_at_boundary(bytes@, offset + len) {
                literal == Some(
                    (
                        if word_at(bytes@, offset as int, nan_word()) || word_at(bytes@, offset as int, snan_word()) {
                            NonFinite::Nan
                        } else if negative {
                            NonFinite::NegativeInfinity
                        } else {
                            NonFinite::Infinity
                        },
                        len,
                    ),
                )
            } else {
                literal is None
            },
            None => literal is None,
        },
{
    let length = match nonfinite_spelling_len(bytes, offset) {
        Some(length) => length,
        None => return None,
    };
    let snan: [u8; 4] = [LOWER_S, LOWER_N, LOWER_A, LOWER_N];
    let nan: [u8; 3] = [LOWER_N, LOWER_A, LOWER_N];
    assert(snan@ =~= snan_word());
    assert(nan@ =~= nan_word());
    let value = if holds_word(bytes, offset, &nan) || holds_word(bytes, offset, &snan) {
        NonFinite::Nan
    } else if negative {
        NonFinite::NegativeInfinity
    } else {
        NonFinite::Infinity
    };
    Some((value, length))
}

/// Whether the bytes from `offset` are a proper start of `word`.
fn starts_word(bytes: &[u8], offset: usize, word: &[u8]) -> (starts: bool)
    requires
        offset <= bytes.len(),
    ensures
        starts == proper_start(bytes@.skip(offset as int), word@),
{
    let rest = bytes.len() - offset;
    if rest >= word.len() {
        return false;
    }
    let ghost tail = bytes@.skip(offset as int);
    let ghost head = word@.take(rest as int);
    let mut i: usize = 0;
    while i < rest
        invariant
            i <= rest < word.len(),
            rest == bytes.len() - offset,
            offset <= bytes.len(),
            tail == bytes@.skip(offset as int),
            head == word@.take(rest as int),
            forall|k: int| 0 <= k < i ==> lowered(#[trigger] tail[k]) == head[k],
        decreases rest - i,
    {
        assert(tail[i as int] == bytes@[offset + i]);
        assert(head[i as int] == word@[i as int]);
        if to_lower(bytes[offset + i]) != word[i] {
            return false;
        }
        i += 1;
    }
    true
}

/// Whether the bytes from `offset` run out in the MIDDLE of a non-finite spelling: what is present is a nonempty proper
/// prefix of one and the window ends there (`infi`, `sna`, `na`). Such a cut is an incomplete token, not a wrong byte.
///
/// A COMPLETE spelling can also be a proper prefix of a longer one (`inf` of `infinity`), so a caller checks
/// completeness first.
pub fn nonfinite_spelling_truncated(bytes: &[u8], offset: usize) -> (truncated: bool)
    ensures
        truncated == (offset < bytes.len() && {
            let rest = bytes@.skip(offset as int);
            ||| proper_start(rest, infinity_word())
            ||| proper_start(rest, snan_word())
            ||| proper_start(rest, nan_word())
            ||| proper_start(rest, inf_word())
        }),
{
    if offset >= bytes.len() {
        return false;
    }
    let infinity: [u8; 8] = [LOWER_I, LOWER_N, LOWER_F, LOWER_I, LOWER_N, LOWER_I, LOWER_T, LOWER_Y];
    let snan: [u8; 4] = [LOWER_S, LOWER_N, LOWER_A, LOWER_N];
    let nan: [u8; 3] = [LOWER_N, LOWER_A, LOWER_N];
    let inf: [u8; 3] = [LOWER_I, LOWER_N, LOWER_F];
    assert(infinity@ =~= infinity_word());
    assert(snan@ =~= snan_word());
    assert(nan@ =~= nan_word());
    assert(inf@ =~= inf_word());
    starts_word(bytes, offset, &infinity) || starts_word(bytes, offset, &snan) || starts_word(bytes, offset, &nan)
        || starts_word(bytes, offset, &inf)
}

/// The UTF-8 byte-order mark an input may carry before its first value (RFC 8259 §8.1). It is not part of any value.
pub open spec fn byte_order_mark() -> Seq<u8> {
    seq![0xef, 0xbb, 0xbf]
}

/// Whether `bytes` is a nonempty PROPER prefix of the byte-order mark, and so ends mid-mark: the mark was split by a read
/// boundary rather than mistyped.
pub fn byte_order_mark_truncated(bytes: &[u8]) -> (truncated: bool)
    ensures
        truncated == (0 < bytes.len() < 3 && bytes@.is_prefix_of(byte_order_mark())),
{
    let truncated = match bytes.len() {
        1 => bytes[0] == 0xef,
        2 => bytes[0] == 0xef && bytes[1] == 0xbb,
        _ => false,
    };
    proof {
        let mark = byte_order_mark();
        if bytes.len() == 1 {
            assert(mark.take(1)[0] == mark[0]);
            assert(truncated ==> bytes@ =~= mark.take(1));
        }
        if bytes.len() == 2 {
            assert(mark.take(2)[0] == mark[0] && mark.take(2)[1] == mark[1]);
            assert(truncated ==> bytes@ =~= mark.take(2));
        }
    }
    truncated
}

/// Whether `bytes` starts with the byte-order mark.
pub fn starts_with_byte_order_mark(bytes: &[u8]) -> (marked: bool)
    ensures
        marked == byte_order_mark().is_prefix_of(bytes@),
{
    if bytes.len() < 3 {
        return false;
    }
    let marked = bytes[0] == 0xef && bytes[1] == 0xbb && bytes[2] == 0xbf;
    proof {
        let mark = byte_order_mark();
        assert(bytes@.take(3)[0] == bytes@[0] && bytes@.take(3)[1] == bytes@[1] && bytes@.take(3)[2] == bytes@[2]);
        assert(marked ==> bytes@.take(3) =~= mark);
    }
    marked
}

/// Whether `byte` ends a bare-word value: JSON whitespace, `,`, `]`, `}`.
pub fn is_delimiter(byte: u8) -> (ends: bool)
    ensures
        ends == delimiter(byte),
{
    is_json_ws(byte) || matches!(byte, COMMA | CLOSE_BRACKET | CLOSE_BRACE)
}

/// Reports whether `byte` may immediately follow a completed bare-word value (a number or a `true`/`false`/`null`
/// literal). A bare word ends at whitespace, a structural delimiter, or the start of a self-delimiting value (`"`, `[`,
/// `{`) — so `1"a"`, `1[2]`, and `null"a"` are two adjacent values — but two bare words with no separator (`1x`, `truex`,
/// `1-2`) are one malformed token. End of input is handled by the callers as its own accepting boundary.
pub fn is_value_boundary(byte: u8) -> (boundary: bool)
    ensures
        boundary == value_boundary(byte),
{
    is_delimiter(byte) || matches!(byte, QUOTE | OPEN_BRACKET | OPEN_BRACE)
}

/// Conservative-low divisor turning source length into an initial arena reservation, for a source too short to be
/// reprojected and so sized to carry the whole document.
pub const SOURCE_BYTES_PER_ARENA_SLOT_ESTIMATE: usize = 40;

/// Smallest source length that reprojects its table capacity from observed density.
pub const CAPACITY_REPROJECT_MIN_SOURCE: usize = 1_048_576;

/// Reprojection samples density once the consumed prefix reaches this fraction of the source.
pub const CAPACITY_REPROJECT_SAMPLE_DENOMINATOR: usize = 32;

/// Hint-conservative divisor for strict JSON's node density: the densest packing, `[1,1,1,...]`, approaches two bytes
/// per node.
pub const MIN_BYTES_PER_NODE: usize = 2;

/// Divisor for a source long enough to be reprojected: its initial slab only has to carry the parser as far as the
/// density sample.
pub const SOURCE_BYTES_PER_SAMPLED_ARENA_SLOT: usize = CAPACITY_REPROJECT_SAMPLE_DENOMINATOR * MIN_BYTES_PER_NODE;

/// Initial arena slab for one value decoded in adjacent mode, where the source length is the whole remaining stream
/// rather than this value's own extent.
pub const ADJACENT_VALUE_SEED_SLOTS: usize = 32;

/// How many node and occurrence slots to reserve up front, as an **optimization hint only**; zero asks for none. In
/// whole-document mode the slab is proportional to the source length, from one of two divisors; in adjacent mode it is
/// a small fixed seed.
pub fn reserve_estimate(source_len: usize, adjacent: bool) -> (slots: usize)
    ensures
        slots == if adjacent {
            32int
        } else if source_len >= 1_048_576 {
            source_len as int / 64
        } else {
            source_len as int / 40
        },
{
    if adjacent {
        ADJACENT_VALUE_SEED_SLOTS
    } else if source_len >= CAPACITY_REPROJECT_MIN_SOURCE {
        source_len / SOURCE_BYTES_PER_SAMPLED_ARENA_SLOT
    } else {
        source_len / SOURCE_BYTES_PER_ARENA_SLOT_ESTIMATE
    }
}

/// How an attempt to reserve capacity came out.
#[derive(Clone, Copy, Debug, PartialEq, Eq, Structural)]
pub enum ReserveOutcome {
    /// The capacity is there.
    Reserved,
    /// The request's ledger refused the slab.
    LimitExceeded,
    /// The allocator refused the slab.
    AllocationFailed,
    /// The request itself failed.
    Failed(CodecFailureKind),
}

/// Settles one capacity reservation the parser WANTS but does not need. A refused slab says only "this much, up front,
/// is too much", and the fallback — amortized growth from empty — asks for less; every other failure is a failure of
/// the request and propagates.
pub fn reserve_hint(outcome: ReserveOutcome) -> (settled: Result<(), CodecFailureKind>)
    ensures
        settled == match outcome {
            ReserveOutcome::Failed(kind) => Err::<(), CodecFailureKind>(kind),
            _ => Ok(()),
        },
{
    match outcome {
        ReserveOutcome::Reserved | ReserveOutcome::LimitExceeded | ReserveOutcome::AllocationFailed => Ok(()),
        ReserveOutcome::Failed(kind) => Err(kind),
    }
}

/// The FNV-1a 64 hash of `bytes`.
pub open spec fn fnv1a(bytes: Seq<u8>) -> u64
    decreases bytes.len(),
{
    if bytes.len() == 0 {
        0xcbf2_9ce4_8422_2325
    } else {
        (((fnv1a(bytes.drop_last()) ^ (bytes.last() as u64)) * 0x100_0000_01b3) % 0x1_0000_0000_0000_0000) as u64
    }
}

/// The duplicate-key probe fingerprint: FNV-1a 64 over the key's source bytes. A collision is a spurious match, which a
/// caller takes as a duplicate.
pub fn key_fingerprint(bytes: &[u8]) -> (hash: u64)
    ensures
        hash == fnv1a(bytes@),
{
    let mut hash: u64 = 0xcbf2_9ce4_8422_2325;
    let mut i: usize = 0;
    assert(bytes@.take(0) =~= seq![]);
    while i < bytes.len()
        invariant
            i <= bytes.len(),
            hash == fnv1a(bytes@.take(i as int)),
        decreases bytes.len() - i,
    {
        assert(bytes@.take(i + 1).drop_last() =~= bytes@.take(i as int));
        hash = hash ^ (bytes[i] as u64);
        hash = hash.wrapping_mul(0x100_0000_01b3);
        i += 1;
    }
    assert(bytes@.take(bytes@.len() as int) =~= bytes@);
    hash
}

/// Equal keys have equal fingerprints, so a fingerprint never seen before proves a key never seen before.
pub proof fn lemma_fingerprints_tell_keys_apart(left: Seq<u8>, right: Seq<u8>)
    requires
        fnv1a(left) != fnv1a(right),
    ensures
        left != right,
{
}

/// End of the plain string run from `start`, inside `bytes[..limit]`.
pub fn plain_string_run_end(bytes: &[u8], start: usize, limit: usize) -> (end: usize)
    requires
        start <= limit <= bytes.len(),
    ensures
        end == run_end(bytes@.take(limit as int), start as int, StopSet::PlainString),
        start <= end <= limit,
{
    scan_within(StopSet::PlainString, bytes, start, limit)
}

/// End of the string content run from `start`, inside `bytes[..limit]`.
pub fn string_content_run_end(bytes: &[u8], start: usize, limit: usize) -> (end: usize)
    requires
        start <= limit <= bytes.len(),
    ensures
        end == run_end(bytes@.take(limit as int), start as int, StopSet::StringContent),
        start <= end <= limit,
{
    scan_within(StopSet::StringContent, bytes, start, limit)
}

/// End of the run of bytes outside `set` from `start`, inside `bytes[..limit]`.
fn scan_within(set: StopSet, bytes: &[u8], start: usize, limit: usize) -> (end: usize)
    requires
        start <= limit <= bytes.len(),
    ensures
        end == run_end(bytes@.take(limit as int), start as int, set),
        start <= end <= limit,
{
    let window = vstd::slice::slice_subrange(bytes, 0, limit);
    assert(window@ =~= bytes@.take(limit as int));
    scan_to(set, window, start)
}

/// Whether `byte` may stand verbatim inside a JSON5 single-quoted string: no `'`, no `\`, no C0 control. A `"` is
/// ordinary content there.
pub open spec fn single_quoted_content(byte: u8) -> bool {
    byte != APOSTROPHE && byte != BACKSLASH && byte >= 0x20
}

/// The position after the longest run of `bytes[..limit]` from `start` that can sit verbatim inside a JSON5
/// single-quoted string.
pub fn single_quoted_run_end(bytes: &[u8], start: usize, limit: usize) -> (end: usize)
    requires
        start <= limit <= bytes.len(),
    ensures
        start <= end <= limit,
        forall|i: int| start <= i < end ==> single_quoted_content(#[trigger] bytes@[i]),
        end < limit ==> !single_quoted_content(bytes@[end as int]),
{
    let mut n: usize = start;
    while n < limit && bytes[n] != APOSTROPHE && bytes[n] != BACKSLASH && bytes[n] >= 0x20
        invariant
            start <= n <= limit <= bytes.len(),
            forall|i: int| start <= i < n ==> single_quoted_content(#[trigger] bytes@[i]),
        decreases limit - n,
    {
        n += 1;
    }
    n
}

/// A hexadecimal digit's value.
pub open spec fn hex_value(byte: u8) -> Option<u8> {
    if ZERO <= byte <= NINE {
        Some((byte - ZERO) as u8)
    } else if LOWER_A <= byte <= LOWER_F {
        Some((byte - LOWER_A + 10) as u8)
    } else if UPPER_A <= byte <= UPPER_F {
        Some((byte - UPPER_A + 10) as u8)
    } else {
        None
    }
}

/// A hexadecimal digit's value, either case, or `None` for any other byte.
pub fn hex(byte: u8) -> (value: Option<u8>)
    ensures
        value == hex_value(byte),
{
    match byte {
        ZERO..=NINE => Some(byte - ZERO),
        LOWER_A..=LOWER_F => Some(byte - LOWER_A + 10),
        UPPER_A..=UPPER_F => Some(byte - UPPER_A + 10),
        _ => None,
    }
}

/// A 16-bit accumulator with one more hexadecimal digit shifted in.
pub open spec fn shifted_in(value: u16, digit: u8) -> u16 {
    ((value * 16) % 0x1_0000 + digit) as u16
}

/// The hex digits of a `\uXXXX` run from `cursor`, with `digits` of the four read already: the accumulated value, how
/// many of the four it holds, and where reading stopped; or where a byte that is no hex digit stands.
pub open spec fn unicode_hex(bytes: Seq<u8>, cursor: int, limit: int, value: u16, digits: u8) -> Result<
    (u16, u8, int),
    int,
>
    decreases limit - cursor,
{
    if digits >= 4 || cursor >= limit {
        Ok((value, digits, cursor))
    } else {
        match hex_value(bytes[cursor]) {
            Some(digit) => unicode_hex(bytes, cursor + 1, limit, shifted_in(value, digit), (digits + 1) as u8),
            None => Err(cursor),
        }
    }
}

/// Accumulates every in-window hex digit of a `\uXXXX` run, up to four. Returns `(value, digits, end)`. `Err(at)` is the
/// first non-hex byte.
pub fn take_unicode_hex(bytes: &[u8], start: usize, limit: usize, seed: u16, have: u8) -> (taken: Result<
    (u16, u8, usize),
    usize,
>)
    requires
        start <= limit <= bytes.len(),
    ensures
        match (taken, unicode_hex(bytes@, start as int, limit as int, seed, have)) {
            (Ok((value, digits, end)), Ok((value2, digits2, end2))) => value == value2 && digits == digits2 && end
                == end2 && end <= limit,
            (Err(at), Err(at2)) => at == at2,
            _ => false,
        },
{
    let mut value: u16 = seed;
    let mut digits: u8 = have;
    let mut cursor: usize = start;
    while digits < 4 && cursor < limit
        invariant
            start <= cursor <= limit <= bytes.len(),
            unicode_hex(bytes@, start as int, limit as int, seed, have) == unicode_hex(
                bytes@,
                cursor as int,
                limit as int,
                value,
                digits,
            ),
        decreases limit - cursor,
    {
        let digit = match hex(bytes[cursor]) {
            Some(digit) => digit,
            None => return Err(cursor),
        };
        assert(((value << 4) | (digit as u16)) == ((value * 16) % 0x1_0000 + digit)) by (bit_vector)
            requires
                digit < 16,
        ;
        value = (value << 4) | (digit as u16);
        digits += 1;
        cursor += 1;
    }
    Ok((value, digits, cursor))
}

/// What a string walk is inside of.
#[derive(Clone, Copy, Debug, PartialEq, Eq, Structural)]
pub enum EscapeState {
    /// Ordinary content.
    Plain,
    /// After a high surrogate's escape: its low half must follow.
    LowBackslash {
        /// The high surrogate.
        high: u16,
    },
}

/// A high surrogate.
pub open spec fn high_surrogate(unit: u16) -> bool {
    0xd800 <= unit <= 0xdbff
}

/// A low surrogate.
pub open spec fn low_surrogate(unit: u16) -> bool {
    0xdc00 <= unit <= 0xdfff
}

/// Applies one `\uXXXX` unit to the staged text. A high surrogate waits for its low half; a lone low surrogate decodes
/// to U+FFFD; every other unit is its own character.
pub fn apply_unicode_scalar(staged: &mut String, value: u16) -> (next: EscapeState)
    ensures
        if high_surrogate(value) {
            next == (EscapeState::LowBackslash { high: value }) && final(staged)@ == old(staged)@
        } else if low_surrogate(value) {
            next == EscapeState::Plain && final(staged)@ == old(staged)@.push('\u{fffd}')
        } else {
            next == EscapeState::Plain && final(staged)@ == old(staged)@.push(value as char)
        },
{
    if 0xd800 <= value && value <= 0xdbff {
        return EscapeState::LowBackslash { high: value };
    }
    let character = match char::from_u32(value as u32) {
        Some(character) => character,
        None => '\u{fffd}',
    };
    staged.push(character);
    EscapeState::Plain
}

/// Returns the total UTF-8 scalar width implied by a lead byte, or `None` when the byte cannot begin a scalar.
/// Continuation, overlong and surrogate validity is confirmed separately over the full sequence.
pub fn scalar_width_from_lead(byte: u8) -> (width: Option<usize>)
    ensures
        width == if byte < 0x80 {
            Some(1usize)
        } else {
            match crate::byte_scan::continuations(byte) {
                Some(count) => Some((count + 1) as usize),
                None => None,
            }
        },
{
    match byte {
        0x00..=0x7f => Some(1),
        0xc2..=0xdf => Some(2),
        0xe0..=0xef => Some(3),
        0xf0..=0xf4 => Some(4),
        _ => None,
    }
}

/// Where the digits of an integer whose first digit stands at `at` end: a leading zero stands alone.
pub open spec fn integer_digits_end(bytes: Seq<u8>, at: int) -> Option<int> {
    if 0 <= at < bytes.len() && bytes[at] == ZERO {
        if at + 1 < bytes.len() && is_digit(bytes[at + 1]) {
            None
        } else {
            Some(at + 1)
        }
    } else if 0 <= at < bytes.len() && is_digit(bytes[at]) {
        Some(digit_run_end(bytes, at))
    } else {
        None
    }
}

/// End of the integer at `start` in a spelling strict JSON has, when a value boundary or the input's end follows.
pub open spec fn verbatim_end(bytes: Seq<u8>, start: int) -> Option<int> {
    let first = if 0 <= start < bytes.len() && bytes[start] == MINUS {
        start + 1
    } else {
        start
    };
    match integer_digits_end(bytes, first) {
        Some(end) => if ends_at_boundary(bytes, end) {
            Some(end)
        } else {
            None
        },
        None => None,
    }
}

/// End offset of an in-window verbatim integer at `start`, or `None` when the token is not a source-verbatim integer
/// (fraction, exponent, leading zero, incomplete window, or a suffix the number machine must reject).
pub fn verbatim_integer_end(bytes: &[u8], start: usize) -> (end: Option<usize>)
    ensures
        match end {
            Some(end) => verbatim_end(bytes@, start as int) == Some(end as int) && end <= bytes.len(),
            None => verbatim_end(bytes@, start as int) is None,
        },
{
    let mut pos: usize = start;
    if pos < bytes.len() && bytes[pos] == MINUS {
        pos += 1;
    }
    if pos >= bytes.len() {
        return None;
    }
    let ghost first = pos as int;
    match bytes[pos] {
        ZERO => {
            pos += 1;
            if pos < bytes.len() && ZERO <= bytes[pos] && bytes[pos] <= NINE {
                return None;
            }
        }
        ONE..=NINE => {
            while pos < bytes.len() && ZERO <= bytes[pos] && bytes[pos] <= NINE
                invariant
                    first <= pos <= bytes.len(),
                    digit_run_end(bytes@, first) == digit_run_end(bytes@, pos as int),
                decreases bytes.len() - pos,
            {
                pos += 1;
            }
        }
        _ => return None,
    }
    if pos < bytes.len() && !is_value_boundary(bytes[pos]) {
        None
    } else {
        Some(pos)
    }
}

/// The JSON5 hex digit ceiling. Exact hex-to-decimal conversion is quadratic in digit count, so a longer literal is
/// refused at decode, never rounded.
pub const MAX_HEX_DIGITS: usize = 4096;

/// The number a run of hex digits spells.
pub open spec fn hex_number(digits: Seq<u8>) -> nat
    decreases digits.len(),
{
    if digits.len() == 0 {
        0
    } else {
        hex_number(digits.drop_last()) * 16 + hex_value(digits.last())->0 as nat
    }
}

/// The number a decimal text spells.
pub open spec fn decimal_number(text: Seq<char>) -> nat
    decreases text.len(),
{
    if text.len() == 0 {
        0
    } else {
        (decimal_number(text.drop_last()) * 10 + (text.last() as int - '0' as int)) as nat
    }
}

/// Whether `text` is a decimal in its one canonical spelling: digits only, and no leading zero but for zero itself.
pub open spec fn canonical_decimal(text: Seq<char>) -> bool {
    &&& text.len() > 0
    &&& forall|i: int| 0 <= i < text.len() ==> '0' <= #[trigger] text[i] <= '9'
    &&& text.len() > 1 ==> text[0] != '0'
}

/// The number that little-endian decimal limbs hold.
spec fn limbs_number(limbs: Seq<u8>) -> nat
    decreases limbs.len(),
{
    if limbs.len() == 0 {
        0
    } else {
        limbs[0] as nat + 10 * limbs_number(limbs.skip(1))
    }
}

/// Ten to the power `n`.
spec fn ten_to(n: nat) -> nat
    decreases n,
{
    if n == 0 {
        1
    } else {
        10 * ten_to((n - 1) as nat)
    }
}

proof fn lemma_limbs_push(limbs: Seq<u8>, limb: u8)
    ensures
        limbs_number(limbs.push(limb)) == limbs_number(limbs) + ten_to(limbs.len()) * limb,
    decreases limbs.len(),
{
    if limbs.len() == 0 {
        assert(limbs.push(limb).skip(1) =~= seq![]);
        assert(limbs_number(seq![]) == 0);
        assert(ten_to(0) == 1);
        assert(1 * limb == limb) by (nonlinear_arith);
    } else {
        let rest = limbs.skip(1);
        lemma_limbs_push(rest, limb);
        assert(limbs.push(limb).skip(1) =~= rest.push(limb));
        let power = ten_to(rest.len());
        assert(ten_to(limbs.len()) == 10 * power);
        assert(10 * (power * limb) == (10 * power) * limb) by (nonlinear_arith);
        assert(limbs.push(limb)[0] == limbs[0]);
    }
}

/// One limb of a multiply-by-16 step: what is done so far, plus what is left shifted up by the limbs done, is the whole.
proof fn lemma_limb_step(power: nat, limb: nat, rest: nat, carry: nat, digit: nat, next_carry: nat)
    requires
        limb * 16 + carry == digit + 10 * next_carry,
    ensures
        power * (16 * (limb + 10 * rest) + carry) == power * digit + (10 * power) * (16 * rest + next_carry),
{
    assert(power * (16 * (limb + 10 * rest) + carry) == power * digit + (10 * power) * (16 * rest + next_carry))
        by (nonlinear_arith)
        requires
            limb * 16 + carry == digit + 10 * next_carry,
    ;
}

/// Little-endian decimal limbs, canonical: every limb is a digit, and the top one is not zero unless it is alone.
spec fn canonical_limbs(limbs: Seq<u8>) -> bool {
    &&& limbs.len() > 0
    &&& forall|i: int| 0 <= i < limbs.len() ==> #[trigger] limbs[i] <= 9
    &&& limbs.len() > 1 ==> limbs.last() != 0
}

/// Multiplies the limbs by 16 and adds `nibble`.
fn shift_limbs(limbs: &mut Vec<u8>, nibble: u8)
    requires
        canonical_limbs(old(limbs)@),
        nibble < 16,
    ensures
        canonical_limbs(final(limbs)@),
        limbs_number(final(limbs)@) == limbs_number(old(limbs)@) * 16 + nibble,
{
    let ghost before = limbs@;
    let ghost total = limbs_number(before) * 16 + nibble;
    let mut carry: u32 = nibble as u32;
    let mut k: usize = 0;
    proof {
        assert(before.skip(0) =~= before);
        assert(limbs@.take(0) =~= seq![]);
        assert(limbs_number(seq![]) == 0);
        assert(ten_to(0) * (16 * limbs_number(before) + carry as nat) == total) by (nonlinear_arith)
            requires
                ten_to(0) == 1,
                total == limbs_number(before) * 16 + nibble,
                carry == nibble,
        ;
    }
    while k < limbs.len()
        invariant
            k <= limbs.len(),
            limbs.len() == before.len(),
            carry < 16,
            canonical_limbs(before),
            forall|i: int| k <= i < limbs.len() ==> limbs@[i] == before[i],
            forall|i: int| 0 <= i < k ==> #[trigger] limbs@[i] <= 9,
            limbs_number(limbs@.take(k as int)) + ten_to(k as nat) * (16 * limbs_number(before.skip(k as int))
                + carry as nat) == total,
            // A top limb that ends up zero carried into a new top limb.
            k == limbs.len() && k > 1 && carry == 0 ==> limbs@[k - 1] != 0,
        decreases limbs.len() - k,
    {
        let ghost done = limbs@.take(k as int);
        let ghost rest = limbs_number(before.skip(k + 1));
        let ghost carried = carry as nat;
        let limb = limbs[k] as u32;
        let value: u32 = limb * 16 + carry;
        limbs.set(k, (value % 10) as u8);
        carry = value / 10;
        proof {
            assert(before.skip(k as int)[0] == before[k as int]);
            assert(before.skip(k as int).skip(1) =~= before.skip(k + 1));
            assert(limbs@.take(k + 1) =~= done.push((value % 10) as u8));
            lemma_limbs_push(done, (value % 10) as u8);
            lemma_limb_step(ten_to(k as nat), limb as nat, rest, carried, (value % 10) as nat, carry as nat);
        }
        k += 1;
    }
    proof {
        assert(limbs@.take(k as int) =~= limbs@);
        assert(before.skip(k as int) =~= seq![]);
        assert(limbs_number(seq![]) == 0);
    }
    let ghost width = limbs@.len();
    while carry > 0
        invariant
            carry < 16,
            limbs@.len() >= 1,
            forall|i: int| 0 <= i < limbs@.len() ==> #[trigger] limbs@[i] <= 9,
            carry == 0 ==> canonical_limbs(limbs@),
            limbs_number(limbs@) + ten_to(limbs@.len()) * carry as nat == total,
        decreases carry,
    {
        let digit = (carry % 10) as u8;
        proof {
            lemma_limbs_push(limbs@, digit);
            let power = ten_to(limbs@.len());
            let rest = (carry / 10) as nat;
            assert(power * (carry as nat) == power * digit + (10 * power) * rest) by (nonlinear_arith)
                requires
                    carry as nat == digit + 10 * rest,
            ;
        }
        limbs.push(digit);
        carry = carry / 10;
    }
    proof {
        assert(ten_to(limbs@.len()) * 0 == 0) by (nonlinear_arith);
    }
}

/// Converts a JSON5 hex digit run (the bytes after `0x`, no sign) to its canonical decimal text. Schoolbook
/// multiply-by-16 in little-endian decimal limbs, so arbitrarily long hex literals stay exact.
pub fn hex_to_decimal(digits: &[u8]) -> (text: String)
    requires
        forall|i: int| 0 <= i < digits.len() ==> hex_value(#[trigger] digits@[i]) is Some,
    ensures
        canonical_decimal(text@),
        decimal_number(text@) == hex_number(digits@),
{
    let mut limbs: Vec<u8> = Vec::new();
    limbs.push(0);
    let mut at: usize = 0;
    proof {
        reveal_with_fuel(limbs_number, 2);
        assert(limbs@.skip(1) =~= seq![]);
        assert(digits@.take(0) =~= seq![]);
    }
    while at < digits.len()
        invariant
            at <= digits.len(),
            forall|i: int| 0 <= i < digits.len() ==> hex_value(#[trigger] digits@[i]) is Some,
            canonical_limbs(limbs@),
            limbs_number(limbs@) == hex_number(digits@.take(at as int)),
        decreases digits.len() - at,
    {
        assert(digits@.take(at + 1).drop_last() =~= digits@.take(at as int));
        if let Some(nibble) = hex(digits[at]) {
            shift_limbs(&mut limbs, nibble);
        }
        at += 1;
    }
    assert(digits@.take(at as int) =~= digits@);
    let mut text = String::new();
    let mut left: usize = limbs.len();
    assert(limbs@.skip(left as int) =~= seq![]);
    assert(text@ =~= seq![]);
    while left > 0
        invariant
            left <= limbs.len(),
            canonical_limbs(limbs@),
            text@.len() == limbs.len() - left,
            forall|i: int| 0 <= i < text@.len() ==> '0' <= #[trigger] text@[i] <= '9',
            left < limbs.len() ==> (text@[0] as int) == '0' as int + limbs@.last(),
            decimal_number(text@) == limbs_number(limbs@.skip(left as int)),
        decreases left,
    {
        let limb = limbs[left - 1];
        let ghost shown = text@;
        text.push((ZERO + limb) as char);
        proof {
            assert(text@.drop_last() =~= shown);
            assert(limbs@.skip(left - 1)[0] == limb);
            assert(limbs@.skip(left - 1).skip(1) =~= limbs@.skip(left as int));
        }
        left -= 1;
    }
    assert(limbs@.skip(0) =~= limbs@);
    text
}

/// The decimal text of the JSON5 hex literal whose digits (past `0x`) are `source[start..end]`. A literal longer than
/// [`MAX_HEX_DIGITS`] is beyond the exact conversion bound and refused rather than silently rounded.
pub fn convert_hex_literal(source: &[u8], start: usize, end: usize) -> (converted: Result<String, Diagnosis>)
    requires
        start <= end <= source.len(),
        forall|i: int| start <= i < end ==> hex_value(#[trigger] source@[i]) is Some,
    ensures
        match converted {
            Ok(text) => {
                &&& end - start <= MAX_HEX_DIGITS
                &&& canonical_decimal(text@)
                &&& decimal_number(text@) == hex_number(source@.subrange(start as int, end as int))
            },
            Err(diagnosis) => {
                &&& end - start > MAX_HEX_DIGITS
                &&& diagnosis.kind == CodecFailureKind::InvalidInput
                &&& diagnosis.start == start && diagnosis.end == end
                &&& diagnosis.code@ == NUMBER_SCALE_OUT_OF_RANGE@
                &&& diagnosis.message@ == MSG_HEX_SCALE@
            },
        },
{
    if end - start > MAX_HEX_DIGITS {
        return Err(unsupported_hex_number(start, end));
    }
    let digits = vstd::slice::slice_subrange(source, start, end);
    proof {
        assert forall|i: int| 0 <= i < digits.len() implies hex_value(#[trigger] digits@[i]) is Some by {
            assert(digits@[i] == source@[start + i]);
        }
    }
    Ok(hex_to_decimal(digits))
}

} // verus!
