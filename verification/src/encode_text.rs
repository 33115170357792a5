//! How a text is written inside a JSON string: raw UTF-8 with the required escapes, or ASCII only.

use vstd::prelude::*;

use crate::ascii::{BACKSLASH, LOWER_A, LOWER_U, QUOTE, ZERO};
use vstd::utf8::{decode_first_scalar, length_of_first_scalar, pop_first_scalar, valid_first_scalar, valid_utf8};

use crate::byte_scan::{scan_to, StopSet};
use crate::json_escape::{escaped, escaped_byte, hex_digit, lemma_escaped_concat, push_json_escaped_byte};

verus! {

/// `\uXXXX` for a 16-bit unit, in lowercase hexadecimal.
pub open spec fn unit_escape(unit: int) -> Seq<u8> {
    seq![
        BACKSLASH,
        LOWER_U,
        hex_digit(unit / 4096 % 16),
        hex_digit(unit / 256 % 16),
        hex_digit(unit / 16 % 16),
        hex_digit(unit % 16),
    ]
}

/// A code point as its escape: a supplementary character is its surrogate PAIR, each half spelled alike.
pub open spec fn scalar_escape(codepoint: u32) -> Seq<u8> {
    if codepoint <= 0xffff {
        unit_escape(codepoint as int)
    } else {
        let value = codepoint - 0x10000;
        unit_escape(0xd800 + value / 0x400) + unit_escape(0xdc00 + value % 0x400)
    }
}

/// The ASCII-only JSON string body that spells the UTF-8 text `bytes`.
pub open spec fn ascii_escaped(bytes: Seq<u8>) -> Seq<u8>
    decreases bytes.len(),
{
    if bytes.len() == 0 {
        seq![]
    } else if bytes[0] < 0x80 {
        escaped_byte(bytes[0]) + ascii_escaped(bytes.skip(1))
    } else if valid_first_scalar(bytes) {
        scalar_escape(decode_first_scalar(bytes)) + ascii_escaped(pop_first_scalar(bytes))
    } else {
        seq![]
    }
}

/// The JSON string body that spells the UTF-8 text `bytes`.
pub open spec fn text_body(bytes: Seq<u8>, ascii: bool) -> Seq<u8> {
    if ascii {
        ascii_escaped(bytes)
    } else {
        escaped(bytes)
    }
}

/// The quoted JSON string that spells the UTF-8 text `bytes`.
pub open spec fn quoted(bytes: Seq<u8>, ascii: bool) -> Seq<u8> {
    seq![QUOTE] + text_body(bytes, ascii) + seq![QUOTE]
}

/// A valid text's first scalar: an ASCII byte is one on its own.
pub proof fn lemma_first_scalar(bytes: Seq<u8>)
    requires
        valid_utf8(bytes),
        bytes.len() > 0,
    ensures
        valid_first_scalar(bytes),
        bytes[0] < 0x80 ==> length_of_first_scalar(bytes) == 1 && pop_first_scalar(bytes) == bytes.skip(1),
        valid_utf8(pop_first_scalar(bytes)),
        1 <= length_of_first_scalar(bytes) <= bytes.len(),
{
    assert(bytes.skip(1) =~= bytes.subrange(1, bytes.len() as int));
}

/// Text bodies join where texts do.
pub proof fn lemma_text_body_concat(left: Seq<u8>, right: Seq<u8>, ascii: bool)
    requires
        valid_utf8(left),
    ensures
        text_body(left + right, ascii) == text_body(left, ascii) + text_body(right, ascii),
    decreases left.len(),
{
    if !ascii {
        lemma_escaped_concat(left, right);
    } else if left.len() == 0 {
        assert(left + right =~= right);
        assert(ascii_escaped(left) + ascii_escaped(right) =~= ascii_escaped(right));
    } else {
        let whole = left + right;
        lemma_first_scalar(left);
        assert(whole[0] == left[0]);
        let rest = pop_first_scalar(left);
        lemma_text_body_concat(rest, right, ascii);
        if left[0] < 0x80 {
            assert(whole.skip(1) =~= rest + right);
        } else {
            assert(pop_first_scalar(whole) =~= rest + right);
        }
        assert(ascii_escaped(whole) =~= ascii_escaped(left) + ascii_escaped(right));
    }
}

/// A run that needs no escape is its own body.
pub proof fn lemma_plain_run(bytes: Seq<u8>, run: int, ascii: bool)
    requires
        0 <= run <= bytes.len(),
        ascii ==> valid_utf8(bytes),
        forall|i: int|
            0 <= i < run ==> !(if ascii {
                StopSet::PlainString
            } else {
                StopSet::Escape
            }).stops(#[trigger] bytes[i]),
    ensures
        text_body(bytes, ascii) == bytes.take(run) + text_body(bytes.skip(run), ascii),
        ascii ==> valid_utf8(bytes.skip(run)),
    decreases run,
{
    if run == 0 {
        assert(bytes.skip(0) =~= bytes);
        assert(bytes.take(0) + text_body(bytes, ascii) =~= text_body(bytes, ascii));
    } else {
        assert(!(if ascii { StopSet::PlainString } else { StopSet::Escape }).stops(bytes[0]));
        let rest = bytes.skip(1);
        assert(escaped_byte(bytes[0]) =~= seq![bytes[0]]);
        if ascii {
            lemma_first_scalar(bytes);
        } else {
            lemma_escaped_concat(seq![bytes[0]], rest);
            assert(seq![bytes[0]] + rest =~= bytes);
            lemma_escaped_single(bytes[0]);
        }
        assert forall|i: int| 0 <= i < run - 1 implies !(if ascii {
            StopSet::PlainString
        } else {
            StopSet::Escape
        }).stops(#[trigger] rest[i]) by {
            assert(rest[i] == bytes[i + 1]);
        }
        lemma_plain_run(rest, run - 1, ascii);
        assert(rest.skip(run - 1) =~= bytes.skip(run));
        assert(bytes.take(run) =~= seq![bytes[0]] + rest.take(run - 1));
        assert(text_body(bytes, ascii) =~= bytes.take(run) + text_body(bytes.skip(run), ascii));
    }
}

/// One byte's body.
pub proof fn lemma_escaped_single(byte: u8)
    ensures
        escaped(seq![byte]) == escaped_byte(byte),
{
    assert(seq![byte].drop_last() =~= seq![]);
    assert(escaped(seq![]) =~= seq![]);
    assert(escaped(seq![]) + escaped_byte(byte) =~= escaped_byte(byte));
}

/// The lowercase hexadecimal digit of `nibble`.
fn hex_of(nibble: u32) -> (digit: u8)
    requires
        nibble < 16,
    ensures
        digit == hex_digit(nibble as int),
{
    if nibble < 10 {
        ZERO + nibble as u8
    } else {
        LOWER_A + (nibble - 10) as u8
    }
}

/// Appends the `\uXXXX` escape of a 16-bit unit.
fn push_unit_escape(out: &mut Vec<u8>, unit: u32)
    requires
        unit <= 0xffff,
    ensures
        final(out)@ == old(out)@ + unit_escape(unit as int),
{
    out.push(BACKSLASH);
    out.push(LOWER_U);
    out.push(hex_of(unit / 4096 % 16));
    out.push(hex_of(unit / 256 % 16));
    out.push(hex_of(unit / 16 % 16));
    out.push(hex_of(unit % 16));
    assert(out@ =~= old(out)@ + unit_escape(unit as int));
}

/// Appends a code point's escape.
fn push_scalar_escape(out: &mut Vec<u8>, codepoint: u32)
    requires
        codepoint <= 0x10ffff,
    ensures
        final(out)@ == old(out)@ + scalar_escape(codepoint),
{
    if codepoint <= 0xffff {
        push_unit_escape(out, codepoint);
    } else {
        let value = codepoint - 0x10000;
        push_unit_escape(out, 0xd800 + value / 0x400);
        push_unit_escape(out, 0xdc00 + value % 0x400);
        assert(out@ =~= old(out)@ + scalar_escape(codepoint));
    }
}

/// The scalar that starts at `at`, and its width.
pub fn decode_scalar(bytes: &[u8], at: usize) -> (decoded: (u32, usize))
    requires
        at <= bytes.len(),
        valid_first_scalar(bytes@.skip(at as int)),
    ensures
        decoded.0 == decode_first_scalar(bytes@.skip(at as int)),
        decoded.1 == length_of_first_scalar(bytes@.skip(at as int)),
        decoded.0 <= 0x10ffff,
        1 <= decoded.1 <= bytes.len() - at,
{
    let ghost rest = bytes@.skip(at as int);
    let first = bytes[at];
    assert(rest[0] == first);
    if first < 0x80 {
        assert((first & 0x7f) == first) by (bit_vector)
            requires
                first < 0x80,
        ;
        (first as u32, 1)
    } else if first < 0xe0 {
        let second = bytes[at + 1];
        assert(rest[1] == second);
        let point = (((first & 0x1f) as u32) << 6) | ((second & 0x3f) as u32);
        assert(point <= 0x7ff) by (bit_vector)
            requires
                point == (((first & 0x1f) as u32) << 6) | ((second & 0x3f) as u32),
        ;
        (point, 2)
    } else if first < 0xf0 {
        let (second, third) = (bytes[at + 1], bytes[at + 2]);
        assert(rest[1] == second && rest[2] == third);
        let point = (((first & 0x0f) as u32) << 12) | (((second & 0x3f) as u32) << 6) | ((third & 0x3f) as u32);
        assert(point <= 0xffff) by (bit_vector)
            requires
                point == (((first & 0x0f) as u32) << 12) | (((second & 0x3f) as u32) << 6) | ((third & 0x3f) as u32),
        ;
        (point, 3)
    } else {
        let (second, third, fourth) = (bytes[at + 1], bytes[at + 2], bytes[at + 3]);
        assert(rest[1] == second && rest[2] == third && rest[3] == fourth);
        let point = (((first & 0x07) as u32) << 18) | (((second & 0x3f) as u32) << 12) | (((third & 0x3f) as u32)
            << 6) | ((fourth & 0x3f) as u32);
        (point, 4)
    }
}

/// Appends the character that starts at `at`, escaped for a JSON string body, and returns where the next one starts. The
/// ASCII set is [`crate::json_escape_byte`]'s; under `ascii` every code point at or above `0x80` is escaped too.
pub fn push_escaped(out: &mut Vec<u8>, bytes: &[u8], at: usize, ascii: bool) -> (next: usize)
    requires
        at < bytes.len(),
        valid_utf8(bytes@.skip(at as int)),
    ensures
        ({
            let rest = bytes@.skip(at as int);
            let width = length_of_first_scalar(rest);
            &&& next == at + width
            &&& next <= bytes.len()
            &&& valid_utf8(bytes@.skip(next as int))
            &&& final(out)@ == old(out)@ + text_body(rest.take(width), ascii)
        }),
{
    let ghost rest = bytes@.skip(at as int);
    proof {
        lemma_first_scalar(rest);
        assert(rest[0] == bytes@[at as int]);
    }
    let (codepoint, width) = decode_scalar(bytes, at);
    let ghost scalar = rest.take(width as int);
    assert(bytes@.skip(at + width) =~= pop_first_scalar(rest));
    assert(scalar[0] == rest[0]);
    if bytes[at] < 0x80 {
        push_json_escaped_byte(out, bytes[at]);
        proof {
            assert(scalar =~= seq![bytes@[at as int]]);
            lemma_escaped_single(bytes@[at as int]);
            assert(scalar.skip(1) =~= seq![]);
            assert(ascii_escaped(seq![]) =~= seq![]);
            assert(ascii_escaped(scalar) =~= escaped_byte(bytes@[at as int]));
        }
    } else if ascii {
        push_scalar_escape(out, codepoint);
        proof {
            assert(pop_first_scalar(scalar) =~= seq![]);
            assert(ascii_escaped(seq![]) =~= seq![]);
            assert(ascii_escaped(scalar) =~= scalar_escape(codepoint));
        }
    } else {
        let mut k: usize = 0;
        while k < width
            invariant
                k <= width,
                at + width <= bytes.len(),
                scalar == bytes@.skip(at as int).take(width as int),
                out@ == old(out)@ + scalar.take(k as int),
            decreases width - k,
        {
            out.push(bytes[at + k]);
            k += 1;
            assert(scalar.take(k as int) =~= scalar.take(k - 1).push(scalar[k - 1]));
        }
        proof {
            assert(scalar.take(width as int) =~= scalar);
            assert forall|i: int| 0 <= i < scalar.len() implies !StopSet::Escape.stops(#[trigger] scalar[i]) by {
                assert(scalar[i] == rest[i]);
            }
            lemma_plain_run(scalar, width as int, false);
            assert(scalar.skip(width as int) =~= seq![]);
            assert(escaped(seq![]) =~= seq![]);
            assert(scalar + escaped(seq![]) =~= scalar);
        }
    }
    at + width
}

/// Appends `bytes[from..to]` to `out`.
pub fn push_range(out: &mut Vec<u8>, bytes: &[u8], from: usize, to: usize)
    requires
        from <= to <= bytes.len(),
    ensures
        final(out)@ == old(out)@ + bytes@.subrange(from as int, to as int),
{
    let mut k: usize = from;
    assert(out@ =~= old(out)@ + bytes@.subrange(from as int, from as int));
    while k < to
        invariant
            from <= k <= to <= bytes.len(),
            out@ == old(out)@ + bytes@.subrange(from as int, k as int),
        decreases to - k,
    {
        out.push(bytes[k]);
        k += 1;
        assert(bytes@.subrange(from as int, k as int) =~= bytes@.subrange(from as int, k - 1).push(bytes@[k - 1]));
    }
}

/// Appends all of `bytes` to `out`.
pub fn push_all(out: &mut Vec<u8>, bytes: &[u8])
    ensures
        final(out)@ == old(out)@ + bytes@,
{
    push_range(out, bytes, 0, bytes.len());
    assert(bytes@.subrange(0, bytes@.len() as int) =~= bytes@);
}

/// Appends the UTF-8 text `text` escaped for a JSON string body: plain runs whole, everything else character by
/// character.
pub fn push_escaped_text(out: &mut Vec<u8>, text: &[u8], ascii: bool)
    requires
        valid_utf8(text@),
    ensures
        final(out)@ == old(out)@ + text_body(text@, ascii),
{
    let set = if ascii {
        StopSet::PlainString
    } else {
        StopSet::Escape
    };
    let mut start: usize = 0;
    assert(text@.skip(0) =~= text@);
    while start < text.len()
        invariant
            start <= text.len(),
            valid_utf8(text@.skip(start as int)),
            set == (if ascii { StopSet::PlainString } else { StopSet::Escape }),
            old(out)@ + text_body(text@, ascii) == out@ + text_body(text@.skip(start as int), ascii),
        decreases text.len() - start,
    {
        let ghost rest = text@.skip(start as int);
        let ghost before = out@;
        let stop = scan_to(set, text, start);
        push_range(out, text, start, stop);
        proof {
            crate::byte_scan::lemma_run_end(text@, start as int, set);
            let run = stop - start;
            assert forall|i: int| 0 <= i < run implies !set.stops(#[trigger] rest[i]) by {
                assert(rest[i] == text@[start + i]);
            }
            lemma_plain_run(rest, run, ascii);
            lemma_plain_run_keeps_validity(rest, run, set);
            assert(rest.skip(run) =~= text@.skip(stop as int));
            assert(rest.take(run) =~= text@.subrange(start as int, stop as int));
            assert(out@ + text_body(text@.skip(stop as int), ascii) =~= before + text_body(rest, ascii));
        }
        start = stop;
        if start < text.len() {
            let ghost tail = text@.skip(start as int);
            let ghost middle = out@;
            let next = push_escaped(out, text, start, ascii);
            proof {
                let width = length_of_first_scalar(tail);
                let head = tail.take(width);
                let after = text@.skip(next as int);
                lemma_first_scalar(tail);
                assert(tail =~= head + after);
                lemma_scalar_alone_is_valid(tail);
                lemma_text_body_concat(head, after, ascii);
                assert(out@ + text_body(after, ascii) =~= middle + text_body(tail, ascii));
            }
            start = next;
        }
    }
    assert(text@.skip(start as int) =~= seq![]);
    assert(text_body(seq![], ascii) =~= seq![]);
    assert(out@ + text_body(seq![], ascii) =~= out@);
}

/// A text's first scalar is a valid text by itself.
proof fn lemma_scalar_alone_is_valid(bytes: Seq<u8>)
    requires
        valid_first_scalar(bytes),
    ensures
        valid_utf8(bytes.take(length_of_first_scalar(bytes))),
{
    let width = length_of_first_scalar(bytes);
    let scalar = bytes.take(width);
    assert(forall|i: int| 0 <= i < width ==> scalar[i] == bytes[i]);
    assert(pop_first_scalar(scalar) =~= seq![]);
    assert(valid_utf8(seq![]));
}

/// Past a run of bytes outside the stop set, a valid text is still valid: the run ends on a character boundary.
pub proof fn lemma_plain_run_keeps_validity(bytes: Seq<u8>, run: int, set: StopSet)
    requires
        valid_utf8(bytes),
        set == StopSet::Escape || set == StopSet::PlainString,
        0 <= run <= bytes.len(),
        forall|i: int| 0 <= i < run ==> !set.stops(#[trigger] bytes[i]),
        run < bytes.len() ==> set.stops(bytes[run]),
    ensures
        valid_utf8(bytes.skip(run)),
    decreases bytes.len(),
{
    if run == 0 {
        assert(bytes.skip(0) =~= bytes);
    } else {
        lemma_first_scalar(bytes);
        let width = length_of_first_scalar(bytes);
        let rest = pop_first_scalar(bytes);
        assert(width <= run) by {
            if run < width {
                assert(bytes[run] >= 0x80 && bytes[0] >= 0x80);
            }
        }
        assert forall|i: int| 0 <= i < run - width implies !set.stops(#[trigger] rest[i]) by {
            assert(rest[i] == bytes[i + width]);
        }
        if run < bytes.len() {
            assert(rest[run - width] == bytes[run]);
        }
        lemma_plain_run_keeps_validity(rest, run - width, set);
        assert(rest.skip(run - width) =~= bytes.skip(run));
    }
}

/// ASCII output is ASCII, and holds no control byte: whatever the text, every byte of its body is printable.
pub proof fn lemma_ascii_output_is_ascii(bytes: Seq<u8>, at: int)
    requires
        0 <= at < ascii_escaped(bytes).len(),
    ensures
        0x20 <= ascii_escaped(bytes)[at] < 0x7f,
    decreases bytes.len(),
{
    if bytes[0] < 0x80 {
        let own = escaped_byte(bytes[0]);
        if at < own.len() {
            assert(ascii_escaped(bytes)[at] == own[at]);
        } else {
            lemma_ascii_output_is_ascii(bytes.skip(1), at - own.len());
        }
    } else {
        let own = scalar_escape(decode_first_scalar(bytes));
        if at < own.len() {
            assert(ascii_escaped(bytes)[at] == own[at]);
        } else {
            lemma_ascii_output_is_ascii(pop_first_scalar(bytes), at - own.len());
        }
    }
}

} // verus!
